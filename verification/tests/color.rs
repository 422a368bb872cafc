use hydrant_optimizer::color::{
    component_label, course_color_index, sorted_course_ids, PALETTE_LEN,
};
use hydrant_optimizer::model::{ChosenSection, SectionOption, Source};
use hydrant_optimizer::order::OrderedSet;

fn section(course_id: &str) -> ChosenSection {
    ChosenSection {
        course_id: course_id.to_string(),
        course_title: format!("{course_id} title"),
        kind: "lecture".to_string(),
        section: SectionOption {
            id: format!("{course_id}-L1"),
            label: "L1".to_string(),
            room: String::new(),
            source: Source::Manual,
            meetings: Vec::new(),
            incompatible_with: OrderedSet::new(),
            unsupported_reason: None,
        },
    }
}

#[test]
fn nth_distinct_order_is_sorted_and_collision_free() {
    let sections = vec![section("C"), section("A"), section("B"), section("A")];
    let ordered = sorted_course_ids(&sections);
    assert_eq!(ordered, vec!["A", "B", "C"]);
    let indexes = ordered
        .iter()
        .map(|id| course_color_index(id, &ordered))
        .collect::<Vec<_>>();
    assert_eq!(indexes, vec![0, 1, 2]);
}

#[test]
fn component_labels_match_hydrant_legends() {
    assert_eq!(component_label("lecture"), "Lec");
    assert_eq!(component_label("recitation"), "Rec");
    assert_eq!(component_label("lab"), "Lab");
    assert_eq!(component_label("pe"), "PE");
    assert_eq!(component_label("design"), "Design");
    assert_eq!(component_label("seminar"), "Sem");
}

#[test]
fn palette_wraps_only_past_capacity() {
    let ordered = (0..=PALETTE_LEN)
        .map(|index| format!("course-{index}"))
        .collect::<Vec<_>>();
    for (index, course_id) in ordered.iter().enumerate() {
        assert_eq!(course_color_index(course_id, &ordered), index % PALETTE_LEN);
    }
}
