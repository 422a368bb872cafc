use hydrant_optimizer::calendar;
use hydrant_optimizer::date::Date;
use hydrant_optimizer::model::{
    ChosenSection, Meeting, Requirement, SectionOption, SolveStatus, Source, TermCalendar,
};
use hydrant_optimizer::optimizer;
use hydrant_optimizer::order::{OrderedMap, OrderedSet};
use std::cell::Cell;
use std::sync::atomic::AtomicBool;

fn meeting(weekday: u8, start_minute: u16, end_minute: u16) -> Meeting {
    Meeting {
        weekday,
        start_minute,
        end_minute,
        start_date: None,
        end_date: None,
    }
}

fn option(id: &str, meetings: &[Meeting], excluded: &[&str]) -> SectionOption {
    SectionOption {
        id: id.to_string(),
        label: id.to_string(),
        room: format!("Room {id}"),
        source: Source::Manual,
        meetings: meetings.to_vec(),
        incompatible_with: OrderedSet::from_vec(excluded.iter().map(|s| s.to_string()).collect()),
        unsupported_reason: None,
    }
}

fn requirement(id: &str, options: Vec<SectionOption>) -> Requirement {
    Requirement {
        id: id.to_string(),
        kind: "lecture".to_string(),
        options,
        has_unknown_times: false,
    }
}

fn small() -> Vec<Requirement> {
    vec![
        requirement(
            "A",
            vec![
                option("a2", &[meeting(0, 540, 600)], &[]),
                option("a1", &[meeting(0, 540, 600)], &[]),
                option("a3", &[meeting(1, 540, 600)], &[]),
            ],
        ),
        requirement("B", vec![option("b1", &[meeting(0, 600, 660)], &[])]),
    ]
}

fn calendar() -> TermCalendar {
    TermCalendar {
        start: Date::from_ymd(2026, 10, 26).unwrap(),
        end: Date::from_ymd(2026, 11, 9).unwrap(),
        holidays: OrderedSet::new(),
        alternate_days: OrderedMap::new(),
    }
}

#[test]
fn a_set_flag_stops_every_search_and_a_clear_one_none() {
    let set = AtomicBool::new(true);
    let clear = AtomicBool::new(false);
    let invalid = vec![requirement("", Vec::new())];
    for requirements in [small(), invalid.clone(), Vec::new()] {
        let stopped = optimizer::solve(&requirements, Some(&set)).unwrap();
        assert_eq!(stopped.status, SolveStatus::Cancelled);
        assert!(stopped.choices.is_empty() && stopped.unresolved.is_empty());
        assert_eq!(stopped.score, None);
        let again = optimizer::solve_with_calendar(&requirements, &calendar(), Some(&set)).unwrap();
        assert_eq!(again, stopped);
    }
    assert!(optimizer::solve(&invalid, Some(&clear)).is_err());
    let full = optimizer::solve(&small(), None).unwrap();
    assert_eq!(full.status, SolveStatus::OptimalKnown);
    assert_eq!(optimizer::solve(&small(), Some(&clear)).unwrap(), full);
}

#[test]
fn a_search_ends_when_it_is_told_to_stop() {
    let full = optimizer::solve_until(&small(), None, || false).unwrap();
    assert_eq!(full, optimizer::solve(&small(), None).unwrap());
    let none = optimizer::solve_until(&small(), None, || true).unwrap();
    assert_eq!(none.status, SolveStatus::Cancelled);
    let mut stops = 0;
    for patience in 0..40 {
        let asked = Cell::new(0);
        let answer = optimizer::solve_until(&small(), None, || {
            asked.set(asked.get() + 1);
            asked.get() > patience
        })
        .unwrap();
        if asked.get() > patience {
            stops += 1;
            assert_eq!(answer.status, SolveStatus::Cancelled);
            assert_eq!(answer.score, None);
            assert!(answer.alternatives.is_empty());
        } else {
            assert_eq!(answer, full);
        }
    }
    assert!(stops > 3 && stops < 40);
}

#[test]
fn a_reordered_list_is_answered_alike() {
    let first = optimizer::solve(&small(), None).unwrap();
    let mut requirements = small();
    requirements.reverse();
    for requirement in &mut requirements {
        requirement.options.reverse();
    }
    assert_eq!(optimizer::solve(&requirements, None).unwrap(), first);
    assert_eq!(first.choices[0].members.len(), 2);
    assert_eq!(first.choices[0].id, "a1");
}

#[test]
fn sections_with_different_exclusions_are_not_merged() {
    let at_nine = [meeting(0, 540, 600)];
    let at_ten = [meeting(0, 600, 660)];
    let requirements = vec![
        requirement(
            "A",
            vec![option("a1", &at_nine, &["b1"]), option("a2", &at_nine, &["b2"])],
        ),
        requirement(
            "B",
            vec![option("b1", &at_ten, &[]), option("b2", &at_ten, &["a2"])],
        ),
    ];
    let solution = optimizer::solve(&requirements, None).unwrap();
    assert_eq!(solution.status, SolveStatus::OptimalKnown);
    let listed: Vec<Vec<&str>> = solution
        .alternatives
        .iter()
        .map(|choices| choices.iter().map(|choice| choice.id.as_str()).collect())
        .collect();
    assert_eq!(listed, [["a1", "b2"], ["a2", "b1"]]);
}

#[test]
fn a_timetable_is_infeasible_only_if_no_sections_go_together() {
    let at_nine = [meeting(0, 540, 600)];
    let at_ten = [meeting(0, 600, 660)];
    let mut requirements = vec![
        requirement("A", vec![option("a1", &at_nine, &["b1"])]),
        requirement("B", vec![option("b1", &at_ten, &[]), option("b2", &at_nine, &[])]),
        requirement("C", Vec::new()),
    ];
    let refused = optimizer::solve(&requirements, None).unwrap();
    assert_eq!(refused.status, SolveStatus::Infeasible);
    requirements[0].options.push(option("a2", &at_nine, &[]));
    let found = optimizer::solve(&requirements, None).unwrap();
    assert_eq!(found.status, SolveStatus::OptimalKnown);
    assert_eq!(found.choices[0].id, "a2");
    assert_eq!(found.choices[1].id, "b1");
    assert_eq!(found.choices.len(), 2);
}

#[test]
fn a_solution_mentions_physical_education_only_if_it_has_chosen_some() {
    let notice = "selected bounded PE meetings";
    let plain = optimizer::solve(&small(), None).unwrap();
    assert!(!plain.unresolved.iter().any(|text| text.contains(notice)));
    let mut requirements = small();
    let mut bounded = meeting(4, 540, 600);
    bounded.start_date = Date::from_ymd(2026, 10, 26);
    bounded.end_date = Date::from_ymd(2026, 10, 30);
    requirements.push(Requirement {
        kind: "pe".to_string(),
        ..requirement("PE", vec![option("pe1", &[bounded], &[])])
    });
    let found = optimizer::solve(&requirements, None).unwrap();
    assert_eq!(found.choices.len(), 3);
    assert!(found.unresolved.iter().any(|text| text.contains(notice)));
    // Without a timetable nothing is chosen, and nothing is said of it.
    requirements.push(requirement("C", vec![option("c1", &[meeting(0, 600, 660)], &[])]));
    let refused = optimizer::solve(&requirements, None).unwrap();
    assert_eq!(refused.status, SolveStatus::Infeasible);
    assert!(refused.unresolved.is_empty());
}

#[test]
fn left_out_timetables_are_mentioned_only_if_there_are_some() {
    let notice = "only the first 1000 equally optimal timetables are listed; the others are omitted";
    for (count, left_out) in [(999, false), (1000, false), (1001, true)] {
        let options = (0..count)
            .map(|n| option(&format!("o{n:04}"), &[meeting(0, n, n + 1)], &[]))
            .collect();
        let solution = optimizer::solve(&[requirement("A", options)], None).unwrap();
        assert_eq!(solution.alternatives_truncated, left_out);
        assert_eq!(solution.alternatives.len(), usize::from(count.min(1000)));
        assert_eq!(solution.unresolved.contains(&notice.to_string()), left_out);
    }
}

#[test]
fn sections_in_two_versions_keep_the_number_of_events() {
    let chosen = |room: &str| ChosenSection {
        course_id: "A".to_string(),
        course_title: "Algorithms".to_string(),
        kind: "lecture".to_string(),
        section: SectionOption {
            room: room.to_string(),
            ..option("a1", &[meeting(0, 540, 600)], &[])
        },
    };
    let first = calendar::export_ics(&calendar(), &[chosen("x"), chosen("y")]).unwrap();
    let second = calendar::export_ics(&calendar(), &[chosen("y"), chosen("x")]).unwrap();
    assert_eq!((first.event_count, second.event_count), (3, 3));
    assert_eq!(first.notices, second.notices);
    assert_ne!(first.ics, second.ics);
}

#[test]
fn the_order_of_exported_sections_changes_nothing() {
    let section = |course: &str, id: &str, meetings: &[Meeting]| ChosenSection {
        course_id: course.to_string(),
        course_title: format!("Course {course}"),
        kind: "lecture".to_string(),
        section: option(id, meetings, &[]),
    };
    let a = section("A", "a1", &[meeting(0, 540, 600), meeting(2, 540, 600)]);
    let b = section("B", "b1", &[meeting(0, 540, 600)]);
    let none = section("C", "c1", &[]);
    let first =
        calendar::export_ics(&calendar(), &[a.clone(), b.clone(), none.clone()]).unwrap();
    let second =
        calendar::export_ics(&calendar(), &[none, b.clone(), a.clone(), b, a]).unwrap();
    assert_eq!(first.event_count, 8);
    assert_eq!(first.ics, second.ics);
    assert_eq!(first.event_count, second.event_count);
    assert_eq!(first.notices, second.notices);
    assert_eq!(first.notices.len(), 1);
}
