//! Deterministic per-course colors and shared section labels.
//!
//! Colors are assigned by the position of each course in the sorted distinct
//! course list, so every course in a schedule of up to [`PALETTE_LEN`] courses
//! gets a different color.
use vstd::prelude::*;
use crate::model::{ChosenSection, ChosenSectionView};
use crate::order::{distinct_ascending, OrderedSet};
use crate::text::{
    alphanumeric, ascii_lowercase, chars_of, is_alphanumeric, is_whitespace, lowered, same_text,
    text_of, titlecase, titlecase_text, trim, trimmed, whitespace,
};

verus! {

/// Number of distinct course colors before the palette wraps.
pub const PALETTE_LEN: usize = 8;

pub open spec fn course_ids(sections: Seq<ChosenSectionView>) -> Seq<Seq<char>> {
    Seq::new(sections.len(), |i: int| sections[i].course_id)
}

/// Sorted distinct course IDs in a chosen-section list.
pub fn sorted_course_ids(sections: &[ChosenSection]) -> (r: Vec<String>)
    ensures
        r.deep_view() == distinct_ascending::<String>(course_ids(sections.deep_view())),
{
    let ghost ids = course_ids(sections.deep_view());
    let mut out: Vec<String> = Vec::new();
    let mut index: usize = 0;
    assert(out.deep_view() =~= ids.take(0));
    while index < sections.len()
        invariant
            index <= sections@.len(),
            ids == course_ids(sections.deep_view()),
            out.deep_view() == ids.take(index as int),
        decreases sections@.len() - index,
    {
        let ghost so_far = out.deep_view();
        out.push(sections[index].course_id.clone());
        assert(out.deep_view() =~= so_far.push(ids[index as int]));
        assert(out.deep_view() =~= ids.take(index + 1));
        index += 1;
    }
    assert(ids.take(index as int) =~= ids);
    OrderedSet::from_vec(out).into_vec()
}

/// The position of the first occurrence of `x`, the length if there is none.
pub open spec fn position(s: Seq<Seq<char>>, x: Seq<char>) -> int
    decreases s.len(),
{
    if s.len() == 0 || s[0] == x {
        0
    } else {
        1 + position(s.drop_first(), x)
    }
}

/// The color of a course: its position in the list, around the palette; 0 if it is not there.
pub open spec fn color_index(course_id: Seq<char>, ordered: Seq<Seq<char>>) -> int {
    if position(ordered, course_id) < ordered.len() {
        position(ordered, course_id) % PALETTE_LEN as int
    } else {
        0
    }
}

/// Palette index for `course_id` within a precomputed `sorted_course_ids` order.
///
/// Falls back to position 0 for courses missing from the order.
pub fn course_color_index(course_id: &str, ordered_course_ids: &[String]) -> (r: usize)
    ensures
        r == color_index(course_id@, ordered_course_ids.deep_view()),
        r < PALETTE_LEN,
{
    let ghost ids = ordered_course_ids.deep_view();
    let wanted = course_id.to_owned();
    let mut index: usize = 0;
    assert(ids.skip(0) =~= ids);
    while index < ordered_course_ids.len() && ordered_course_ids[index] != wanted
        invariant
            ids == ordered_course_ids.deep_view(),
            wanted@ == course_id@,
            index <= ordered_course_ids@.len(),
            position(ids, course_id@) == index + position(ids.skip(index as int), course_id@),
        decreases ordered_course_ids@.len() - index,
    {
        assert(ids.skip(index as int)[0] == ordered_course_ids@[index as int]@);
        assert(ids.skip(index as int).drop_first() =~= ids.skip(index + 1));
        index += 1;
    }
    if index < ordered_course_ids.len() {
        assert(ids.skip(index as int)[0] == ordered_course_ids@[index as int]@);
        index % PALETTE_LEN
    } else {
        0
    }
}

pub proof fn lemma_position(s: Seq<Seq<char>>, x: Seq<char>)
    ensures
        0 <= position(s, x) <= s.len(),
        position(s, x) < s.len() ==> s[position(s, x)] == x,
        position(s, x) < s.len() <==> s.contains(x),
    decreases s.len(),
{
    if s.len() > 0 && s[0] != x {
        let t = s.drop_first();
        lemma_position(t, x);
        if s.contains(x) {
            let i = choose|i: int| 0 <= i < s.len() && s[i] == x;
            assert(t[i - 1] == x);
        }
        if t.contains(x) {
            let i = choose|i: int| 0 <= i < t.len() && t[i] == x;
            assert(s[i + 1] == x);
        }
    } else if s.len() > 0 {
        assert(s.contains(x));
    }
}

/// Different courses of a schedule with at most as many courses as the palette has colors
/// have different colors.
pub proof fn law_colors_are_distinct(ordered: Seq<Seq<char>>, a: Seq<char>, b: Seq<char>)
    requires
        ordered.len() <= PALETTE_LEN,
        ordered.contains(a),
        ordered.contains(b),
        a != b,
    ensures
        color_index(a, ordered) != color_index(b, ordered),
{
    lemma_position(ordered, a);
    lemma_position(ordered, b);
}

/// The letters and digits of a text.
pub open spec fn collapsed(s: Seq<char>) -> Seq<char> {
    s.filter(|c: char| alphanumeric(c))
}

/// The first characters of a text that are not white space, at most `n`.
pub open spec fn first_visible(s: Seq<char>, n: int) -> Seq<char> {
    let visible = s.filter(|c: char| !whitespace(c));
    if visible.len() <= n {
        visible
    } else {
        visible.take(n)
    }
}

/// The short label of a kind of component.
pub open spec fn label_of(kind: Seq<char>) -> Seq<char> {
    let name = collapsed(lowered(trimmed(kind)));
    if name == "lecture"@ || name == "lec"@ {
        "Lec"@
    } else if name == "recitation"@ || name == "rec"@ {
        "Rec"@
    } else if name == "lab"@ || name == "laboratory"@ {
        "Lab"@
    } else if name == "pe"@ || name == "physicaleducation"@ {
        "PE"@
    } else if name == "design"@ {
        "Design"@
    } else if name.len() == 0 {
        "Other"@
    } else {
        titlecase(first_visible(trimmed(kind), 3))
    }
}

/// Short timetable legend for a section-kind string, e.g. `Lec`, `Rec`, `Lab`.
/// Shared by the TUI grid and ICS event titles so both read like Hydrant.
pub fn component_label(kind: &str) -> (r: String)
    ensures
        r@ == label_of(kind@),
{
    let base = trim(kind);
    let name = collapse(ascii_lowercase(base.as_str()).as_str());
    let name = name.as_str();
    if same_text(name, "lecture") || same_text(name, "lec") {
        "Lec".to_owned()
    } else if same_text(name, "recitation") || same_text(name, "rec") {
        "Rec".to_owned()
    } else if same_text(name, "lab") || same_text(name, "laboratory") {
        "Lab".to_owned()
    } else if same_text(name, "pe") || same_text(name, "physicaleducation") {
        "PE".to_owned()
    } else if same_text(name, "design") {
        "Design".to_owned()
    } else if name.is_empty() {
        "Other".to_owned()
    } else {
        titlecase_text(&visible_start(base.as_str(), 3))
    }
}

fn collapse(s: &str) -> (r: String)
    ensures
        r@ == collapsed(s@),
{
    let ghost pred = |c: char| alphanumeric(c);
    let chars = chars_of(s);
    let mut out: Vec<char> = Vec::new();
    let mut index: usize = 0;
    proof {
        reveal(Seq::filter);
        assert(s@.take(0) =~= Seq::empty());
        assert(out@ =~= s@.take(0).filter(pred));
    }
    while index < chars.len()
        invariant
            chars@ == s@,
            pred == (|c: char| alphanumeric(c)),
            index <= chars@.len(),
            out@ == s@.take(index as int).filter(pred),
        decreases chars@.len() - index,
    {
        proof {
            reveal(Seq::filter);
            assert(s@.take(index + 1).drop_last() =~= s@.take(index as int));
        }
        if is_alphanumeric(chars[index]) {
            out.push(chars[index]);
        }
        index += 1;
    }
    assert(s@.take(index as int) =~= s@);
    text_of(&out)
}

fn visible_start(s: &str, n: usize) -> (r: Vec<char>)
    ensures
        r@ == first_visible(s@, n as int),
{
    let ghost pred = |c: char| !whitespace(c);
    let chars = chars_of(s);
    let mut out: Vec<char> = Vec::new();
    let mut index: usize = 0;
    proof {
        reveal(Seq::filter);
        assert(s@.take(0) =~= Seq::empty());
        assert(out@ =~= s@.take(0).filter(pred));
    }
    while index < chars.len()
        invariant
            chars@ == s@,
            pred == (|c: char| !whitespace(c)),
            index <= chars@.len(),
            out@ == s@.take(index as int).filter(pred),
        decreases chars@.len() - index,
    {
        proof {
            reveal(Seq::filter);
            assert(s@.take(index + 1).drop_last() =~= s@.take(index as int));
        }
        if !is_whitespace(chars[index]) {
            out.push(chars[index]);
        }
        index += 1;
    }
    assert(s@.take(index as int) =~= s@);
    if out.len() > n {
        out.truncate(n);
    }
    out
}

} // verus!
