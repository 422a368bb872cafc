//! What the panes of the terminal interface list.
use vstd::prelude::*;
use crate::laws::catalog::lemma_pushed;
use crate::model::{CourseView, DatasetView, ManualEntryView, ManualStoreView};
use crate::order::{ascending, keys_of, lemma_set_insert, lookup, set_insert};
use crate::session::selection_of;
use crate::tui::state::{
    course_matches, courses_matching, entries_of_term, resolved, resolved_all, restored,
    AppStateView, RestoreView,
};
use crate::tui::timetable::{first_of_day, move_to_day, other_day, Block};
use crate::tui::view::{entry_line, manual_panel, selected_panel, subject_line, subjects_panel};
use crate::tui::week::{display_width, fit_text, fitted_from};
use crate::tui::Area;

verus! {

/// The list of subjects has a line for each subject that is found: whether it is selected, its
/// number, and its title.
pub proof fn law_subjects_are_listed_with_marks(s: AppStateView, area: Area, k: int)
    requires
        0 <= k < s.filtered.len(),
    ensures
        ({
            let lines = subjects_panel(s, area).lines;
            let id = s.filtered[k];
            &&& lines.len() == s.filtered.len()
            &&& lines[k].len() == 3
            &&& s.selected.contains(id) ==> lines[k][0].content == "[x] "@
            &&& !s.selected.contains(id) ==> lines[k][0].content == "[ ] "@
            &&& lines[k][1].content.len() > id.len()
            &&& lines[k][1].content.take(id.len() as int) == id
            &&& lookup(s.base.courses, id) is Some ==> lines[k][2].content == lookup(
                s.base.courses,
                id,
            )->0.title
        }),
{
    let lines = subjects_panel(s, area).lines;
    let id = s.filtered[k];
    reveal_strlit(" ");
    assert(lines[k] == subject_line(s, id));
    assert(lines[k][1].content.take(id.len() as int) =~= id);
}

/// The list of selected classes has a line for each of them: its number and its title.
pub proof fn law_selected_classes_are_listed(s: AppStateView, area: Area, k: int)
    requires
        0 <= k < s.selected.len(),
    ensures
        ({
            let lines = selected_panel(s, area).lines;
            let id = s.selected[k];
            &&& lines.len() == s.selected.len()
            &&& lines[k][0].content.len() == id.len() + 1
            &&& lines[k][0].content.take(id.len() as int) == id
            &&& lookup(s.base.courses, id) is Some ==> lines[k][1].content == lookup(
                s.base.courses,
                id,
            )->0.title
        }),
{
    reveal_strlit(" ");
    let lines = selected_panel(s, area).lines;
    assert(lines[k][0].content.take(s.selected[k].len() as int) =~= s.selected[k]);
}

proof fn lemma_entries_of_term(entries: Seq<ManualEntryView>, term_id: Seq<char>, k: int)
    requires
        0 <= k < entries.len(),
    ensures
        entries_of_term(entries, term_id).contains(k) <==> entries[k].term_id == term_id,
    decreases entries.len(),
{
    let rest = entries.drop_last();
    let known = entries_of_term(rest, term_id);
    let at = entries.len() - 1;
    lemma_pushed(known, at, k);
    lemma_positions(rest, term_id);
    if k < at {
        lemma_entries_of_term(rest, term_id, k);
        assert(rest[k] == entries[k]);
    } else if known.contains(k) {
        let i = choose|i: int| 0 <= i < known.len() && known[i] == k;
        assert(known[i] < at);
    }
}

proof fn lemma_positions(entries: Seq<ManualEntryView>, term_id: Seq<char>)
    ensures
        forall|i: int|
            0 <= i < entries_of_term(entries, term_id).len() ==> 0 <= #[trigger] entries_of_term(
                entries,
                term_id,
            )[i] < entries.len(),
    decreases entries.len(),
{
    if entries.len() > 0 {
        let rest = entries_of_term(entries.drop_last(), term_id);
        lemma_positions(entries.drop_last(), term_id);
        let all = entries_of_term(entries, term_id);
        assert(forall|i: int| 0 <= i < rest.len() ==> #[trigger] all[i] == rest[i]);
    }
}

/// The manual sections that are listed are those of the term.
pub proof fn law_manual_sections_of_the_term_are_listed(s: AppStateView, area: Area, k: int)
    requires
        0 <= k < s.manual.entries.len(),
    ensures
        s.manual.entries[k].term_id == s.base.term_id ==> manual_panel(s, area).lines.contains(
            entry_line(s.manual.entries[k]),
        ),
        entries_of_term(s.manual.entries, s.base.term_id).contains(k)
            <==> s.manual.entries[k].term_id == s.base.term_id,
        manual_panel(s, area).lines.len() == entries_of_term(
            s.manual.entries,
            s.base.term_id,
        ).len(),
{
    let visible = entries_of_term(s.manual.entries, s.base.term_id);
    lemma_entries_of_term(s.manual.entries, s.base.term_id, k);
    if visible.contains(k) {
        let i = choose|i: int| 0 <= i < visible.len() && visible[i] == k;
        assert(manual_panel(s, area).lines[i] == entry_line(s.manual.entries[k]));
    }
}

/// The line of a manual section says whether it is on.
pub proof fn law_manual_lines_begin_with_on_or_off(entry: ManualEntryView)
    ensures
        entry.enabled ==> entry_line(entry)[0].content.take(5) == "[on] "@,
        !entry.enabled ==> entry_line(entry)[0].content.take(6) == "[off] "@,
{
    reveal_strlit("[on] ");
    reveal_strlit("[off] ");
    reveal_strlit("[");
    reveal_strlit("on");
    reveal_strlit("off");
    reveal_strlit("] ");
    let text = entry_line(entry)[0].content;
    if entry.enabled {
        assert(text.take(5) =~= "[on] "@);
    } else {
        assert(text.take(6) =~= "[off] "@);
    }
}

/// A search for nothing lists all subjects.
pub proof fn law_empty_search_lists_all(courses: Seq<(Seq<char>, CourseView)>)
    ensures
        courses_matching(courses, Seq::empty()) == keys_of(courses),
    decreases courses.len(),
{
    if courses.len() > 0 {
        let rest = courses.drop_last();
        law_empty_search_lists_all(rest);
        assert(course_matches(Seq::empty(), courses.last().0, courses.last().1.title));
        assert(keys_of(courses) =~= keys_of(rest).push(courses.last().0));
    } else {
        assert(keys_of(courses) =~= Seq::empty());
    }
}

/// A course is meant by one of the subjects that are asked for.
pub open spec fn is_meant(
    courses: Seq<(Seq<char>, CourseView)>,
    wanted: Seq<Seq<char>>,
    id: Seq<char>,
) -> bool {
    exists|k: int| 0 <= k < wanted.len() && resolved(courses, #[trigger] wanted[k]) == Some(id)
}

proof fn lemma_resolved_all(
    courses: Seq<(Seq<char>, CourseView)>,
    wanted: Seq<Seq<char>>,
    id: Seq<char>,
)
    ensures
        ascending::<String>(resolved_all(courses, wanted).0),
        resolved_all(courses, wanted).0.contains(id) <==> is_meant(courses, wanted, id),
        resolved_all(courses, wanted).1.contains(id) <==> exists|k: int|
            0 <= k < wanted.len() && #[trigger] wanted[k] == id && resolved(courses, id) is None,
    decreases wanted.len(),
{
    if wanted.len() > 0 {
        let rest = wanted.drop_last();
        let last = wanted.last();
        let at = wanted.len() - 1;
        let (selected, unknown) = resolved_all(courses, rest);
        lemma_resolved_all(courses, rest, id);
        assert(wanted[at] == last);
        assert(forall|k: int| 0 <= k < rest.len() ==> #[trigger] rest[k] == wanted[k]);
        lemma_pushed(unknown, last, id);
        if resolved(courses, last) is Some {
            let own = resolved(courses, last)->0;
            lemma_set_insert::<String>(selected, own);
            assert(set_insert::<String>(selected, own).contains(id) <==> selected.contains(id) || id
                == own);
        }
        if exists|k: int| 0 <= k < rest.len() && resolved(courses, #[trigger] rest[k]) == Some(id) {
            let k = choose|k: int|
                0 <= k < rest.len() && resolved(courses, #[trigger] rest[k]) == Some(id);
            assert(resolved(courses, wanted[k]) == Some(id));
        }
        if exists|k: int|
            0 <= k < wanted.len() && resolved(courses, #[trigger] wanted[k]) == Some(id) {
            let k = choose|k: int|
                0 <= k < wanted.len() && resolved(courses, #[trigger] wanted[k]) == Some(id);
            if k < at {
                assert(resolved(courses, rest[k]) == Some(id));
            }
        }
        if exists|k: int|
            0 <= k < rest.len() && #[trigger] rest[k] == id && resolved(courses, id) is None {
            let k = choose|k: int|
                0 <= k < rest.len() && #[trigger] rest[k] == id && resolved(courses, id) is None;
            assert(wanted[k] == id);
        }
        if exists|k: int|
            0 <= k < wanted.len() && #[trigger] wanted[k] == id && resolved(courses, id) is None {
            let k = choose|k: int|
                0 <= k < wanted.len() && #[trigger] wanted[k] == id && resolved(
                    courses,
                    id,
                ) is None;
            if k < at {
                assert(rest[k] == id);
            }
        }
    }
}

/// At the start the subjects are selected that are asked for; where none are, those that are stored
/// for the term. Each is found by its number, whatever its case.
pub proof fn law_asked_or_stored_subjects_are_selected(
    base: DatasetView,
    manual: ManualStoreView,
    data_dir: Seq<char>,
    output: Seq<char>,
    initial: Seq<Seq<char>>,
    restore: RestoreView,
    id: Seq<char>,
)
    requires
        restored(base, manual, data_dir, output, initial, restore) is Ok,
    ensures
        ({
            let state = restored(base, manual, data_dir, output, initial, restore)->Ok_0;
            let stored = match restore {
                RestoreView::Opened(session) => selection_of(session.sessions, base.term_id),
                _ => None,
            };
            let wanted = if initial.len() > 0 {
                initial
            } else if stored is Some {
                stored->0
            } else {
                Seq::empty()
            };
            &&& state.selected.contains(id) <==> is_meant(base.courses, wanted, id)
            &&& state.base == base
            &&& state.manual == manual
            &&& state.solution is None
            &&& state.selection_session is Some <==> restore is Opened
        }),
{
    lemma_resolved_all(base.courses, initial, id);
    match restore {
        RestoreView::Opened(session) => {
            match selection_of(session.sessions, base.term_id) {
                Some(ids) => lemma_resolved_all(base.courses, ids, id),
                None => {},
            }
        },
        _ => {},
    }
    lemma_resolved_all(base.courses, Seq::empty(), id);
    assert(initial.len() == 0 ==> initial =~= Seq::empty());
}

proof fn lemma_fitted(text: Seq<char>, n: int, width: int)
    requires
        0 <= n <= text.len(),
    ensures
        ({
            let shown = fitted_from(text, n, width);
            &&& n <= shown.len() <= text.len()
            &&& shown == text.take(shown.len() as int)
            &&& shown.len() < text.len() ==> display_width(
                text.take(shown.len() as int + 1),
            ) > width
        }),
    decreases text.len() - n,
{
    if n < text.len() && display_width(text.take(n + 1)) <= width {
        lemma_fitted(text, n + 1, width);
    }
}

/// A text is cut at its end, and only where one more character would be too wide.
pub proof fn law_texts_are_cut_where_they_must(text: &str, width: usize, r: String)
    requires
        call_ensures(fit_text, (text, width), r),
    ensures
        r@.len() <= text@.len(),
        r@ == text@.take(r@.len() as int),
        display_width(r@) <= width,
        r@.len() < text@.len() ==> display_width(text@.take(r@.len() as int + 1)) > width,
{
    lemma_fitted(text@, 0, width as int);
}

proof fn lemma_first_of_day(blocks: Seq<Block>, day: int)
    ensures
        ({
            let at = first_of_day(blocks, day);
            &&& 0 <= at <= blocks.len()
            &&& at < blocks.len() ==> blocks[at].weekday == day
            &&& forall|i: int| 0 <= i < at ==> (#[trigger] blocks[i]).weekday != day
        }),
    decreases blocks.len(),
{
    if blocks.len() > 0 && blocks[0].weekday != day {
        let rest = blocks.drop_first();
        lemma_first_of_day(rest, day);
        let at = first_of_day(blocks, day);
        assert forall|i: int| 0 <= i < at implies (#[trigger] blocks[i]).weekday != day by {
            if i > 0 {
                assert(rest[i - 1] == blocks[i]);
            }
        }
    }
}

/// A day that comes a number of days after or before another, around the five working days.
pub open spec fn days_on(day: int, back: bool, steps: int) -> int {
    if back {
        (day + 4 * steps) % 5
    } else {
        (day + steps) % 5
    }
}

/// Some block is on a day.
pub open spec fn has_day(blocks: Seq<Block>, day: int) -> bool {
    exists|i: int| 0 <= i < blocks.len() && (#[trigger] blocks[i]).weekday == day
}

/// A place is the first block of the nearest day from a day on that has one.
pub open spec fn leads(blocks: Seq<Block>, day: int, back: bool, r: int) -> bool {
    exists|n: int|
        {
            &&& 1 <= n <= 5
            &&& 0 <= r < blocks.len()
            &&& blocks[r].weekday == #[trigger] days_on(day, back, n)
            &&& forall|i: int| 0 <= i < r ==> (#[trigger] blocks[i]).weekday != blocks[r].weekday
            &&& forall|m: int| 1 <= m < n ==> !has_day(blocks, #[trigger] days_on(day, back, m))
        }
}

proof fn lemma_other_day(blocks: Seq<Block>, at: int, day: int, back: bool, done: int)
    requires
        0 <= day < 5,
        0 <= done < 5,
        0 <= at < blocks.len(),
        blocks[at].weekday == day,
        forall|n: int| 1 <= n <= done ==> !has_day(blocks, #[trigger] days_on(day, back, n)),
    ensures
        leads(blocks, day, back, other_day(blocks, at, days_on(day, back, done), back, 5 - done)),
    decreases 5 - done,
{
    let here = days_on(day, back, done);
    let next = (if back {
        here + 4
    } else {
        here + 1
    }) % 5;
    assert(next == days_on(day, back, done + 1));
    lemma_first_of_day(blocks, next);
    let found = first_of_day(blocks, next);
    if found >= blocks.len() {
        assert(!has_day(blocks, next));
        if done == 4 {
            assert(days_on(day, back, 5) == day);
            assert(has_day(blocks, day));
        } else {
            assert forall|n: int| 1 <= n <= done + 1 implies !has_day(
                blocks,
                #[trigger] days_on(day, back, n),
            ) by {
                if n == done + 1 {
                    assert(days_on(day, back, n) == next);
                }
            }
            lemma_other_day(blocks, at, day, back, done + 1);
        }
    } else {
        assert(blocks[found].weekday == days_on(day, back, done + 1));
    }
}

/// A move to another day leads to the first block of the nearest day that has one, in the direction
/// of the move and around the week.
pub proof fn law_moves_lead_to_the_nearest_day(
    blocks: &Vec<Block>,
    at: usize,
    back: bool,
    r: usize,
)
    requires
        call_ensures(move_to_day, (blocks, at, back), r),
        at < blocks@.len(),
        blocks@[at as int].weekday < 5,
    ensures
        leads(blocks@, blocks@[at as int].weekday as int, back, r as int),
{
    let day = blocks@[at as int].weekday as int;
    assert(days_on(day, back, 0) == day);
    lemma_other_day(blocks@, at as int, day, back, 0);
}

} // verus!
