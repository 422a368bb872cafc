//! What the table of a week shows.
use vstd::prelude::*;
use crate::color::course_ids;
use crate::determinism::lemma_sum_contains;
use crate::laws::catalog::lemma_pushed;
use crate::laws::timetable::{number_of, under_way};
use crate::model::{ChosenSectionView, Meeting};
use crate::optimizer::lemma_sorted_elements;
use crate::order::{distinct_ascending, lemma_filtered};
use crate::tui::week::{
    all_entries, day_cell, day_cells, entry_for, entry_le, focused_entries, plain, row,
    section_entries, showable, table_entries, touching, wanted_requirement, week_table,
    weekend_count, weekend_meetings, EntryView, SpanView,
};

verus! {

/// A meeting of a section is under way in some minute of a half hour of a day.
pub open spec fn taken(sections: Seq<ChosenSectionView>, day: int, half: int) -> bool {
    exists|i: int, k: int, minute: int|
        #![trigger shows_at(sections, i, k, day, minute), within_half(minute, half)]
        shows_at(sections, i, k, day, minute) && within_half(minute, half)
}

/// A minute belongs to a half hour of the day.
pub open spec fn within_half(minute: int, half: int) -> bool {
    30 * half <= minute < 30 * half + 30
}

/// A meeting of a section, within one day, is under way at a minute.
pub open spec fn shows_at(
    sections: Seq<ChosenSectionView>,
    i: int,
    k: int,
    day: int,
    minute: int,
) -> bool {
    &&& 0 <= i < sections.len()
    &&& 0 <= k < sections[i].section.meetings.len()
    &&& under_way(sections[i].section.meetings[k], day, minute)
    &&& sections[i].section.meetings[k].end_minute <= 1440
}

proof fn lemma_section_entries(
    section: ChosenSectionView,
    meetings: Seq<Meeting>,
    selected: Option<Seq<char>>,
    ordered: Seq<Seq<char>>,
    entry: EntryView,
)
    ensures
        section_entries(section, meetings, selected, ordered).contains(entry) <==> exists|k: int|
            0 <= k < meetings.len() && showable(#[trigger] meetings[k]) && meetings[k].weekday < 5
                && entry == entry_for(section, meetings[k], selected, ordered),
    decreases meetings.len(),
{
    if meetings.len() > 0 {
        let rest = meetings.drop_last();
        let m = meetings.last();
        let at = meetings.len() - 1;
        let known = section_entries(section, rest, selected, ordered);
        let own = entry_for(section, m, selected, ordered);
        lemma_section_entries(section, rest, selected, ordered, entry);
        lemma_pushed(known, own, entry);
        assert(meetings[at] == m);
        assert(forall|k: int| 0 <= k < rest.len() ==> #[trigger] rest[k] == meetings[k]);
        if known.contains(entry) {
            let k = choose|k: int|
                0 <= k < rest.len() && showable(#[trigger] rest[k]) && rest[k].weekday < 5 && entry
                    == entry_for(section, rest[k], selected, ordered);
            assert(showable(meetings[k]));
        }
        if exists|k: int|
            0 <= k < meetings.len() && showable(#[trigger] meetings[k]) && meetings[k].weekday < 5
                && entry == entry_for(section, meetings[k], selected, ordered) {
            let k = choose|k: int|
                0 <= k < meetings.len() && showable(#[trigger] meetings[k]) && meetings[k].weekday
                    < 5 && entry == entry_for(section, meetings[k], selected, ordered);
            if k < at {
                assert(showable(rest[k]));
            }
        }
    }
}

/// An entry of the table is that of a meeting of a section on a working day.
pub open spec fn is_entry(
    sections: Seq<ChosenSectionView>,
    selected: Option<Seq<char>>,
    ordered: Seq<Seq<char>>,
    entry: EntryView,
) -> bool {
    exists|i: int, k: int|
        0 <= i < sections.len() && 0 <= k < sections[i].section.meetings.len() && showable(
            #[trigger] sections[i].section.meetings[k],
        ) && sections[i].section.meetings[k].weekday < 5 && entry == entry_for(
            sections[i],
            sections[i].section.meetings[k],
            selected,
            ordered,
        )
}

proof fn lemma_all_entries(
    sections: Seq<ChosenSectionView>,
    selected: Option<Seq<char>>,
    ordered: Seq<Seq<char>>,
    entry: EntryView,
)
    ensures
        all_entries(sections, selected, ordered).contains(entry) <==> is_entry(
            sections,
            selected,
            ordered,
            entry,
        ),
    decreases sections.len(),
{
    if sections.len() > 0 {
        let rest = sections.drop_last();
        let last = sections.last();
        let at = sections.len() - 1;
        let meetings = last.section.meetings;
        lemma_all_entries(rest, selected, ordered, entry);
        lemma_section_entries(last, meetings, selected, ordered, entry);
        lemma_sum_contains(
            all_entries(rest, selected, ordered),
            section_entries(last, meetings, selected, ordered),
            entry,
        );
        assert(sections[at] == last);
        assert(forall|i: int| 0 <= i < rest.len() ==> #[trigger] rest[i] == sections[i]);
        if is_entry(rest, selected, ordered, entry) {
            let (i, k) = choose|i: int, k: int|
                0 <= i < rest.len() && 0 <= k < rest[i].section.meetings.len() && showable(
                    #[trigger] rest[i].section.meetings[k],
                ) && rest[i].section.meetings[k].weekday < 5 && entry == entry_for(
                    rest[i],
                    rest[i].section.meetings[k],
                    selected,
                    ordered,
                );
            assert(showable(sections[i].section.meetings[k]));
        }
        if section_entries(last, meetings, selected, ordered).contains(entry) {
            let k = choose|k: int|
                0 <= k < meetings.len() && showable(#[trigger] meetings[k]) && meetings[k].weekday
                    < 5 && entry == entry_for(last, meetings[k], selected, ordered);
            assert(showable(sections[at].section.meetings[k]));
        }
        if is_entry(sections, selected, ordered, entry) {
            let (i, k) = choose|i: int, k: int|
                0 <= i < sections.len() && 0 <= k < sections[i].section.meetings.len() && showable(
                    #[trigger] sections[i].section.meetings[k],
                ) && sections[i].section.meetings[k].weekday < 5 && entry == entry_for(
                    sections[i],
                    sections[i].section.meetings[k],
                    selected,
                    ordered,
                );
            if i < at {
                assert(showable(rest[i].section.meetings[k]));
            } else {
                assert(showable(meetings[k]));
            }
        }
    }
}

/// The entries of the table with the block picked out have the same times.
proof fn lemma_shown_entries(
    sections: Seq<ChosenSectionView>,
    selected: Option<Seq<char>>,
    block: Option<(u8, u16, u16)>,
    day: int,
    half: int,
)
    requires
        0 <= day < 5,
        0 <= half < 48,
    ensures
        focused_entries(table_entries(sections, selected), block).filter(
            touching(day, 30 * half, 30 * half + 30),
        ).len() > 0 <==> taken(sections, day, half),
{
    let wanted = wanted_requirement(selected);
    let ordered = distinct_ascending::<String>(course_ids(sections));
    let all = all_entries(sections, wanted, ordered);
    let sorted = table_entries(sections, selected);
    let shown = focused_entries(sorted, block);
    let pick = touching(day, 30 * half, 30 * half + 30);
    let found = shown.filter(pick);
    lemma_sorted_elements(all, entry_le());
    assert(shown.len() == sorted.len());
    assert forall|j: int| 0 <= j < sorted.len() implies (#[trigger] shown[j]).day == sorted[j].day
        && shown[j].start == sorted[j].start && shown[j].end == sorted[j].end by {}
    if found.len() > 0 {
        let entry = found[0];
        assert(found.contains(entry));
        lemma_filtered(shown, pick, entry);
        let j = choose|j: int| 0 <= j < shown.len() && shown[j] == entry;
        assert(sorted.contains(sorted[j]));
        assert(all.contains(sorted[j]));
        lemma_all_entries(sections, wanted, ordered, sorted[j]);
        let (i, k) = choose|i: int, k: int|
            0 <= i < sections.len() && 0 <= k < sections[i].section.meetings.len() && showable(
                #[trigger] sections[i].section.meetings[k],
            ) && sections[i].section.meetings[k].weekday < 5 && sorted[j] == entry_for(
                sections[i],
                sections[i].section.meetings[k],
                wanted,
                ordered,
            );
        let m = sections[i].section.meetings[k];
        let minute = if m.start_minute >= 30 * half {
            m.start_minute as int
        } else {
            30 * half
        };
        assert(shows_at(sections, i, k, day, minute) && within_half(minute, half));
    }
    if taken(sections, day, half) {
        let (i, k, minute) = choose|i: int, k: int, minute: int|
            #![trigger shows_at(sections, i, k, day, minute), within_half(minute, half)]
            shows_at(sections, i, k, day, minute) && within_half(minute, half);
        let m = sections[i].section.meetings[k];
        let entry = entry_for(sections[i], m, wanted, ordered);
        assert(showable(sections[i].section.meetings[k]));
        lemma_all_entries(sections, wanted, ordered, entry);
        assert(sorted.contains(entry));
        let j = choose|j: int| 0 <= j < sorted.len() && sorted[j] == entry;
        let seen = shown[j];
        assert(shown.contains(seen));
        lemma_filtered(shown, pick, seen);
        assert(found.contains(seen));
    }
}

/// A half hour of a day has its own line and its own column.
pub open spec fn cell_at(lines: Seq<Seq<SpanView>>, day: int, half: int) -> SpanView {
    lines[3 + half][3 + 2 * day]
}

proof fn lemma_day_cells(entries: Seq<EntryView>, from: int, width: int, days: int, day: int)
    requires
        0 <= day < days,
    ensures
        day_cells(entries, from, width, days).len() == 2 * days,
        day_cells(entries, from, width, days)[2 * day] == day_cell(
            entries,
            day,
            from,
            crate::tui::week::column_width(width, day),
        ),
    decreases days,
{
    lemma_cells_len(entries, from, width, days);
    lemma_cells_len(entries, from, width, days - 1);
    if day < days - 1 {
        lemma_day_cells(entries, from, width, days - 1, day);
    }
}

proof fn lemma_cells_len(entries: Seq<EntryView>, from: int, width: int, days: int)
    requires
        0 <= days,
    ensures
        day_cells(entries, from, width, days).len() == 2 * days,
    decreases days,
{
    if days > 0 {
        lemma_cells_len(entries, from, width, days - 1);
    }
}

/// The table of a week that is wide enough marks just the half hours of the working days in which a
/// meeting of the sections is under way; all others are blank.
pub proof fn law_table_marks_what_is_taken(
    sections: Seq<ChosenSectionView>,
    width: int,
    selected: Option<Seq<char>>,
    block: Option<(u8, u16, u16)>,
    day: int,
    half: int,
)
    requires
        width >= 37,
        0 <= day < 5,
        0 <= half < 48,
    ensures
        ({
            let lines = week_table(sections, width, selected, block);
            &&& lines.len() >= 52
            &&& cell_at(lines, day, half).style.bold <==> taken(sections, day, half)
            &&& !taken(sections, day, half) ==> cell_at(lines, day, half).style == plain()
        }),
{
    let entries = focused_entries(table_entries(sections, selected), block);
    let lines = week_table(sections, width, selected, block);
    let from = 30 * half;
    lemma_shown_entries(sections, selected, block, day, half);
    lemma_day_cells(entries, from, width, 5, day);
    assert(lines[3 + half] == row(entries, from, width));
    assert(row(entries, from, width)[3 + 2 * day] == day_cells(entries, from, width, 5)[2 * day]);
}

/// A meeting on a weekend.
pub open spec fn on_weekend(meetings: Seq<Meeting>) -> spec_fn(int) -> bool {
    |k: int| showable(meetings[k]) && meetings[k].weekday >= 5
}

proof fn lemma_weekend(meetings: Seq<Meeting>, n: int)
    requires
        0 <= n <= meetings.len(),
    ensures
        weekend_meetings(meetings.take(n)) == number_of(on_weekend(meetings), n),
    decreases n,
{
    if n > 0 {
        lemma_weekend(meetings, n - 1);
        assert(meetings.take(n).drop_last() =~= meetings.take(n - 1));
        assert(meetings.take(n).last() == meetings[n - 1]);
    }
}

/// The meetings that the table leaves out are counted one by one: those of each section on the two
/// days of the weekend.
pub proof fn law_weekend_meetings_are_counted(meetings: Seq<Meeting>)
    ensures
        weekend_meetings(meetings) == number_of(on_weekend(meetings), meetings.len() as int),
{
    lemma_weekend(meetings, meetings.len() as int);
    assert(meetings.take(meetings.len() as int) =~= meetings);
}

/// The table ends with a line on the weekend exactly if some meeting is left out.
pub proof fn law_weekend_is_disclosed(
    sections: Seq<ChosenSectionView>,
    width: int,
    selected: Option<Seq<char>>,
    block: Option<(u8, u16, u16)>,
)
    requires
        width >= 37,
    ensures
        week_table(sections, width, selected, block).len() == (if weekend_count(sections) > 0 {
            53int
        } else {
            52int
        }),
{
}

} // verus!
