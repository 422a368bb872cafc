//! What the terminal interface does with manual sections and exports, and how its table is laid out.
use vstd::prelude::*;
use crate::app::calendar_export;
use crate::calendar::{octets, ExportReportView};
use crate::error::Error;
use crate::json::{json_value, member, JsonView};
use crate::laws::commands::occurs;
use crate::laws::export::{has_both_dates, is_pe};
use crate::laws::manual::{has_entry, lemma_has_entry};
use crate::laws::posing::{fits_itself, lemma_section_in_order};
use crate::laws::screen::lemma_same_id;
use crate::laws::timetable::placeable;
use crate::laws::{lemma_entry_position, lemma_trimmed};
use crate::model::{
    clock, day_name, meeting_valid, ChosenSectionView, Dataset, DatasetView, Meeting, Requirement,
    SectionOptionView, TimeChoice,
};
use crate::optimizer::{
    canonical, first_meeting_fault, group, grouping_fault, option_searchable, self_overlapping,
};
use crate::order::keys_of;
use crate::session::check_session_text;
use crate::storage::{entry_position, with_entry, with_manual};
use crate::text::{capitalized, decimal, same_ignoring_case, trimmed, upper};
use crate::tui::state::{
    block_at, check_initial, edited_entry, export_answer, first_unknown, manual_save, manual_saved,
    same_id, subject_to_edit, with_export, AppStateView,
};
use crate::tui::timetable::{blocks_of, Navigation};
use crate::tui::week::{cell, column_width, day_heads, entry_for, header, week_table};
use crate::tui::Focus;

verus! {

/// A text of which the first letter is made a capital is else as it was.
pub proof fn law_capitals_begin(s: Seq<char>)
    requires
        s.len() > 0,
        (s[0] as u32) < 128,
    ensures
        capitalized(s).len() == s.len(),
        capitalized(s)[0] == upper(s[0]),
        capitalized(s).skip(1) == s.skip(1),
{
    assert(capitalized(s) =~= seq![upper(s[0])] + s.drop_first());
    assert(capitalized(s).skip(1) =~= s.skip(1));
}

/// ASCII text has as many octets as characters, and no text has more than four times as many.
pub proof fn law_octets_of_texts(s: Seq<char>)
    ensures
        s.len() <= octets(s) <= 4 * s.len(),
        (forall|i: int| 0 <= i < s.len() ==> (#[trigger] s[i] as u32) < 128) ==> octets(s) == s.len(),
    decreases s.len(),
{
    if s.len() > 0 {
        law_octets_of_texts(s.drop_last());
        if forall|i: int| 0 <= i < s.len() ==> (#[trigger] s[i] as u32) < 128 {
            assert((s[s.len() - 1] as u32) < 128);
            assert forall|i: int| 0 <= i < s.drop_last().len() implies (
            #[trigger] s.drop_last()[i] as u32) < 128 by {
                assert((s[i] as u32) < 128);
            }
        }
    }
}

/// A character has as many octets as its code needs.
pub proof fn law_octets_of_characters(c: char)
    ensures
        octets(seq![c]) == 1 <==> (c as u32) < 0x80,
        octets(seq![c]) == 2 <==> 0x80 <= (c as u32) < 0x800,
        octets(seq![c]) == 3 <==> 0x800 <= (c as u32) < 0x10000,
        octets(seq![c]) == 4 <==> 0x10000 <= (c as u32),
{
    reveal_with_fuel(octets, 2);
    assert(seq![c].drop_last() =~= Seq::empty());
    assert(seq![c].last() == c);
}

/// The text of a session file is read on exactly if it is JSON that says that its version is the
/// number 1.
pub proof fn law_session_texts_have_version_one(text: &str, path: &str, r: Result<(), Error>)
    requires
        call_ensures(check_session_text, (text, path), r),
    ensures
        r is Ok <==> json_value(text@) is Ok && (member(
            json_value(text@)->Ok_0,
            "version"@,
        ) matches Some(JsonView::Number(_, Some(n))) && n == 1),
{
}

/// What is saved from the editor is the store with the section that it describes, and the catalog
/// with that store. Then the editor is closed and the search starts anew.
pub proof fn law_saving_stores_the_section(s: AppStateView)
    requires
        manual_save(s) is Ok,
        s.editor is Some,
    ensures
        edited_entry(s.base, s.manual.entries, s.editor->0) is Ok,
        manual_save(s)->Ok_0 is Some,
        ({
            let entry = edited_entry(s.base, s.manual.entries, s.editor->0)->Ok_0;
            let (store, dataset) = (manual_save(s)->Ok_0)->0;
            let after = manual_saved(s, store, dataset);
            &&& store.version == s.manual.version
            &&& store.entries.contains(entry)
            &&& has_entry(s.manual.entries, entry.term_id, entry.option.id) ==> store.entries.len()
                == s.manual.entries.len()
            &&& !has_entry(s.manual.entries, entry.term_id, entry.option.id)
                ==> store.entries.len() == s.manual.entries.len() + 1
            &&& with_manual(s.base, store) == Ok::<DatasetView, Seq<char>>(dataset)
            &&& after.editor is None
            &&& after.manual == store
            &&& after.dataset == dataset
            &&& after.base == s.base
            &&& after.selected == s.selected
            &&& after.solution is None
            &&& after.generation != s.generation
        }),
{
    let entry = edited_entry(s.base, s.manual.entries, s.editor->0)->Ok_0;
    let before = s.manual.entries;
    lemma_has_entry(before, entry.term_id, entry.option.id);
    lemma_entry_position(before, entry.term_id, entry.option.id);
    let after = with_entry(before, entry);
    let at = entry_position(before, entry.term_id, entry.option.id);
    assert(after[at] == entry);
}

proof fn lemma_first_unknown(ids: Seq<Seq<char>>, wanted: Seq<Seq<char>>)
    ensures
        first_unknown(ids, wanted) is None <==> forall|k: int|
            0 <= k < wanted.len() ==> same_id(ids, #[trigger] wanted[k]) is Some,
    decreases wanted.len(),
{
    if wanted.len() > 0 {
        let rest = wanted.drop_first();
        lemma_first_unknown(ids, rest);
        assert(forall|k: int| 0 <= k < rest.len() ==> #[trigger] rest[k] == wanted[k + 1]);
        if first_unknown(ids, wanted) is None {
            assert forall|k: int| 0 <= k < wanted.len() implies same_id(
                ids,
                #[trigger] wanted[k],
            ) is Some by {
                if k > 0 {
                    assert(same_id(ids, rest[k - 1]) is Some);
                }
            }
        }
        if forall|k: int| 0 <= k < wanted.len() ==> same_id(ids, #[trigger] wanted[k]) is Some {
            assert(same_id(ids, wanted[0]) is Some);
            assert forall|k: int| 0 <= k < rest.len() implies same_id(
                ids,
                #[trigger] rest[k],
            ) is Some by {
                assert(same_id(ids, wanted[k + 1]) is Some);
            }
        }
    }
}

/// Some course has a number, whatever its case.
pub open spec fn has_number(ids: Seq<Seq<char>>, wanted: Seq<char>) -> bool {
    exists|k: int| 0 <= k < ids.len() && same_ignoring_case(#[trigger] ids[k], wanted)
}

/// The subjects that are asked for are accepted exactly if the catalog has all of them.
pub proof fn law_asked_subjects_are_known(
    base: &Dataset,
    initial: &Vec<String>,
    r: Result<(), Error>,
)
    requires
        call_ensures(check_initial, (base, initial), r),
    ensures
        r is Ok <==> forall|k: int|
            0 <= k < initial.deep_view().len() ==> has_number(
                keys_of(base.deep_view().courses),
                #[trigger] initial.deep_view()[k],
            ),
{
    let ids = keys_of(base.deep_view().courses);
    let wanted = initial.deep_view();
    lemma_first_unknown(ids, wanted);
    assert forall|k: int| 0 <= k < wanted.len() implies (same_id(
        ids,
        #[trigger] wanted[k],
    ) is Some <==> has_number(ids, wanted[k])) by {
        lemma_same_id(ids, wanted[k]);
    }
}

/// A new manual section is for the subject under the cursor of the pane that has the focus.
pub proof fn law_new_section_is_for_the_subject_at_hand(s: AppStateView)
    ensures
        s.focus == Focus::Subjects && 0 <= s.cursor < s.filtered.len() ==> subject_to_edit(s)
            == s.filtered[s.cursor],
        s.focus == Focus::Selected && 0 <= s.selected_cursor < s.selected.len()
            ==> subject_to_edit(s) == s.selected[s.selected_cursor],
{
}

/// The block that is picked out is the one that was gone to.
pub proof fn law_picked_block_is_the_one_gone_to(s: AppStateView, at: usize)
    requires
        s.solution is Some,
        s.timetable_navigation == Navigation::Blocks(at) || s.timetable_navigation
            == Navigation::Members(at),
        at < blocks_of(s.solution->0.choices).len(),
    ensures
        ({
            let block = blocks_of(s.solution->0.choices)[at as int];
            block_at(s) == Some((block.weekday, block.start_minute, block.end_minute))
        }),
{
}

/// No block is picked out while timetables are gone through.
pub proof fn law_no_block_among_timetables(s: AppStateView)
    requires
        s.timetable_navigation == Navigation::Alternatives,
    ensures
        block_at(s) is None,
{
}

/// What is exported is the shown timetable with the chosen sections; without one nothing is.
pub proof fn law_shown_timetable_is_exported(s: AppStateView)
    ensures
        s.solution is None || !(s.solution->0.status is OptimalKnown) ==> export_answer(s) is Err,
        s.solution is Some && s.solution->0.status is OptimalKnown ==> export_answer(s)
            == calendar_export(s.dataset, s.solution->0, s.actual_members),
{
}

/// After an export its file, the number of its events and what it says are shown, and nothing else
/// changes.
pub proof fn law_exports_are_shown(s: AppStateView, report: ExportReportView)
    requires
        0 <= report.event_count <= usize::MAX,
    ensures
        ({
            let after = with_export(s, report);
            &&& after.export is Some
            &&& after.export->0.path == report.path
            &&& after.export->0.event_count == report.event_count
            &&& after.export->0.notices == report.notices
            &&& occurs(
                decimal(report.event_count as nat) + " event(s) to "@ + report.path,
                after.status,
            )
            &&& after == (AppStateView { export: after.export, status: after.status, ..s })
        }),
{
    let part = decimal(report.event_count as nat) + " event(s) to "@ + report.path;
    assert(with_export(s, report).status =~= "Exported "@ + part + "."@);
}

/// The columns of the five days share the width of the table between them, and none is wider than
/// another by more than one.
pub proof fn law_columns_share_the_width(width: int, day: int, other: int)
    requires
        width >= 37,
        0 <= day < 5,
        0 <= other < 5,
    ensures
        column_width(width, 0) + column_width(width, 1) + column_width(width, 2) + column_width(
            width,
            3,
        ) + column_width(width, 4) == width - 12,
        column_width(width, day) >= 5,
        column_width(width, day) <= column_width(width, other) + 1,
{
}

proof fn lemma_day_heads(width: int, days: int, day: int)
    requires
        0 <= day < days,
    ensures
        day_heads(width, days).len() == 2 * days,
        day_heads(width, days)[2 * day].content == cell(day_name(day), column_width(width, day)),
    decreases days,
{
    lemma_heads_len(width, days);
    lemma_heads_len(width, days - 1);
    if day < days - 1 {
        lemma_day_heads(width, days - 1, day);
    }
}

proof fn lemma_heads_len(width: int, days: int)
    requires
        0 <= days,
    ensures
        day_heads(width, days).len() == 2 * days,
    decreases days,
{
    if days > 0 {
        lemma_heads_len(width, days - 1);
    }
}

/// The table names the five days over their columns and each full hour beside its line; the half
/// hours have no time beside them.
pub proof fn law_table_names_days_and_hours(
    sections: Seq<ChosenSectionView>,
    width: int,
    selected: Option<Seq<char>>,
    block: Option<(u8, u16, u16)>,
    day: int,
    hour: int,
)
    requires
        width >= 37,
        0 <= day < 5,
        0 <= hour < 24,
    ensures
        ({
            let lines = week_table(sections, width, selected, block);
            &&& lines[1][3 + 2 * day].content == cell(day_name(day), column_width(width, day))
            &&& lines[3 + 2 * hour][1].content == cell(clock(60 * hour), 5)
            &&& lines[3 + 2 * hour + 1][1].content == cell(Seq::empty(), 5)
        }),
{
    let lines = week_table(sections, width, selected, block);
    lemma_day_heads(width, 5, day);
    assert(lines[1] == header(width));
    assert(header(width)[3 + 2 * day] == day_heads(width, 5)[2 * day]);
    assert(30 * (2 * hour) == 60 * hour && (60 * hour) % 60 == 0);
    assert((30 * (2 * hour + 1)) % 60 == 30);
}

/// A meeting in the table has the times of the meeting, the number of its course and the short label
/// of its kind, and is picked out exactly if its component is.
pub proof fn law_entries_show_their_meetings(
    section: ChosenSectionView,
    m: Meeting,
    selected: Option<Seq<char>>,
    ordered: Seq<Seq<char>>,
)
    ensures
        ({
            let entry = entry_for(section, m, selected, ordered);
            &&& entry.day == m.weekday
            &&& entry.start == m.start_minute
            &&& entry.end == m.end_minute
            &&& entry.course_id == section.course_id
            &&& entry.section_id == section.section.id
            &&& entry.selected <==> selected == Some(section.course_id + "/"@ + section.kind)
        }),
{
}

proof fn lemma_grouping(kind: Seq<char>, options: Seq<SectionOptionView>)
    ensures
        grouping_fault(kind, options) is None <==> forall|k: int|
            0 <= k < options.len() ==> can_be_grouped(kind, #[trigger] options[k]),
    decreases options.len(),
{
    if options.len() > 0 {
        let rest = options.drop_last();
        let at = options.len() - 1;
        lemma_grouping(kind, rest);
        lemma_can_be_grouped(kind, options.last());
        assert(options[at] == options.last());
        assert(forall|k: int| 0 <= k < rest.len() ==> #[trigger] rest[k] == options[k]);
        if grouping_fault(kind, options) is None {
            assert forall|k: int| 0 <= k < options.len() implies can_be_grouped(
                kind,
                #[trigger] options[k],
            ) by {
                if k < at {
                    assert(can_be_grouped(kind, rest[k]));
                }
            }
        }
        if forall|k: int| 0 <= k < options.len() ==> can_be_grouped(kind, #[trigger] options[k]) {
            assert forall|k: int| 0 <= k < rest.len() implies can_be_grouped(
                kind,
                #[trigger] rest[k],
            ) by {
                assert(can_be_grouped(kind, options[k]));
            }
            assert(can_be_grouped(kind, options[at]));
        }
    }
}

/// A section can be grouped: its meetings are valid, and where it can be placed they do not get in
/// each other's way.
pub open spec fn can_be_grouped(kind: Seq<char>, option: SectionOptionView) -> bool {
    &&& forall|k: int|
        0 <= k < option.meetings.len() ==> meeting_valid(#[trigger] option.meetings[k])
    &&& placeable(kind, option) ==> fits_itself(None, option)
}

proof fn lemma_can_be_grouped(kind: Seq<char>, option: SectionOptionView)
    ensures
        can_be_grouped(kind, option) <==> {
            &&& first_meeting_fault(option.meetings) is None
            &&& !(option_searchable(kind, option)
                && self_overlapping(
                None,
                canonical(option.meetings),
            ))
        },
{
    let named = SectionOptionView { id: seq!['a'], ..option };
    lemma_section_in_order(kind, None, named);
    assert(trimmed(named.id).len() > 0) by {
        lemma_trimmed(named.id);
    }
    assert(named.meetings == option.meetings);
    assert(placeable(kind, named) == placeable(kind, option)) by {
        if placeable(kind, named) {
            assert forall|k: int| 0 <= k < option.meetings.len() implies (if is_pe(
                kind,
            ) {
                has_both_dates(#[trigger] option.meetings[k])
            } else {
                option.meetings[k].start_date is None && option.meetings[k].end_date is None
            }) by {
                assert(named.meetings[k] == option.meetings[k]);
            }
        }
    }
    assert(fits_itself(None, named) == fits_itself(None, option));
}

/// The sections of a requirement are grouped exactly if each of them can be.
pub proof fn law_sections_in_order_are_grouped(
    requirement: &Requirement,
    r: Result<Vec<TimeChoice>, Error>,
)
    requires
        call_ensures(group, (requirement,), r),
    ensures
        r is Ok <==> forall|k: int|
            0 <= k < requirement.deep_view().options.len() ==> can_be_grouped(
                requirement.deep_view().kind,
                #[trigger] requirement.deep_view().options[k],
            ),
{
    lemma_grouping(requirement.deep_view().kind, requirement.deep_view().options);
}

} // verus!
