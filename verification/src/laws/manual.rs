//! What holds of sections that are entered by hand.
use vstd::prelude::*;
use crate::app::{entry_of, kind_allowed, manual_entry};
use crate::cli::{add_manual, placed, switch_manual, Addition};
use crate::date::Date;
use crate::error::Error;
use crate::laws::export::{has_both_dates, is_pe, lemma_is_pe};
use crate::laws::notation::{lemma_notation, says_meeting};
use crate::laws::timetable::{
    collide, dates_clear, lemma_calendar_day, lemma_natural_day, lemma_same_minute, under_way,
    within_dates,
};
use crate::laws::{lemma_entry_position, lemma_no_fault, lemma_sorted_stays};
use crate::model::{
    any_date_limited, any_pair, bounded_pe, calendar_meetings_overlap, date_bounded, date_limited,
    date_window_meetings_overlap, internal_calendar_overlap, internal_natural_overlap,
    internal_window_overlap, meeting_before, meeting_fault, meeting_valid, natural_meetings_overlap,
    natural_overlap, window_overlap, CourseView, Dataset, DatasetView, ManualEntry, ManualEntryView,
    ManualStore, Meeting, Source, TermCalendar,
};
use crate::optimizer::{canonical, first_meeting_fault, meeting_le};
use crate::order::{
    ascending, distinct_ascending, law_stable_sorted, lemma_distinct_ascending, lookup, Rank,
};
use crate::storage::{
    entries_fault, entry_fault, entry_key, entry_keys, entry_position, read_meetings, upsert_entry,
    validate_manual_entry, validate_manual_store,
};
use crate::text::{any_char, begins_with, lower_case, split, trimmed, whitespace};
use crate::tui::state::with_dates;

verus! {

/// Meetings come by weekday, then by start, then by end.
pub open spec fn not_later(a: Meeting, b: Meeting) -> bool {
    ||| a.weekday < b.weekday
    ||| a.weekday == b.weekday && a.start_minute < b.start_minute
    ||| a.weekday == b.weekday && a.start_minute == b.start_minute && a.end_minute <= b.end_minute
}

/// Two meetings are on the same weekday at the same times.
pub open spec fn at_same_time(a: Meeting, b: Meeting) -> bool {
    a.weekday == b.weekday && a.start_minute == b.start_minute && a.end_minute == b.end_minute
}

/// The order of meetings goes by weekday, start and end, and by dates only between meetings at the
/// same time: by the first, then by the last, and without a date before with one.
pub proof fn law_meetings_come_in_time(a: Meeting, b: Meeting)
    ensures
        meeting_before(a, b) ==> not_later(a, b),
        !not_later(b, a) ==> meeting_before(a, b),
        a != b ==> meeting_before(a, b) || meeting_before(b, a),
        !(meeting_before(a, b) && meeting_before(b, a)),
        at_same_time(a, b) && a.start_date is None && b.start_date is Some ==> meeting_before(a, b),
        at_same_time(a, b) && a.start_date is Some && b.start_date is Some
            && a.start_date->0.number() < b.start_date->0.number() ==> meeting_before(a, b),
        at_same_time(a, b) && a.start_date == b.start_date && a.end_date is None
            && b.end_date is Some ==> meeting_before(a, b),
        at_same_time(a, b) && a.start_date == b.start_date && a.end_date is Some
            && b.end_date is Some && a.end_date->0.number() < b.end_date->0.number()
            ==> meeting_before(a, b),
{
    <Meeting as Rank>::before_total(a, b);
    <Meeting as Rank>::before_irreflexive(a);
    if meeting_before(a, b) && meeting_before(b, a) {
        <Meeting as Rank>::before_transitive(a, b, a);
    }
}

/// Two meetings share a minute of a weekday.
pub open spec fn share_minute(x: Meeting, y: Meeting) -> bool {
    exists|weekday: int, minute: int|
        #![trigger under_way(x, weekday, minute), under_way(y, weekday, minute)]
        under_way(x, weekday, minute) && under_way(y, weekday, minute)
}

/// Some day lies within the dates of both meetings.
pub open spec fn share_dates(x: Meeting, y: Meeting) -> bool {
    exists|day: int|
        #![trigger within_dates(x, day)]
        within_dates(x, day) && within_dates(y, day)
}

/// Meetings overlap exactly if they share a minute of a weekday and a day: of the weeks, of the
/// term, or of their dates.
pub proof fn law_overlaps_are_shared_minutes(
    calendar: &TermCalendar,
    x: &Meeting,
    y: &Meeting,
    by_week: bool,
    by_term: bool,
    by_dates: bool,
)
    requires
        call_ensures(natural_meetings_overlap, (x, y), by_week),
        call_ensures(calendar_meetings_overlap, (calendar, x, y), by_term),
        call_ensures(date_window_meetings_overlap, (x, y), by_dates),
        meeting_valid(*x),
        meeting_valid(*y),
        dates_clear(*x),
        dates_clear(*y),
    ensures
        by_week <==> collide(None, true, *x, *y),
        by_term <==> collide(Some(calendar.deep_view()), true, *x, *y),
        by_dates <==> share_minute(*x, *y) && share_dates(*x, *y),
{
    lemma_same_minute(*x, *y);
    lemma_calendar_day(calendar.deep_view(), *x, *y);
    if x.weekday == y.weekday {
        lemma_natural_day(*x, *y);
    }
    lemma_share_dates(*x, *y);
}

proof fn lemma_share_dates(x: Meeting, y: Meeting)
    requires
        meeting_valid(x),
        meeting_valid(y),
        dates_clear(x),
        dates_clear(y),
    ensures
        crate::model::windows_overlap(x, y) <==> share_dates(x, y),
{
    if crate::model::windows_overlap(x, y) {
        let day = if !has_both_dates(x) && !has_both_dates(y) {
            0
        } else if !has_both_dates(x) {
            y.start_date->0.number()
        } else if !has_both_dates(y) {
            x.start_date->0.number()
        } else if x.start_date->0.number() <= y.start_date->0.number() {
            y.start_date->0.number()
        } else {
            x.start_date->0.number()
        };
        assert(within_dates(x, day) && within_dates(y, day));
    }
}

/// The meetings of a section come in order.
pub open spec fn sorted(meetings: Seq<Meeting>) -> bool {
    forall|i: int, j: int|
        #![trigger meetings[i], meetings[j]]
        0 <= i < j < meetings.len() ==> !meeting_before(meetings[j], meetings[i])
}

proof fn lemma_canonical_is_sorted(meetings: Seq<Meeting>)
    ensures
        canonical(meetings) == meetings <==> sorted(meetings),
{
    let le = meeting_le();
    assert forall|a: Meeting, b: Meeting| #![trigger le(a, b)] le(a, b) || le(b, a) by {
        law_meetings_come_in_time(a, b);
    }
    assert forall|a: Meeting, b: Meeting, c: Meeting|
        #![trigger le(a, b), le(b, c)]
        le(a, b) && le(b, c) implies le(a, c) by {
        law_meetings_come_in_time(a, b);
        law_meetings_come_in_time(b, c);
        law_meetings_come_in_time(a, c);
        if meeting_before(c, a) {
            if a == b {
            } else {
                <Meeting as Rank>::before_transitive(c, a, b);
            }
        }
    }
    law_stable_sorted(meetings, le);
    if canonical(meetings) == meetings {
        assert forall|i: int, j: int|
            #![trigger meetings[i], meetings[j]]
            0 <= i < j < meetings.len() implies !meeting_before(meetings[j], meetings[i]) by {
            assert(le(canonical(meetings)[i], canonical(meetings)[j]));
        }
    }
    if sorted(meetings) {
        assert forall|i: int, j: int|
            #![trigger meetings[i], meetings[j]]
            0 <= i < j < meetings.len() implies le(meetings[i], meetings[j]) by {}
        lemma_sorted_stays(meetings, le);
    }
}

/// Some meeting of a list has a date.
pub open spec fn some_date(meetings: Seq<Meeting>) -> bool {
    exists|i: int|
        0 <= i < meetings.len() && ((#[trigger] meetings[i]).start_date is Some
            || meetings[i].end_date is Some)
}

/// No two meetings of a list share a minute of a weekday on a day within both their dates.
pub open spec fn apart(meetings: Seq<Meeting>) -> bool {
    forall|i: int, j: int|
        #![trigger meetings[i], meetings[j]]
        0 <= i < j < meetings.len() ==> !(share_minute(meetings[i], meetings[j]) && share_dates(
            meetings[i],
            meetings[j],
        ))
}

/// The meetings of a manual section are acceptable for its kind: valid and in order. Physical
/// education has both dates for all of them and nothing that speaks against it; where another
/// section has dates, that it cannot be placed is marked. Meetings that can be placed do not
/// overlap.
pub open spec fn acceptable_meetings(
    kind: Seq<char>,
    meetings: Seq<Meeting>,
    marked: bool,
) -> bool {
    &&& meetings.len() > 0
    &&& forall|i: int| 0 <= i < meetings.len() ==> meeting_valid(#[trigger] meetings[i])
    &&& sorted(meetings)
    &&& is_pe(kind) ==> !marked && apart(meetings) && forall|i: int|
        0 <= i < meetings.len() ==> has_both_dates(#[trigger] meetings[i])
    &&& !is_pe(kind) && some_date(meetings) ==> marked
    &&& !is_pe(kind) && !some_date(meetings) ==> apart(meetings)
}

/// A manual section is acceptable.
pub open spec fn acceptable(entry: ManualEntryView) -> bool {
    let option = entry.option;
    &&& trimmed(entry.term_id).len() > 0
    &&& trimmed(entry.course_id).len() > 0
    &&& trimmed(entry.kind).len() > 0
    &&& lower_case(trimmed(entry.kind)) == entry.kind
    &&& option.source == Source::Manual
    &&& exists|rest: Seq<char>| option.id == #[trigger] ("manual-"@ + rest) && rest.len() > 0
    &&& forall|i: int| 0 <= i < option.id.len() ==> !whitespace(#[trigger] option.id[i])
    &&& trimmed(option.label).len() > 0
    &&& !option.incompatible_with.contains(option.id)
    &&& acceptable_meetings(entry.kind, option.meetings, option.unsupported_reason is Some)
}

pub(crate) proof fn lemma_some_date(meetings: Seq<Meeting>)
    ensures
        any_date_limited(meetings) <==> some_date(meetings),
{
    if any_date_limited(meetings) {
        let i = choose|i: int| 0 <= i < meetings.len() && date_limited(#[trigger] meetings[i]);
        assert(meetings[i].start_date is Some || meetings[i].end_date is Some);
    }
    if some_date(meetings) {
        let i = choose|i: int|
            0 <= i < meetings.len() && ((#[trigger] meetings[i]).start_date is Some
                || meetings[i].end_date is Some);
        assert(date_limited(meetings[i]));
    }
}

proof fn lemma_apart_by_dates(meetings: Seq<Meeting>)
    requires
        forall|i: int|
            0 <= i < meetings.len() ==> meeting_valid(#[trigger] meetings[i]) && dates_clear(
                meetings[i],
            ),
    ensures
        internal_window_overlap(meetings) <==> !apart(meetings),
        !some_date(meetings) ==> (internal_natural_overlap(meetings) <==> !apart(meetings)),
{
    let window = |left: Meeting, right: Meeting| window_overlap(left, right);
    let natural = |left: Meeting, right: Meeting| natural_overlap(left, right);
    assert forall|i: int, j: int|
        #![trigger meetings[i], meetings[j]]
        0 <= i < j < meetings.len() implies (window(meetings[i], meetings[j]) <==> share_minute(
        meetings[i],
        meetings[j],
    ) && share_dates(meetings[i], meetings[j])) && (!some_date(meetings) ==> (natural(
        meetings[i],
        meetings[j],
    ) <==> share_minute(meetings[i], meetings[j]) && share_dates(meetings[i], meetings[j]))) by {
        lemma_same_minute(meetings[i], meetings[j]);
        lemma_share_dates(meetings[i], meetings[j]);
    }
    if any_pair(meetings, window) {
        let (i, j) = choose|i: int, j: int|
            0 <= i < j < meetings.len() && #[trigger] window(meetings[i], meetings[j]);
        assert(share_minute(meetings[i], meetings[j]));
    }
    if any_pair(meetings, natural) && !some_date(meetings) {
        let (i, j) = choose|i: int, j: int|
            0 <= i < j < meetings.len() && #[trigger] natural(meetings[i], meetings[j]);
        assert(share_minute(meetings[i], meetings[j]));
    }
    if !apart(meetings) {
        let (i, j) = choose|i: int, j: int|
            #![trigger meetings[i], meetings[j]]
            0 <= i < j < meetings.len() && share_minute(meetings[i], meetings[j]) && share_dates(
                meetings[i],
                meetings[j],
            );
        assert(window(meetings[i], meetings[j]));
        if !some_date(meetings) {
            assert(natural(meetings[i], meetings[j]));
        }
    }
}

proof fn lemma_all_valid(meetings: Seq<Meeting>)
    ensures
        first_meeting_fault(meetings) is None <==> forall|i: int|
            0 <= i < meetings.len() ==> meeting_valid(#[trigger] meetings[i]),
{
    lemma_no_fault(meetings);
    assert forall|i: int| 0 <= i < meetings.len() implies (meeting_valid(#[trigger] meetings[i])
        <==> meeting_fault(meetings[i]) is None) by {}
    if forall|i: int| 0 <= i < meetings.len() ==> meeting_valid(#[trigger] meetings[i]) {
        assert forall|i: int| 0 <= i < meetings.len() implies meeting_fault(
            #[trigger] meetings[i],
        ) is None by {
            assert(meeting_valid(meetings[i]));
        }
    }
}

pub(crate) proof fn lemma_pe_bounds(kind: Seq<char>, meetings: Seq<Meeting>)
    requires
        meetings.len() > 0,
        forall|i: int| 0 <= i < meetings.len() ==> meeting_valid(#[trigger] meetings[i]),
    ensures
        bounded_pe(kind, meetings) <==> is_pe(kind) && forall|i: int|
            0 <= i < meetings.len() ==> has_both_dates(#[trigger] meetings[i]),
{
    lemma_is_pe(kind);
    if bounded_pe(kind, meetings) {
        assert forall|i: int| 0 <= i < meetings.len() implies has_both_dates(
            #[trigger] meetings[i],
        ) by {
            assert(date_bounded(meetings[i]));
        }
    }
    if is_pe(kind) && forall|i: int|
        0 <= i < meetings.len() ==> has_both_dates(#[trigger] meetings[i]) {
        assert forall|i: int| 0 <= i < meetings.len() implies date_bounded(#[trigger] meetings[i])
            && meeting_valid(meetings[i]) by {
            assert(has_both_dates(meetings[i]));
        }
    }
}

proof fn lemma_manual_id(id: Seq<char>)
    ensures
        begins_with(id, "manual-"@) && id.len() > "manual-"@.len() <==> exists|rest: Seq<char>|
            id == #[trigger] ("manual-"@ + rest) && rest.len() > 0,
{
    let mark = "manual-"@;
    if begins_with(id, mark) && id.len() > mark.len() {
        let rest = id.skip(mark.len() as int);
        assert(id =~= mark + rest);
    }
    if exists|rest: Seq<char>| id == #[trigger] (mark + rest) && rest.len() > 0 {
        let rest = choose|rest: Seq<char>| id == #[trigger] (mark + rest) && rest.len() > 0;
        assert(id.take(mark.len() as int) =~= mark);
    }
}

/// A manual section passes exactly if it is acceptable.
pub proof fn law_acceptable_entries_pass(entry: &ManualEntry, r: Result<(), Error>)
    requires
        call_ensures(validate_manual_entry, (entry,), r),
    ensures
        r is Ok <==> acceptable(entry.deep_view()),
{
    lemma_acceptable(entry.deep_view());
}

proof fn lemma_acceptable(entry: ManualEntryView)
    ensures
        entry_fault(entry) is None <==> acceptable(entry),
{
    let option = entry.option;
    let meetings = option.meetings;
    lemma_manual_id(option.id);
    lemma_all_valid(meetings);
    lemma_canonical_is_sorted(meetings);
    lemma_some_date(meetings);
    lemma_is_pe(entry.kind);
    let blank = |c: char| whitespace(c);
    assert(any_char(option.id, blank) <==> !(forall|i: int|
        0 <= i < option.id.len() ==> !whitespace(#[trigger] option.id[i]))) by {
        if any_char(option.id, blank) {
            let i = choose|i: int| 0 <= i < option.id.len() && blank(#[trigger] option.id[i]);
            assert(whitespace(option.id[i]));
        }
        if !(forall|i: int| 0 <= i < option.id.len() ==> !whitespace(#[trigger] option.id[i])) {
            let i = choose|i: int| 0 <= i < option.id.len() && whitespace(#[trigger] option.id[i]);
            assert(blank(option.id[i]));
        }
    }
    if meetings.len() > 0 && first_meeting_fault(meetings) is None {
        lemma_pe_bounds(entry.kind, meetings);
        if is_pe(entry.kind) && bounded_pe(entry.kind, meetings) {
            assert forall|i: int| 0 <= i < meetings.len() implies meeting_valid(
                #[trigger] meetings[i],
            ) && dates_clear(meetings[i]) by {
                assert(has_both_dates(meetings[i]));
            }
            lemma_apart_by_dates(meetings);
        }
        if !some_date(meetings) {
            assert forall|i: int| 0 <= i < meetings.len() implies meeting_valid(
                #[trigger] meetings[i],
            ) && dates_clear(meetings[i]) by {}
            lemma_apart_by_dates(meetings);
        }
    }
}

/// A store passes exactly if its version is 1, all its entries are acceptable and no two have the
/// same term and id.
pub proof fn law_acceptable_stores_pass(store: &ManualStore, r: Result<(), Error>)
    requires
        call_ensures(validate_manual_store, (store,), r),
    ensures
        r is Ok <==> {
            let entries = store.deep_view().entries;
            &&& store.deep_view().version == 1
            &&& forall|i: int| 0 <= i < entries.len() ==> acceptable(#[trigger] entries[i])
            &&& forall|i: int, j: int|
                #![trigger entries[i], entries[j]]
                0 <= i < j < entries.len() ==> entries[i].term_id != entries[j].term_id
                    || entries[i].option.id != entries[j].option.id
        },
{
    lemma_entries(store.deep_view().entries);
}

proof fn lemma_entries(entries: Seq<ManualEntryView>)
    ensures
        entries_fault(entries) is None <==> {
            &&& forall|i: int| 0 <= i < entries.len() ==> acceptable(#[trigger] entries[i])
            &&& forall|i: int, j: int|
                #![trigger entries[i], entries[j]]
                0 <= i < j < entries.len() ==> entries[i].term_id != entries[j].term_id
                    || entries[i].option.id != entries[j].option.id
        },
    decreases entries.len(),
{
    if entries.len() > 0 {
        let rest = entries.drop_last();
        let last = entries.last();
        let n = rest.len() as int;
        lemma_entries(rest);
        lemma_acceptable(last);
        assert(entries[n] == last);
        assert(forall|i: int| 0 <= i < n ==> #[trigger] rest[i] == entries[i]);
        let known = entry_keys(rest);
        assert(known.contains(entry_key(last)) <==> exists|i: int|
            0 <= i < n && (#[trigger] entries[i]).term_id == last.term_id && entries[i].option.id
                == last.option.id) by {
            if known.contains(entry_key(last)) {
                let i = choose|i: int| 0 <= i < known.len() && known[i] == entry_key(last);
                assert(entry_key(rest[i]) == entry_key(last));
                assert(entries[i].term_id == last.term_id);
            }
            if exists|i: int|
                0 <= i < n && (#[trigger] entries[i]).term_id == last.term_id
                    && entries[i].option.id == last.option.id {
                let i = choose|i: int|
                    0 <= i < n && (#[trigger] entries[i]).term_id == last.term_id
                        && entries[i].option.id == last.option.id;
                assert(known[i] == entry_key(last));
            }
        }
        if entries_fault(entries) is None {
            assert forall|i: int| 0 <= i < entries.len() implies acceptable(#[trigger] entries[i]) by {
                if i < n {
                    assert(acceptable(rest[i]));
                }
            }
            assert forall|i: int, j: int|
                #![trigger entries[i], entries[j]]
                0 <= i < j < entries.len() implies entries[i].term_id != entries[j].term_id
                || entries[i].option.id != entries[j].option.id by {
                if j < n {
                    assert(rest[i] == entries[i] && rest[j] == entries[j]);
                }
            }
        } else if (forall|i: int| 0 <= i < entries.len() ==> acceptable(#[trigger] entries[i])) && (
        forall|i: int, j: int|
            #![trigger entries[i], entries[j]]
            0 <= i < j < entries.len() ==> entries[i].term_id != entries[j].term_id
                || entries[i].option.id != entries[j].option.id) {
            assert forall|i: int| 0 <= i < rest.len() implies acceptable(#[trigger] rest[i]) by {
                assert(acceptable(entries[i]));
            }
            assert(acceptable(entries[n]));
            assert forall|i: int, j: int|
                #![trigger rest[i], rest[j]]
                0 <= i < j < rest.len() implies rest[i].term_id != rest[j].term_id
                || rest[i].option.id != rest[j].option.id by {
                assert(rest[i] == entries[i] && rest[j] == entries[j]);
            }
        }
    }
}

/// Some entry has a term and an id.
pub open spec fn has_entry(
    entries: Seq<ManualEntryView>,
    term_id: Seq<char>,
    id: Seq<char>,
) -> bool {
    exists|i: int|
        0 <= i < entries.len() && (#[trigger] entries[i]).term_id == term_id
            && entries[i].option.id == id
}

pub(crate) proof fn lemma_has_entry(entries: Seq<ManualEntryView>, term_id: Seq<char>, id: Seq<char>)
    ensures
        entry_position(entries, term_id, id) < entries.len() <==> has_entry(entries, term_id, id),
        0 <= entry_position(entries, term_id, id) <= entries.len(),
    decreases entries.len(),
{
    lemma_entry_position(entries, term_id, id);
    if entries.len() > 0 && entry_key(entries[0]) != (term_id, id) {
        let rest = entries.drop_first();
        lemma_has_entry(rest, term_id, id);
        if has_entry(rest, term_id, id) {
            let i = choose|i: int|
                0 <= i < rest.len() && (#[trigger] rest[i]).term_id == term_id && rest[i].option.id
                    == id;
            assert(entries[i + 1].term_id == term_id);
        }
        if has_entry(entries, term_id, id) {
            let i = choose|i: int|
                0 <= i < entries.len() && (#[trigger] entries[i]).term_id == term_id
                    && entries[i].option.id == id;
            assert(rest[i - 1].term_id == term_id);
        }
    } else if entries.len() > 0 {
        assert(entries[0].term_id == term_id && entries[0].option.id == id);
    }
}

/// An entry takes the place of the one of its term with its id, or comes last; the others stay.
pub proof fn law_entry_is_put_in_its_place(
    entries: &Vec<ManualEntry>,
    entry: ManualEntry,
    r: Vec<ManualEntry>,
)
    requires
        call_ensures(upsert_entry, (entries, entry), r),
    ensures
        ({
            let before = entries.deep_view();
            let own = entry.deep_view();
            let after = r.deep_view();
            &&& after.contains(own)
            &&& has_entry(before, own.term_id, own.option.id) ==> after.len() == before.len()
            &&& !has_entry(before, own.term_id, own.option.id) ==> after == before.push(own)
            &&& forall|i: int|
                0 <= i < before.len() && ((#[trigger] before[i]).term_id != own.term_id
                    || before[i].option.id != own.option.id) ==> after[i] == before[i]
        }),
{
    let before = entries.deep_view();
    let own = entry.deep_view();
    let after = r.deep_view();
    let at = entry_position(before, own.term_id, own.option.id);
    lemma_has_entry(before, own.term_id, own.option.id);
    lemma_entry_position(before, own.term_id, own.option.id);
    if at < before.len() {
        assert(after[at] == own);
    } else {
        assert(after[before.len() as int] == own);
    }
}

/// Switching a manual section on or off changes one entry of that id, in the term of the catalog,
/// and of that entry only whether it is enabled.
pub proof fn law_switch_changes_one_entry(
    base: &Dataset,
    store: &ManualStore,
    id: &String,
    enabled: bool,
    r: Result<(ManualStore, String), Error>,
)
    requires
        call_ensures(switch_manual, (base, store, id, enabled), r),
    ensures
        r is Ok ==> has_entry(store.deep_view().entries, base.deep_view().term_id, id@),
        r is Ok ==> {
            let before = store.deep_view().entries;
            let after = (r->Ok_0).deep_view().0.entries;
            &&& (r->Ok_0).deep_view().0.version == store.deep_view().version
            &&& after.len() == before.len()
            &&& exists|at: int|
                {
                    &&& 0 <= at < before.len()
                    &&& #[trigger] before[at].term_id == base.deep_view().term_id
                    &&& before[at].option.id == id@
                    &&& after[at] == ManualEntryView { enabled, ..before[at] }
                    &&& forall|i: int|
                        0 <= i < before.len() && i != at ==> #[trigger] after[i] == before[i]
                }
        },
{
    let before = store.deep_view().entries;
    let term_id = base.deep_view().term_id;
    let at = entry_position(before, term_id, id@);
    lemma_has_entry(before, term_id, id@);
    lemma_entry_position(before, term_id, id@);
    if r is Ok {
        let after = (r->Ok_0).deep_view().0.entries;
        assert(after == before.update(at, ManualEntryView { enabled, ..before[at] }));
        assert(before[at].term_id == term_id);
    }
}

/// A kind that a manual section may have in a course: one of five, or one that is published.
pub open spec fn may_have_kind(
    courses: Seq<(Seq<char>, CourseView)>,
    course_id: Seq<char>,
    kind: Seq<char>,
) -> bool {
    &&& lookup(courses, course_id) is Some
    &&& {
        ||| kind == "lecture"@ || kind == "recitation"@ || kind == "lab"@ || kind == "design"@
            || kind == "pe"@
        ||| exists|i: int|
            0 <= i < lookup(courses, course_id)->0.requirements.len() && (#[trigger] lookup(
                courses,
                course_id,
            )->0.requirements[i]).kind == kind
    }
}

/// A manual section is the one that is asked for.
pub open spec fn is_as_asked(
    base: DatasetView,
    course_id: Seq<char>,
    kind: Seq<char>,
    label: Seq<char>,
    room: Seq<char>,
    id: Option<Seq<char>>,
    entry: ManualEntryView,
) -> bool {
    &&& entry.term_id == base.term_id
    &&& entry.course_id == course_id
    &&& entry.kind == lower_case(trimmed(kind))
    &&& may_have_kind(base.courses, course_id, entry.kind)
    &&& entry.option.label == trimmed(label)
    &&& entry.option.label.len() > 0
    &&& entry.option.room == trimmed(room)
    &&& entry.option.source == Source::Manual
    &&& entry.option.incompatible_with.len() == 0
    &&& id is Some ==> entry.option.id == id->0
    &&& exists|rest: Seq<char>| entry.option.id == #[trigger] ("manual-"@ + rest)
    &&& ascending::<Meeting>(entry.option.meetings)
    &&& acceptable_meetings(
        entry.kind,
        entry.option.meetings,
        entry.option.unsupported_reason is Some,
    )
    &&& entry.option.unsupported_reason is Some <==> !is_pe(entry.kind) && some_date(
        entry.option.meetings,
    )
}

/// A new manual section is the one that is asked for, with just the given meetings, and enabled.
pub proof fn law_manual_section_is_as_asked(
    base: &Dataset,
    course_id: &str,
    kind: &str,
    label: &str,
    room: &str,
    meetings: Vec<Meeting>,
    id: Option<&str>,
    r: Result<ManualEntry, Error>,
)
    requires
        call_ensures(manual_entry, (base, course_id, kind, label, room, meetings, id), r),
        r is Ok,
    ensures
        is_as_asked(
            base.deep_view(),
            course_id@,
            kind@,
            label@,
            room@,
            id.deep_view(),
            (r->Ok_0).deep_view(),
        ),
        (r->Ok_0).deep_view().enabled,
        forall|m: Meeting| #[trigger]
            (r->Ok_0).deep_view().option.meetings.contains(m) <==> meetings@.contains(m),
{
    lemma_as_asked(
        base.deep_view(),
        course_id@,
        kind@,
        label@,
        room@,
        meetings@,
        id.deep_view(),
    );
}

pub(crate) proof fn lemma_as_asked(
    base: DatasetView,
    course_id: Seq<char>,
    kind: Seq<char>,
    label: Seq<char>,
    room: Seq<char>,
    meetings: Seq<Meeting>,
    id: Option<Seq<char>>,
)
    requires
        entry_of(base, course_id, kind, label, room, meetings, id) is Ok,
    ensures
        ({
            let entry = entry_of(base, course_id, kind, label, room, meetings, id)->Ok_0;
            &&& is_as_asked(base, course_id, kind, label, room, id, entry)
            &&& entry.enabled
            &&& forall|m: Meeting| #[trigger]
                entry.option.meetings.contains(m) <==> meetings.contains(m)
        }),
{
    let entry = entry_of(base, course_id, kind, label, room, meetings, id)->Ok_0;
    let own = entry.option.meetings;
    lemma_distinct_ascending::<Meeting>(meetings);
    lemma_all_valid(meetings);
    assert(meetings.contains(meetings[0]));
    assert(own.contains(meetings[0]));
    assert forall|i: int| 0 <= i < own.len() implies meeting_valid(#[trigger] own[i]) by {
        assert(own.contains(own[i]));
        assert(meetings.contains(own[i]));
        let k = choose|k: int| 0 <= k < meetings.len() && meetings[k] == own[i];
        assert(meeting_valid(meetings[k]));
    }
    assert(sorted(own)) by {
        assert forall|i: int, j: int|
            #![trigger own[i], own[j]]
            0 <= i < j < own.len() implies !meeting_before(own[j], own[i]) by {
            assert(<Meeting as Rank>::before(own[i], own[j]));
            law_meetings_come_in_time(own[i], own[j]);
        }
    }
    lemma_is_pe(entry.kind);
    lemma_some_date(own);
    lemma_pe_bounds(entry.kind, own);
    if is_pe(entry.kind) {
        assert forall|i: int| 0 <= i < own.len() implies meeting_valid(#[trigger] own[i])
            && dates_clear(own[i]) by {
            assert(has_both_dates(own[i]));
        }
        lemma_apart_by_dates(own);
    } else if !some_date(own) {
        assert forall|i: int| 0 <= i < own.len() implies meeting_valid(#[trigger] own[i])
            && dates_clear(own[i]) by {}
        lemma_apart_by_dates(own);
    }
    let mark = "manual-"@;
    if id is Some {
        let rest = entry.option.id.skip(mark.len() as int);
        assert(entry.option.id =~= mark + rest);
    }
}

/// The meetings of a section are those that a notation says, with the given dates.
pub open spec fn meets_as_written(
    meetings: Seq<Meeting>,
    text: Seq<char>,
    start: Option<Date>,
    end: Option<Date>,
) -> bool {
    forall|m: Meeting| #[trigger]
        meetings.contains(m) <==> exists|k: int|
            0 <= k < split(text, ';').len() && says_meeting(
                #[trigger] split(text, ';')[k],
                Meeting { start_date: None, end_date: None, ..m },
            ) && m.start_date == start && m.end_date == end
}

pub(crate) proof fn lemma_meets_as_written(text: Seq<char>, start: Option<Date>, end: Option<Date>, m: Meeting)
    requires
        read_meetings(text) is Ok,
    ensures
        with_dates(read_meetings(text)->Ok_0, start, end).contains(m) <==> exists|k: int|
            0 <= k < split(text, ';').len() && says_meeting(
                #[trigger] split(text, ';')[k],
                Meeting { start_date: None, end_date: None, ..m },
            ) && m.start_date == start && m.end_date == end,
{
    let read = read_meetings(text)->Ok_0;
    let dated = with_dates(read, start, end);
    let bare = Meeting { start_date: None, end_date: None, ..m };
    lemma_notation(text, bare);
    if dated.contains(m) {
        let i = choose|i: int| 0 <= i < dated.len() && dated[i] == m;
        lemma_notation(text, read[i]);
        assert(read.contains(read[i]));
        let k = choose|k: int|
            0 <= k < split(text, ';').len() && says_meeting(#[trigger] split(text, ';')[k], read[i]);
        assert(read[i] == bare);
    }
    if read.contains(bare) && m.start_date == start && m.end_date == end {
        let i = choose|i: int| 0 <= i < read.len() && read[i] == bare;
        assert(dated[i] == m);
    }
}

/// Adding a manual section puts the one that is asked for into the store, with the meetings that
/// are written and the given dates, and leaves the others as they are. One that takes the place of
/// another keeps its id, its subject and its component and whether it is enabled; a new one is
/// enabled.
pub proof fn law_addition_is_stored(
    base: &Dataset,
    store: &ManualStore,
    addition: &Addition,
    r: Result<(ManualStore, String), Error>,
) -> (at: int)
    requires
        call_ensures(add_manual, (base, store, addition), r),
        r is Ok,
    ensures
        ({
            let before = store.deep_view().entries;
            let after = (r->Ok_0).deep_view().0.entries;
            let id = (r->Ok_0).deep_view().1;
            let wanted = addition.deep_view();
            &&& (r->Ok_0).deep_view().0.version == store.deep_view().version
            &&& 0 <= at < after.len()
            &&& after[at].option.id == id
            &&& is_as_asked(
                base.deep_view(),
                wanted.course,
                wanted.kind,
                wanted.label,
                wanted.room,
                wanted.id,
                after[at],
            )
            &&& meets_as_written(
                after[at].option.meetings,
                wanted.meetings,
                wanted.start_date,
                wanted.end_date,
            )
            &&& wanted.id is Some ==> has_entry(before, base.deep_view().term_id, wanted.id->0)
            &&& at < before.len() ==> after.len() == before.len() && after[at].enabled
                == before[at].enabled && after[at].course_id == before[at].course_id
                && after[at].kind == before[at].kind && before[at].option.id == id
            &&& at >= before.len() ==> after.len() == before.len() + 1 && after[at].enabled
                && !has_entry(before, base.deep_view().term_id, id)
            &&& forall|i: int|
                0 <= i < before.len() && i != at ==> #[trigger] after[i] == before[i]
        }),
{
    let before = store.deep_view().entries;
    let after = (r->Ok_0).deep_view().0.entries;
    let wanted = addition.deep_view();
    let view = base.deep_view();
    let read = read_meetings(wanted.meetings)->Ok_0;
    let dated = with_dates(read, wanted.start_date, wanted.end_date);
    let entry = entry_of(
        view,
        wanted.course,
        wanted.kind,
        wanted.label,
        wanted.room,
        dated,
        wanted.id,
    )->Ok_0;
    lemma_as_asked(
        view,
        wanted.course,
        wanted.kind,
        wanted.label,
        wanted.room,
        dated,
        wanted.id,
    );
    let at = entry_position(before, view.term_id, entry.option.id);
    lemma_has_entry(before, view.term_id, entry.option.id);
    lemma_entry_position(before, view.term_id, entry.option.id);
    if wanted.id is Some {
        lemma_has_entry(before, view.term_id, wanted.id->0);
    }
    assert(after == placed(before, entry)->Ok_0);
    assert forall|m: Meeting| #[trigger]
        after[at].option.meetings.contains(m) <==> exists|k: int|
            0 <= k < split(wanted.meetings, ';').len() && says_meeting(
                #[trigger] split(wanted.meetings, ';')[k],
                Meeting { start_date: None, end_date: None, ..m },
            ) && m.start_date == wanted.start_date && m.end_date == wanted.end_date by {
        lemma_meets_as_written(wanted.meetings, wanted.start_date, wanted.end_date, m);
    }
    at
}

/// A manual section can be made as it is asked for: of a known course and of a kind that it may have,
/// with a label and valid meetings, which for physical education have both dates and do not overlap,
/// in the term neither, and for other sections without dates do not overlap; and under an id of a
/// manual section.
pub open spec fn can_be_made(
    base: DatasetView,
    course_id: Seq<char>,
    kind: Seq<char>,
    label: Seq<char>,
    meetings: Seq<Meeting>,
    id: Option<Seq<char>>,
) -> bool {
    let own = lower_case(trimmed(kind));
    let once = distinct_ascending::<Meeting>(meetings);
    &&& may_have_kind(base.courses, course_id, own)
    &&& trimmed(label).len() > 0
    &&& meetings.len() > 0
    &&& forall|i: int| 0 <= i < meetings.len() ==> meeting_valid(#[trigger] meetings[i])
    &&& is_pe(own) ==> apart(once) && forall|i: int|
        0 <= i < once.len() ==> has_both_dates(#[trigger] once[i])
    &&& is_pe(own) && base.calendar is Some ==> !internal_calendar_overlap(base.calendar->0, once)
    &&& !is_pe(own) && !some_date(once) ==> apart(once)
    &&& id is Some ==> begins_with(id->0, "manual-"@)
}

/// A manual section is made exactly if it can be.
pub proof fn law_manual_section_is_made_where_it_can_be(
    base: &Dataset,
    course_id: &str,
    kind: &str,
    label: &str,
    room: &str,
    meetings: Vec<Meeting>,
    id: Option<&str>,
    r: Result<ManualEntry, Error>,
)
    requires
        call_ensures(manual_entry, (base, course_id, kind, label, room, meetings, id), r),
    ensures
        r is Ok <==> can_be_made(
            base.deep_view(),
            course_id@,
            kind@,
            label@,
            meetings@,
            id.deep_view(),
        ),
{
    let view = base.deep_view();
    let own = lower_case(trimmed(kind@));
    let once = distinct_ascending::<Meeting>(meetings@);
    lemma_distinct_ascending::<Meeting>(meetings@);
    lemma_all_valid(meetings@);
    lemma_is_pe(own);
    lemma_some_date(once);
    if lookup(view.courses, course_id@) is Some {
        let course = lookup(view.courses, course_id@)->0;
        assert(kind_allowed(course, own) <==> may_have_kind(view.courses, course_id@, own));
    }
    if meetings@.len() > 0 && first_meeting_fault(meetings@) is None {
        assert(meetings@.contains(meetings@[0]));
        assert(once.contains(meetings@[0]));
        assert forall|i: int| 0 <= i < once.len() implies meeting_valid(#[trigger] once[i]) by {
            assert(once.contains(once[i]));
            assert(meetings@.contains(once[i]));
            let k = choose|k: int| 0 <= k < meetings@.len() && meetings@[k] == once[i];
            assert(meeting_valid(meetings@[k]));
        }
        lemma_pe_bounds(own, once);
        if is_pe(own) && bounded_pe(own, once) {
            assert forall|i: int| 0 <= i < once.len() implies meeting_valid(#[trigger] once[i])
                && dates_clear(once[i]) by {
                assert(has_both_dates(once[i]));
            }
            lemma_apart_by_dates(once);
        }
        if !some_date(once) {
            assert forall|i: int| 0 <= i < once.len() implies meeting_valid(#[trigger] once[i])
                && dates_clear(once[i]) by {}
            lemma_apart_by_dates(once);
        }
    }
}

} // verus!
