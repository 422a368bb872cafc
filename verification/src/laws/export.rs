//! What an exported calendar holds.
use vstd::prelude::*;
use crate::app::{calendar_report, sections_chosen};
use crate::calendar::{
    arranged_events, calendar_text, collected, event_le, event_on, event_text, event_uid, events_on,
    events_text, export_ics, exported, meeting_days, meeting_events, omission, omitted_notice,
    property, section_events, shown_location, utc_stamp, without_repeats, EventView, ExportReport,
};
use crate::color::label_of;
use crate::date::{
    civil, civil_text, day_number, lemma_civil_of, new_york_time, stamp_text, LocalTimeView,
    LAST_DAY,
};
use crate::determinism::lemma_sum_contains;
use crate::error::Error;
use crate::laws::commands::occurs;
use crate::laws::{
    exportable, law_meeting_days, lemma_collected, lemma_contributed, lemma_event_order, lemma_said,
    lemma_stems_on, lemma_without_repeats, own_events, own_notices, stems,
};
use crate::model::{
    any_date_limited, bounded_pe, date_bounded, date_limited, meeting_valid, pe_kind, taught,
    ChosenSection, ChosenSectionView, Dataset, Meeting, Solution, TermCalendar, TermCalendarView,
};
use crate::optimizer::lemma_sorted_elements;
use crate::order::{law_stable_sorted, lemma_distinct_ascending, lookup, stable_sorted, OrderedMap};
use crate::text::{lower, lowered, padded, trimmed};

verus! {

/// A text shows a second of a day in UTC: the digits of the year, month and day, then those of the
/// hour, minute and second.
pub open spec fn shows_second(text: Seq<char>, day: int, second: int) -> bool {
    forall|year: int, month: int, date: int, h: int, m: int, s: int|
        #![trigger day_number(year, month, date), hms(h, m, s)]
        civil(year, month, date) && 0 <= year <= 9999 && day_number(year, month, date) == day
            && hms(h, m, s) == second && 0 <= h && 0 <= m < 60 && 0 <= s < 60 ==> text
            == padded(year as nat, 4) + padded(month as nat, 2) + padded(date as nat, 2) + "T"@
            + padded(h as nat, 2) + padded(m as nat, 2) + padded(s as nat, 2) + "Z"@
}

/// The second of the day of an hour, minute and second.
pub open spec fn hms(h: int, m: int, s: int) -> int {
    3600 * h + 60 * m + s
}

proof fn lemma_stamp(day: int, second: int)
    ensures
        shows_second(stamp_text(day, second), day, second),
{
    assert forall|year: int, month: int, date: int, h: int, m: int, s: int|
        #![trigger day_number(year, month, date), hms(h, m, s)]
        civil(year, month, date) && 0 <= year <= 9999 && day_number(year, month, date) == day
            && hms(h, m, s) == second && 0 <= h && 0 <= m < 60 && 0 <= s < 60 implies stamp_text(
        day,
        second,
    ) == padded(year as nat, 4) + padded(month as nat, 2) + padded(date as nat, 2) + "T"@ + padded(
        h as nat,
        2,
    ) + padded(m as nat, 2) + padded(s as nat, 2) + "Z"@ by {
        lemma_civil_of(day, year, month, date);
        assert(second / 3600 == h && second / 60 % 60 == m && second % 60 == s) by (nonlinear_arith)
            requires
                second == 3600 * h + 60 * m + s,
                0 <= h,
                0 <= m < 60,
                0 <= s < 60,
        ;
        assert(civil_text(year, month, date, Seq::empty()) =~= padded(year as nat, 4) + padded(
            month as nat,
            2,
        ) + padded(date as nat, 2));
    }
}

/// A minute of a day is the time `h:m` of the day that comes `later` days after it.
pub open spec fn falls_on(minute: int, later: int, h: int, m: int) -> bool {
    &&& 0 <= h < 24
    &&& 0 <= m < 60
    &&& minute == 1440 * later + 60 * h + m
}

/// A text is the instant in UTC of a minute of a day in New York.
pub open spec fn is_instant(text: Seq<char>, day: int, minute: int) -> bool {
    exists|later: int, h: int, m: int|
        #![trigger falls_on(minute, later, h, m)]
        {
            &&& falls_on(minute, later, h, m)
            &&& new_york_time(day + later, h, m) matches LocalTimeView::Single(utc, second)
            &&& shows_second(text, utc, second)
        }
}

/// The start or the end of an event is the instant of the New York time of its minute, with hours
/// and minutes; the minute 1440 is 0:00 of the next day. There is one exactly where that time exists
/// once and the day can be written.
pub proof fn law_instants_keep_the_minutes(day: int, minute: int)
    requires
        0 <= minute <= 1440,
    ensures
        utc_stamp(day, minute) is Ok ==> is_instant(utc_stamp(day, minute)->Ok_0, day, minute),
        forall|later: int, h: int, m: int| #[trigger]
            falls_on(minute, later, h, m) ==> (utc_stamp(day, minute) is Ok <==> new_york_time(
                day + later,
                h,
                m,
            ) is Single && (later == 0 || day < LAST_DAY)),
{
    assert forall|later: int, h: int, m: int| #[trigger]
        falls_on(minute, later, h, m) implies (utc_stamp(day, minute) is Ok <==> new_york_time(
        day + later,
        h,
        m,
    ) is Single && (later == 0 || day < LAST_DAY)) by {
        assert(later == 0 || later == 1);
        if later == 0 {
            assert(minute / 60 == h && minute % 60 == m);
        }
    }
    if utc_stamp(day, minute) is Ok {
        let later = minute / 1440;
        let h = minute % 1440 / 60;
        let m = minute % 60;
        assert(falls_on(minute, later, h, m));
        match new_york_time(day + later, h, m) {
            LocalTimeView::Single(utc, second) => {
                lemma_stamp(utc, second);
            },
            _ => {},
        }
    }
}

/// Physical education, whatever the case and the blanks around it.
pub open spec fn is_pe(kind: Seq<char>) -> bool {
    lowered(trimmed(kind)) == "pe"@
}

pub(crate) proof fn lemma_is_pe(kind: Seq<char>)
    ensures
        pe_kind(kind) <==> is_pe(kind),
{
    reveal_strlit("pe");
    let word = trimmed(kind);
    assert(lowered("pe"@) =~= "pe"@);
    if is_pe(kind) {
        assert forall|i: int| 0 <= i < word.len() implies lower(#[trigger] word[i]) == lower(
            "pe"@[i],
        ) by {
            assert(lowered(word)[i] == "pe"@[i]);
            assert(lowered("pe"@)[i] == "pe"@[i]);
        }
    }
    if pe_kind(kind) {
        assert forall|i: int| 0 <= i < word.len() implies #[trigger] lowered(word)[i] == "pe"@[i] by {
            assert(lower(word[i]) == lower("pe"@[i]));
            assert(lowered("pe"@)[i] == "pe"@[i]);
        }
        assert(lowered(word) =~= "pe"@);
    }
}

/// A section is left out of an export: it is marked as one that cannot be placed, it has no
/// meetings, it is physical education without proper dates, or another section with dates.
pub open spec fn left_out(section: ChosenSectionView) -> bool {
    let meetings = section.section.meetings;
    ||| section.section.unsupported_reason is Some
    ||| meetings.len() == 0
    ||| is_pe(section.kind) && exists|i: int|
        0 <= i < meetings.len() && !(has_both_dates(#[trigger] meetings[i]) && meeting_valid(
            meetings[i],
        ))
    ||| !is_pe(section.kind) && exists|i: int|
        0 <= i < meetings.len() && ((#[trigger] meetings[i]).start_date is Some
            || meetings[i].end_date is Some)
}

pub open spec fn has_both_dates(m: Meeting) -> bool {
    m.start_date is Some && m.end_date is Some
}

proof fn lemma_left_out(section: ChosenSectionView)
    ensures
        omission(section) is Some <==> left_out(section),
        !left_out(section) ==> bounded_pe(section.kind, section.section.meetings) == is_pe(
            section.kind,
        ),
{
    lemma_is_pe(section.kind);
    let meetings = section.section.meetings;
    let bounded = bounded_pe(section.kind, meetings);
    if is_pe(section.kind) && meetings.len() > 0 {
        if bounded {
            assert forall|i: int| 0 <= i < meetings.len() implies has_both_dates(
                #[trigger] meetings[i],
            ) && meeting_valid(meetings[i]) by {
                assert(date_bounded(meetings[i]));
            }
        } else {
            let i = choose|i: int|
                0 <= i < meetings.len() && !(date_bounded(#[trigger] meetings[i]) && meeting_valid(
                    meetings[i],
                ));
            assert(!(has_both_dates(meetings[i]) && meeting_valid(meetings[i])));
        }
    }
    if !is_pe(section.kind) {
        assert(!bounded);
        if any_date_limited(meetings) {
            let i = choose|i: int| 0 <= i < meetings.len() && date_limited(#[trigger] meetings[i]);
            assert(meetings[i].start_date is Some || meetings[i].end_date is Some);
        }
        if exists|i: int|
            0 <= i < meetings.len() && ((#[trigger] meetings[i]).start_date is Some
                || meetings[i].end_date is Some) {
            let i = choose|i: int|
                0 <= i < meetings.len() && ((#[trigger] meetings[i]).start_date is Some
                    || meetings[i].end_date is Some);
            assert(date_limited(meetings[i]));
        }
    }
}

/// A day of the term on which classes are held as on a weekday: no holiday, and either announced to
/// follow it or, where nothing is announced, that weekday itself, where day 1 is a Monday.
pub open spec fn held_as(calendar: TermCalendarView, day: int, weekday: int) -> bool {
    &&& calendar.start <= day <= calendar.end
    &&& !calendar.holidays.contains(day)
    &&& match lookup(calendar.alternate_days, day) {
        Some(other) => other == weekday,
        None => weekday < 7 && (day - 1 - weekday) % 7 == 0,
    }
}

/// A meeting of a section takes place on a day of the term.
pub open spec fn takes_place(
    calendar: TermCalendarView,
    section: ChosenSectionView,
    m: Meeting,
    day: int,
) -> bool {
    &&& !left_out(section)
    &&& section.section.meetings.contains(m)
    &&& held_as(calendar, day, m.weekday as int)
    &&& is_pe(section.kind) ==> m.start_date->0.number() <= day <= m.end_date->0.number()
}

pub(crate) proof fn lemma_held_as(calendar: TermCalendarView, day: int, weekday: int)
    requires
        0 <= weekday,
    ensures
        held_as(calendar, day, weekday) <==> calendar.start <= day <= calendar.end && taught(
            calendar,
            day,
            weekday,
        ),
{
    if weekday < 7 {
        assert((day - 1 - weekday) % 7 == 0 <==> (day - 1) % 7 == weekday);
    }
}

proof fn lemma_takes_place(
    calendar: TermCalendarView,
    section: ChosenSectionView,
    m: Meeting,
    day: int,
)
    requires
        section.section.meetings.contains(m),
        !left_out(section),
    ensures
        meeting_days(
            calendar,
            m,
            bounded_pe(section.kind, section.section.meetings),
        ).contains(day) <==> takes_place(calendar, section, m, day),
{
    let meetings = section.section.meetings;
    lemma_left_out(section);
    lemma_held_as(calendar, day, m.weekday as int);
    law_meeting_days(calendar, m, is_pe(section.kind), day);
    let i = choose|i: int| 0 <= i < meetings.len() && meetings[i] == m;
    if is_pe(section.kind) {
        assert(has_both_dates(meetings[i]));
    }
}

/// An event shows a meeting of a section on a day.
pub open spec fn shows_meeting(
    calendar: TermCalendarView,
    section: ChosenSectionView,
    m: Meeting,
    day: int,
    event: EventView,
) -> bool {
    &&& is_instant(event.start, day, m.start_minute as int)
    &&& is_instant(event.end, day, m.end_minute as int)
    &&& event.uid == event_uid(calendar, section, m, day)
    &&& event.summary == section.course_id + " "@ + label_of(section.kind)
    &&& event.location == section.section.room
    &&& event.description == section.course_title + "\n"@ + section.course_id + " "@ + section.kind
        + " "@ + section.section.label
}

proof fn lemma_shows(
    calendar: TermCalendarView,
    section: ChosenSectionView,
    m: Meeting,
    day: int,
    event: EventView,
)
    requires
        stems(calendar, section, m, day, event),
        m.start_minute < m.end_minute <= 1440,
    ensures
        shows_meeting(calendar, section, m, day, event),
{
    law_instants_keep_the_minutes(day, m.start_minute as int);
    law_instants_keep_the_minutes(day, m.end_minute as int);
}

proof fn lemma_on_each_day(
    calendar: TermCalendarView,
    section: ChosenSectionView,
    m: Meeting,
    days: Seq<int>,
    day: int,
) -> (event: EventView)
    requires
        events_on(calendar, section, m, days) is Ok,
        days.contains(day),
    ensures
        (events_on(calendar, section, m, days)->Ok_0).contains(event),
        stems(calendar, section, m, day, event),
    decreases days.len(),
{
    let rest = days.drop_last();
    let events = events_on(calendar, section, m, rest)->Ok_0;
    let all = events_on(calendar, section, m, days)->Ok_0;
    if day == days.last() {
        assert(all[events.len() as int] == event_on(calendar, section, m, day)->Ok_0);
        event_on(calendar, section, m, day)->Ok_0
    } else {
        let k = choose|k: int| 0 <= k < days.len() && days[k] == day;
        assert(rest[k] == day);
        let event = lemma_on_each_day(calendar, section, m, rest, day);
        let i = choose|i: int| 0 <= i < events.len() && events[i] == event;
        assert(all[i] == event);
        event
    }
}

/// Each event of a section shows one of its meetings on one of its days.
proof fn lemma_section_shows(
    calendar: TermCalendarView,
    section: ChosenSectionView,
    meetings: Seq<Meeting>,
    event: EventView,
) -> (r: (Meeting, int))
    requires
        section_events(calendar, section, meetings) is Ok,
        (section_events(calendar, section, meetings)->Ok_0).contains(event),
    ensures
        meetings.contains(r.0),
        meeting_days(
            calendar,
            r.0,
            bounded_pe(section.kind, section.section.meetings),
        ).contains(r.1),
        shows_meeting(calendar, section, r.0, r.1, event),
    decreases meetings.len(),
{
    reveal(meeting_events);
    let rest = meetings.drop_last();
    let m = meetings.last();
    let days = meeting_days(calendar, m, bounded_pe(section.kind, section.section.meetings));
    let events = section_events(calendar, section, rest)->Ok_0;
    let more = events_on(calendar, section, m, days)->Ok_0;
    lemma_sum_contains(events, more, event);
    if events.contains(event) {
        let (n, day) = lemma_section_shows(calendar, section, rest, event);
        let i = choose|i: int| 0 <= i < rest.len() && rest[i] == n;
        assert(meetings[i] == n);
        (n, day)
    } else {
        let day = lemma_stems_on(calendar, section, m, days, event);
        assert(meetings[meetings.len() - 1] == m);
        lemma_shows(calendar, section, m, day, event);
        (m, day)
    }
}

/// Each meeting of a section has an event on each of its days.
proof fn lemma_section_covers(
    calendar: TermCalendarView,
    section: ChosenSectionView,
    meetings: Seq<Meeting>,
    m: Meeting,
    day: int,
) -> (event: EventView)
    requires
        section_events(calendar, section, meetings) is Ok,
        meetings.contains(m),
        meeting_days(
            calendar,
            m,
            bounded_pe(section.kind, section.section.meetings),
        ).contains(day),
    ensures
        (section_events(calendar, section, meetings)->Ok_0).contains(event),
        stems(calendar, section, m, day, event),
    decreases meetings.len(),
{
    reveal(meeting_events);
    let rest = meetings.drop_last();
    let last = meetings.last();
    let days = meeting_days(calendar, last, bounded_pe(section.kind, section.section.meetings));
    let events = section_events(calendar, section, rest)->Ok_0;
    let more = events_on(calendar, section, last, days)->Ok_0;
    if m == last {
        let event = lemma_on_each_day(calendar, section, m, days, day);
        lemma_sum_contains(events, more, event);
        event
    } else {
        let k = choose|k: int| 0 <= k < meetings.len() && meetings[k] == m;
        assert(rest[k] == m);
        let event = lemma_section_covers(calendar, section, rest, m, day);
        lemma_sum_contains(events, more, event);
        event
    }
}

proof fn lemma_kept(events: Seq<EventView>, event: EventView) -> (kept: EventView)
    requires
        events.contains(event),
    ensures
        without_repeats(events).contains(kept),
        kept.uid == event.uid,
    decreases events.len(),
{
    let before = events.drop_last();
    let rest = without_repeats(before);
    let all = without_repeats(events);
    let k = choose|k: int| 0 <= k < events.len() && events[k] == event;
    if k < before.len() {
        assert(before[k] == event);
        let kept = lemma_kept(before, event);
        let i = choose|i: int| 0 <= i < rest.len() && rest[i] == kept;
        assert(all[i] == kept);
        kept
    } else {
        assert(all[all.len() - 1] == all.last());
        all.last()
    }
}

/// The events of an export show exactly what takes place: each shows a meeting of a chosen section
/// on a day on which it takes place, and each such meeting and day has an event with its identity.
pub proof fn law_export_shows_what_takes_place(
    calendar: &TermCalendar,
    chosen: &[ChosenSection],
    r: Result<ExportReport, Error>,
) -> (events: Seq<EventView>)
    requires
        call_ensures(export_ics, (calendar, chosen), r),
        r is Ok,
    ensures
        (r->Ok_0).ics@ == calendar_text(events),
        (r->Ok_0).event_count == events.len(),
        forall|event: EventView| #[trigger]
            events.contains(event) ==> exists|i: int, m: Meeting, day: int|
                0 <= i < chosen@.len() && #[trigger] takes_place(
                    calendar.deep_view(),
                    chosen.deep_view()[i],
                    m,
                    day,
                ) && shows_meeting(calendar.deep_view(), chosen.deep_view()[i], m, day, event),
        forall|i: int, m: Meeting, day: int|
            0 <= i < chosen@.len() && #[trigger] takes_place(
                calendar.deep_view(),
                chosen.deep_view()[i],
                m,
                day,
            ) ==> exists|event: EventView| #[trigger]
                events.contains(event) && event.uid == event_uid(
                    calendar.deep_view(),
                    chosen.deep_view()[i],
                    m,
                    day,
                ),
{
    let cal = calendar.deep_view();
    let views = chosen.deep_view();
    assert(views.len() == chosen@.len());
    let all = (collected(cal, views)->Ok_0).0;
    let events = arranged_events(all);
    lemma_arranged(all);
    lemma_collected(cal, views);
    assert forall|event: EventView| #[trigger] events.contains(event) implies exists|
        i: int,
        m: Meeting,
        day: int,
    |
        0 <= i < views.len() && #[trigger] takes_place(cal, views[i], m, day) && shows_meeting(
            cal,
            views[i],
            m,
            day,
            event,
        ) by {
        assert(all.contains(event));
        let (i, m, day) = lemma_shown_origin(cal, views, event);
        assert(takes_place(cal, views[i], m, day));
    }
    assert forall|i: int, m: Meeting, day: int|
        0 <= i < views.len() && #[trigger] takes_place(cal, views[i], m, day) implies exists|
        event: EventView,
    | #[trigger]
        events.contains(event) && event.uid == event_uid(cal, views[i], m, day) by {
        let event = lemma_placed_event(cal, views, i, m, day);
        let kept = lemma_kept(stable_sorted(all, event_le()), event);
        assert(events.contains(kept));
    }
    events
}

proof fn lemma_arranged(all: Seq<EventView>)
    ensures
        forall|event: EventView| #[trigger]
            arranged_events(all).contains(event) ==> all.contains(event),
        forall|event: EventView| #[trigger]
            stable_sorted(all, event_le()).contains(event) <==> all.contains(event),
{
    lemma_event_order();
    law_stable_sorted(all, event_le());
    lemma_sorted_elements(all, event_le());
    lemma_without_repeats(stable_sorted(all, event_le()));
}

proof fn lemma_shown_origin(
    calendar: TermCalendarView,
    chosen: Seq<ChosenSectionView>,
    event: EventView,
) -> (r: (int, Meeting, int))
    requires
        collected(calendar, chosen) is Ok,
        (collected(calendar, chosen)->Ok_0).0.contains(event),
    ensures
        0 <= r.0 < chosen.len(),
        takes_place(calendar, chosen[r.0], r.1, r.2),
        shows_meeting(calendar, chosen[r.0], r.1, r.2, event),
{
    reveal(own_events);
    lemma_contributed(calendar, chosen, event);
    lemma_collected(calendar, chosen);
    let i = choose|i: int|
        0 <= i < chosen.len() && own_events(calendar, #[trigger] chosen[i]).contains(event);
    let section = chosen[i];
    lemma_left_out(section);
    assert(exportable(calendar, chosen[i]));
    let (m, day) = lemma_section_shows(calendar, section, section.section.meetings, event);
    lemma_takes_place(calendar, section, m, day);
    (i, m, day)
}

proof fn lemma_placed_event(
    calendar: TermCalendarView,
    chosen: Seq<ChosenSectionView>,
    i: int,
    m: Meeting,
    day: int,
) -> (event: EventView)
    requires
        collected(calendar, chosen) is Ok,
        0 <= i < chosen.len(),
        takes_place(calendar, chosen[i], m, day),
    ensures
        (collected(calendar, chosen)->Ok_0).0.contains(event),
        event.uid == event_uid(calendar, chosen[i], m, day),
{
    reveal(own_events);
    lemma_collected(calendar, chosen);
    let section = chosen[i];
    lemma_left_out(section);
    assert(exportable(calendar, chosen[i]));
    lemma_takes_place(calendar, section, m, day);
    let event = lemma_section_covers(calendar, section, section.section.meetings, m, day);
    assert(own_events(calendar, chosen[i]).contains(event));
    lemma_contributed(calendar, chosen, event);
    event
}

/// The file of an export holds the start and the end of each of its events.
pub proof fn law_events_are_written(events: Seq<EventView>, k: int)
    requires
        0 <= k < events.len(),
    ensures
        occurs(
            "DTSTART:"@ + events[k].start + "\r\n"@ + "DTEND:"@ + events[k].end + "\r\n"@,
            calendar_text(events),
        ),
        occurs(property("SUMMARY"@, events[k].summary), calendar_text(events)),
        occurs(property("LOCATION"@, shown_location(events[k].location)), calendar_text(events)),
        occurs(property("DESCRIPTION"@, events[k].description), calendar_text(events)),
{
    let event = events[k];
    lemma_event_times_written(event);
    lemma_event_properties_written(event);
    lemma_event_within(events, k);
    let times = "DTSTART:"@ + event.start + "\r\n"@ + "DTEND:"@ + event.end + "\r\n"@;
    lemma_occurs_within(times, event_text(event), calendar_text(events));
    lemma_occurs_within(
        property("SUMMARY"@, event.summary),
        event_text(event),
        calendar_text(events),
    );
    lemma_occurs_within(
        property("LOCATION"@, shown_location(event.location)),
        event_text(event),
        calendar_text(events),
    );
    lemma_occurs_within(
        property("DESCRIPTION"@, event.description),
        event_text(event),
        calendar_text(events),
    );
}

/// A file begins and ends as a calendar does.
pub proof fn law_files_are_calendars(events: Seq<EventView>)
    ensures
        ({
            let text = calendar_text(events);
            let head = "BEGIN:VCALENDAR\r\n"@;
            let tail = "END:VCALENDAR\r\n"@;
            &&& text.len() >= head.len() + tail.len()
            &&& text.take(head.len() as int) == head
            &&& text.skip(text.len() - tail.len()) == tail
        }),
{
    reveal_strlit("BEGIN:VCALENDAR\r\n");
    reveal_strlit(
        "BEGIN:VCALENDAR\r\nVERSION:2.0\r\nPRODID:-//hydrant-optimizer//EN\r\nCALSCALE:GREGORIAN\r\nMETHOD:PUBLISH\r\n",
    );
    let text = calendar_text(events);
    let head = "BEGIN:VCALENDAR\r\n"@;
    let tail = "END:VCALENDAR\r\n"@;
    assert(text.take(head.len() as int) =~= head);
    assert(text.skip(text.len() - tail.len()) =~= tail);
}

proof fn lemma_occurs_within(part: Seq<char>, text: Seq<char>, whole: Seq<char>)
    requires
        occurs(part, text),
        occurs(text, whole),
    ensures
        occurs(part, whole),
{
    let (a, b) = choose|a: Seq<char>, b: Seq<char>| text == #[trigger] (a + part + b);
    let (c, d) = choose|c: Seq<char>, d: Seq<char>| whole == #[trigger] (c + text + d);
    let before = c + a;
    let behind = b + d;
    assert(whole =~= before + part + behind);
}

proof fn lemma_event_within(events: Seq<EventView>, k: int)
    requires
        0 <= k < events.len(),
    ensures
        occurs(event_text(events[k]), calendar_text(events)),
{
    let head = "BEGIN:VCALENDAR\r\nVERSION:2.0\r\nPRODID:-//hydrant-optimizer//EN\r\nCALSCALE:GREGORIAN\r\nMETHOD:PUBLISH\r\n"@;
    let tail = "END:VCALENDAR\r\n"@;
    lemma_event_among(events, k);
    assert(calendar_text(events) =~= head + events_text(events) + tail);
    assert(occurs(events_text(events), calendar_text(events)));
    lemma_occurs_within(event_text(events[k]), events_text(events), calendar_text(events));
}

proof fn lemma_event_among(events: Seq<EventView>, k: int)
    requires
        0 <= k < events.len(),
    ensures
        occurs(event_text(events[k]), events_text(events)),
    decreases events.len(),
{
    let rest = events.drop_last();
    let before = events_text(rest);
    let text = event_text(events.last());
    let none = Seq::<char>::empty();
    if k < rest.len() {
        lemma_event_among(rest, k);
        assert(rest[k] == events[k]);
        assert(events_text(events) =~= none + before + text);
        assert(occurs(before, events_text(events)));
        lemma_occurs_within(event_text(events[k]), before, events_text(events));
    } else {
        assert(events_text(events) =~= before + text + none);
    }
}

proof fn lemma_event_times_written(event: EventView)
    ensures
        occurs(
            "DTSTART:"@ + event.start + "\r\n"@ + "DTEND:"@ + event.end + "\r\n"@,
            event_text(event),
        ),
{
    let times = "DTSTART:"@ + event.start + "\r\n"@ + "DTEND:"@ + event.end + "\r\n"@;
    let before = "BEGIN:VEVENT\r\n"@ + property("UID"@, event.uid)
        + "DTSTAMP:19700101T000000Z\r\n"@;
    let behind = property("SUMMARY"@, event.summary) + property(
        "LOCATION"@,
        shown_location(event.location),
    ) + property("DESCRIPTION"@, event.description) + "END:VEVENT\r\n"@;
    assert(event_text(event) =~= before + times + behind);
}

proof fn lemma_event_properties_written(event: EventView)
    ensures
        occurs(property("SUMMARY"@, event.summary), event_text(event)),
        occurs(property("LOCATION"@, shown_location(event.location)), event_text(event)),
        occurs(property("DESCRIPTION"@, event.description), event_text(event)),
{
    let before = "BEGIN:VEVENT\r\n"@ + property("UID"@, event.uid)
        + "DTSTAMP:19700101T000000Z\r\n"@ + "DTSTART:"@ + event.start + "\r\n"@ + "DTEND:"@
        + event.end + "\r\n"@;
    let a = property("SUMMARY"@, event.summary);
    let b = property("LOCATION"@, shown_location(event.location));
    let c = property("DESCRIPTION"@, event.description);
    let end = "END:VEVENT\r\n"@;
    assert(event_text(event) =~= before + a + (b + c + end));
    assert(event_text(event) =~= (before + a) + b + (c + end));
    assert(event_text(event) =~= (before + a + b) + c + end);
}

/// Why a section is left out of an export.
pub open spec fn is_why(section: ChosenSectionView, reason: Seq<char>) -> bool {
    if section.section.unsupported_reason is Some {
        reason == section.section.unsupported_reason->0
    } else if section.section.meetings.len() == 0 {
        reason == "no known meeting times"@
    } else if is_pe(section.kind) {
        reason == "PE meetings require complete start/end date bounds"@
    } else {
        reason == "date-limited meetings are not exported by the weekly calendar exporter"@
    }
}

/// Some meeting of a section takes place on some day.
pub open spec fn ever_takes_place(calendar: TermCalendarView, section: ChosenSectionView) -> bool {
    exists|m: Meeting, day: int| takes_place(calendar, section, m, day)
}

/// Why an export has no event of a section: it is left out for a reason, or it has no day.
pub open spec fn is_cause(
    calendar: TermCalendarView,
    section: ChosenSectionView,
    reason: Seq<char>,
) -> bool {
    if left_out(section) {
        is_why(section, reason)
    } else {
        !ever_takes_place(calendar, section) && reason
            == "no class dates matched the term calendar"@
    }
}

/// What an export says of a section that it has no event of.
pub open spec fn is_left_out_notice(
    calendar: TermCalendarView,
    section: ChosenSectionView,
    notice: Seq<char>,
) -> bool {
    exists|reason: Seq<char>| #[trigger]
        is_cause(calendar, section, reason) && notice == "omitted "@ + section.course_id + " "@
            + section.kind + " "@ + section.section.label + ": "@ + reason
}

proof fn lemma_why(section: ChosenSectionView)
    requires
        left_out(section),
    ensures
        omission(section) is Some,
        is_why(section, omission(section)->0),
{
    lemma_left_out(section);
    lemma_is_pe(section.kind);
}

proof fn lemma_name(section: ChosenSectionView, reason: Seq<char>)
    ensures
        omitted_notice(section, reason) == "omitted "@ + section.course_id + " "@ + section.kind
            + " "@ + section.section.label + ": "@ + reason,
{
    assert(omitted_notice(section, reason) =~= "omitted "@ + section.course_id + " "@
        + section.kind + " "@ + section.section.label + ": "@ + reason);
}

proof fn lemma_no_events(calendar: TermCalendarView, section: ChosenSectionView)
    requires
        !left_out(section),
        exportable(calendar, section),
    ensures
        own_events(calendar, section).len() == 0 <==> !ever_takes_place(calendar, section),
{
    reveal(own_events);
    lemma_left_out(section);
    let meetings = section.section.meetings;
    let events = own_events(calendar, section);
    if ever_takes_place(calendar, section) {
        let (m, day) = choose|m: Meeting, day: int| takes_place(calendar, section, m, day);
        lemma_takes_place(calendar, section, m, day);
        let event = lemma_section_covers(calendar, section, meetings, m, day);
        assert(events.contains(event));
    }
    if events.len() > 0 {
        assert(events.contains(events[0]));
        let (m, day) = lemma_section_shows(calendar, section, meetings, events[0]);
        lemma_takes_place(calendar, section, m, day);
        assert(takes_place(calendar, section, m, day));
    }
}

proof fn lemma_own_notice(
    calendar: TermCalendarView,
    section: ChosenSectionView,
    notice: Seq<char>,
)
    requires
        exportable(calendar, section),
    ensures
        own_notices(calendar, section).contains(notice) <==> is_left_out_notice(
            calendar,
            section,
            notice,
        ),
{
    reveal(own_notices);
    lemma_left_out(section);
    let own = own_notices(calendar, section);
    let reason = if left_out(section) {
        omission(section)->0
    } else {
        "no class dates matched the term calendar"@
    };
    lemma_name(section, reason);
    if left_out(section) {
        lemma_why(section);
    } else {
        lemma_no_events(calendar, section);
    }
    if own.len() > 0 {
        assert(own[0] == omitted_notice(section, reason));
        assert(is_cause(calendar, section, reason));
    }
    if own.contains(notice) {
        let k = choose|k: int| 0 <= k < own.len() && own[k] == notice;
        assert(k == 0);
    }
    if is_left_out_notice(calendar, section, notice) {
        let other = choose|reason: Seq<char>| #[trigger]
            is_cause(calendar, section, reason) && notice == "omitted "@ + section.course_id + " "@
                + section.kind + " "@ + section.section.label + ": "@ + reason;
        assert(other == reason);
        assert(own.len() == 1);
        assert(own[0] == notice);
    }
}

/// An export says of each section that is left out that it is, and why, and nothing else.
pub proof fn law_export_says_what_is_left_out(
    calendar: &TermCalendar,
    chosen: &[ChosenSection],
    r: Result<ExportReport, Error>,
    notice: Seq<char>,
)
    requires
        call_ensures(export_ics, (calendar, chosen), r),
        r is Ok,
    ensures
        (r->Ok_0).deep_view().notices.contains(notice) <==> exists|i: int|
            0 <= i < chosen@.len() && is_left_out_notice(
                calendar.deep_view(),
                #[trigger] chosen.deep_view()[i],
                notice,
            ),
{
    let cal = calendar.deep_view();
    let views = chosen.deep_view();
    let said = (collected(cal, views)->Ok_0).1;
    assert(views.len() == chosen@.len());
    lemma_distinct_ascending::<String>(said);
    lemma_collected(cal, views);
    lemma_said(cal, views, notice);
    assert forall|i: int| 0 <= i < views.len() implies (own_notices(
        cal,
        #[trigger] views[i],
    ).contains(notice) <==> is_left_out_notice(cal, views[i], notice)) by {
        assert(exportable(cal, views[i]));
        lemma_own_notice(cal, views[i], notice);
    }
    if said.contains(notice) {
        let i = choose|i: int|
            0 <= i < views.len() && own_notices(cal, #[trigger] views[i]).contains(notice);
        assert(is_left_out_notice(cal, views[i], notice));
    }
    if exists|i: int| 0 <= i < views.len() && is_left_out_notice(cal, #[trigger] views[i], notice) {
        let i = choose|i: int|
            0 <= i < views.len() && is_left_out_notice(cal, #[trigger] views[i], notice);
        assert(own_notices(cal, views[i]).contains(notice));
    }
}

/// The calendar file for a timetable is that of the sections that stand for it, over the calendar
/// of its term; what it says has what the search left open too.
pub proof fn law_calendar_is_of_the_timetable(
    dataset: &Dataset,
    solution: &Solution,
    members: &OrderedMap<String, String>,
    r: Result<ExportReport, Error>,
    notice: Seq<char>,
)
    requires
        call_ensures(calendar_report, (dataset, solution, members), r),
        r is Ok,
    ensures
        ({
            let view = dataset.deep_view();
            let chosen = sections_chosen(view, solution.deep_view(), members.deep_view());
            &&& chosen is Ok
            &&& view.calendar is Some
            &&& exported(view.calendar->0, chosen->Ok_0) is Ok
            &&& (r->Ok_0).ics@ == (exported(view.calendar->0, chosen->Ok_0)->Ok_0).ics
            &&& (r->Ok_0).event_count == (exported(
                view.calendar->0,
                chosen->Ok_0,
            )->Ok_0).event_count
            &&& (r->Ok_0).deep_view().notices.contains(notice) <==> (exported(
                view.calendar->0,
                chosen->Ok_0,
            )->Ok_0).notices.contains(notice) || solution.deep_view().unresolved.contains(notice)
        }),
{
    let view = dataset.deep_view();
    let chosen = sections_chosen(view, solution.deep_view(), members.deep_view())->Ok_0;
    let report = exported(view.calendar->0, chosen)->Ok_0;
    let open = solution.deep_view().unresolved;
    lemma_sum_contains(report.notices, open, notice);
    lemma_distinct_ascending::<String>(report.notices + open);
    assert((r->Ok_0).deep_view().ics == (r->Ok_0).ics@);
}

} // verus!
