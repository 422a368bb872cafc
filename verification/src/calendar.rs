//! Calendar export with dated New York events.
use sha2::{Digest, Sha256};
use vstd::prelude::*;
use crate::color::{component_label, label_of};
use crate::date::{
    date_text, localize, new_york_time, stamp_text, Date, LocalTime, LocalTimeView, LAST_DAY,
};
use crate::error::{outcome, Error};
use crate::json::{json_quoted, json_string};
use crate::model::{
    any_date_limited, bounded_pe, bounded_pe_meetings, effective_weekday, is_pe_kind,
    meeting_fault, meeting_valid, meetings_have_date_limits, pe_kind, taught, window_end,
    window_start, ChosenSection, ChosenSectionView, Meeting, TermCalendar, TermCalendarView,
};
use crate::optimizer::{calendar_fault, check_calendar, lemma_meetings_view};
use crate::order::{distinct_ascending, sort_by, stable_sorted, OrderedSet, Rank};
use crate::text::{chars_of, decimal, decimal_text, text_before, trim, trimmed};

verus! {

/// The SHA-256 digest of a text in UTF-8, in hexadecimal.
pub uninterp spec fn sha256_hex(text: Seq<char>) -> Seq<char>;

/// A lower case hexadecimal digit.
pub open spec fn hex_digit(c: char) -> bool {
    '0' <= c <= '9' || 'a' <= c <= 'f'
}

/// `sha2::Sha256::digest` of the bytes of a text, formatted as 64 lower case hexadecimal digits.
#[verifier::external_body]
pub(crate) fn digest_hex(text: &str) -> (r: String)
    ensures
        r@ == sha256_hex(text@),
        r@.len() == 64,
        forall|i: int| 0 <= i < r@.len() ==> hex_digit(#[trigger] r@[i]),
{
    format!("{:x}", Sha256::digest(text.as_bytes()))
}

/// One class meeting on one day.
struct Event {
    uid: String,
    start: String,
    end: String,
    summary: String,
    location: String,
    description: String,
}

#[verifier::ext_equal]
pub struct EventView {
    pub uid: Seq<char>,
    pub start: Seq<char>,
    pub end: Seq<char>,
    pub summary: Seq<char>,
    pub location: Seq<char>,
    pub description: Seq<char>,
}

impl DeepView for Event {
    type V = EventView;

    closed spec fn deep_view(&self) -> EventView {
        EventView {
            uid: self.uid@,
            start: self.start@,
            end: self.end@,
            summary: self.summary@,
            location: self.location@,
            description: self.description@,
        }
    }
}

/// The days from `first` to `last` that follow the timetable of `weekday`.
pub open spec fn teaching_days(
    calendar: TermCalendarView,
    weekday: int,
    first: int,
    last: int,
) -> Seq<int>
    decreases last - first + 1,
{
    if last < first {
        Seq::empty()
    } else {
        let rest = teaching_days(calendar, weekday, first, last - 1);
        if taught(calendar, last, weekday) {
            rest.push(last)
        } else {
            rest
        }
    }
}

/// The days of a meeting; its own dates count only if it is bounded.
pub open spec fn meeting_days(calendar: TermCalendarView, m: Meeting, bounded: bool) -> Seq<int> {
    if bounded {
        teaching_days(
            calendar,
            m.weekday as int,
            window_start(calendar, m),
            window_end(calendar, m),
        )
    } else {
        teaching_days(calendar, m.weekday as int, calendar.start, calendar.end)
    }
}

fn matching_dates(calendar: &TermCalendar, meeting: &Meeting, bounded: bool) -> (r: Vec<Date>)
    ensures
        r.deep_view() == meeting_days(calendar.deep_view(), *meeting, bounded),
{
    let ghost view = calendar.deep_view();
    let first = match meeting.start_date {
        Some(date) => if bounded {
            date.max(calendar.start)
        } else {
            calendar.start
        },
        None => calendar.start,
    };
    let end = match meeting.end_date {
        Some(date) => if bounded {
            date.min(calendar.end)
        } else {
            calendar.end
        },
        None => calendar.end,
    };
    let limit: i32 = end.days();
    let mut dates: Vec<Date> = Vec::new();
    let mut date = first;
    assert(dates.deep_view() =~= teaching_days(
        view,
        meeting.weekday as int,
        first.number(),
        first.number() - 1,
    ));
    while !date.is_after(&end)
        invariant
            view == calendar.deep_view(),
            limit == end.number() <= LAST_DAY,
            first.number() <= date.number(),
            date.number() <= end.number() + 1 || date.number() == first.number(),
            dates.deep_view() == teaching_days(
                view,
                meeting.weekday as int,
                first.number(),
                date.number() - 1,
            ),
            meeting_days(view, *meeting, bounded) == teaching_days(
                view,
                meeting.weekday as int,
                first.number(),
                end.number(),
            ),
        decreases end.number() - date.number() + 1,
    {
        let ghost so_far = dates.deep_view();
        if !calendar.holidays.contains(&date) && effective_weekday(calendar, date)
            == meeting.weekday {
            dates.push(date);
            assert(dates.deep_view() =~= so_far.push(date.number()));
        }
        assert(dates.deep_view() == teaching_days(
            view,
            meeting.weekday as int,
            first.number(),
            date.number(),
        ));
        match date.next() {
            Some(next) => {
                date = next;
            },
            None => {
                return dates;
            },
        }
    }
    proof {
        if end.number() < first.number() {
            assert(dates.deep_view() =~= teaching_days(
                view,
                meeting.weekday as int,
                first.number(),
                end.number(),
            ));
        }
    }
    dates
}

/// The one instant of a local time in New York, in UTC as `YYYYMMDDTHHMMSSZ`.
pub open spec fn utc_text(time: LocalTimeView) -> Result<Seq<char>, Seq<char>> {
    match time {
        LocalTimeView::Single(day, second) => Ok(stamp_text(day, second)),
        LocalTimeView::Ambiguous => Err("local time is ambiguous in America/New_York"@),
        LocalTimeView::Missing => Err("local time does not exist in America/New_York"@),
    }
}

/// Writes the one instant of a local time in New York.
pub fn write_utc(time: LocalTime) -> (r: Result<String, Error>)
    ensures
        outcome(r) == utc_text(time.deep_view()),
{
    match time {
        LocalTime::Single(date, second) => Ok(date.stamp(second)),
        LocalTime::Ambiguous => Err(Error::new("local time is ambiguous in America/New_York")),
        LocalTime::Missing => Err(Error::new("local time does not exist in America/New_York")),
    }
}

/// The instant of a minute of a day in New York; minute 1440 is midnight at its end.
pub open spec fn utc_stamp(day: int, minute: int) -> Result<Seq<char>, Seq<char>> {
    if minute < 1440 {
        utc_text(new_york_time(day, minute / 60, minute % 60))
    } else if day < LAST_DAY {
        utc_text(new_york_time(day + 1, 0, 0))
    } else {
        Err("midnight extends beyond supported calendar range"@)
    }
}

fn local_to_utc(date: Date, minute: u16) -> (r: Result<String, Error>)
    requires
        minute <= 1440,
    ensures
        outcome(r) == utc_stamp(date.number(), minute as int),
{
    if minute < 1440 {
        return write_utc(localize(date, (minute / 60) as u32, (minute % 60) as u32));
    }
    match date.next() {
        Some(next) => write_utc(localize(next, 0, 0)),
        None => Err(Error::new("midnight extends beyond supported calendar range")),
    }
}

/// The time of an event, as the end of a JSON array.
pub open spec fn occurrence(m: Meeting, day: int) -> Seq<char> {
    ",\""@ + date_text(day) + "\","@ + decimal(m.weekday as nat) + ","@ + decimal(
        m.start_minute as nat,
    ) + ","@ + decimal(m.end_minute as nat) + "]"@
}

fn occurrence_text(meeting: &Meeting, date: Date) -> (r: String)
    ensures
        r@ == occurrence(*meeting, date.number()),
{
    let mut text = ",\"".to_owned();
    text.append(date.text().as_str());
    text.append("\",");
    text.append(decimal_text(meeting.weekday as u64).as_str());
    text.append(",");
    text.append(decimal_text(meeting.start_minute as u64).as_str());
    text.append(",");
    text.append(decimal_text(meeting.end_minute as u64).as_str());
    text.append("]");
    text
}

/// The term of an event, as the start of a JSON array.
pub open spec fn term_dates(calendar: TermCalendarView) -> Seq<char> {
    "[\""@ + date_text(calendar.start) + "\",\""@ + date_text(calendar.end) + "\","@
}

/// What identifies an event, as a JSON array.
pub open spec fn uid_source(
    calendar: TermCalendarView,
    section: ChosenSectionView,
    m: Meeting,
    day: int,
) -> Seq<char> {
    term_dates(calendar) + json_quoted(section.course_id) + ","@ + json_quoted(section.kind) + ","@
        + json_quoted(section.section.id) + occurrence(m, day)
}

pub open spec fn event_uid(
    calendar: TermCalendarView,
    section: ChosenSectionView,
    m: Meeting,
    day: int,
) -> Seq<char> {
    sha256_hex(uid_source(calendar, section, m, day)) + "@hydrant-optimizer"@
}

fn stable_uid(
    calendar: &TermCalendar,
    section: &ChosenSection,
    meeting: &Meeting,
    date: Date,
) -> (r: String)
    ensures
        r@ == event_uid(calendar.deep_view(), section.deep_view(), *meeting, date.number()),
{
    let mut source = "[\"".to_owned();
    source.append(calendar.start.text().as_str());
    source.append("\",\"");
    source.append(calendar.end.text().as_str());
    source.append("\",");
    source.append(json_string(section.course_id.as_str()).as_str());
    source.append(",");
    source.append(json_string(section.kind.as_str()).as_str());
    source.append(",");
    source.append(json_string(section.section.id.as_str()).as_str());
    source.append(occurrence_text(meeting, date).as_str());
    let mut uid = digest_hex(source.as_str());
    uid.append("@hydrant-optimizer");
    uid
}

/// The course, kind and label of a section.
pub open spec fn section_name(section: ChosenSectionView) -> Seq<char> {
    section.course_id + " "@ + section.kind + " "@ + section.section.label
}

fn section_label(section: &ChosenSection) -> (r: String)
    ensures
        r@ == section_name(section.deep_view()),
{
    let mut name = section.course_id.clone();
    name.append(" ");
    name.append(section.kind.as_str());
    name.append(" ");
    name.append(section.section.label.as_str());
    name
}

/// The event of a meeting on a day.
pub open spec fn event_on(
    calendar: TermCalendarView,
    section: ChosenSectionView,
    m: Meeting,
    day: int,
) -> Result<EventView, Seq<char>> {
    match utc_stamp(day, m.start_minute as int) {
        Err(fault) => Err(
            "cannot localize start of "@ + section_name(section) + " on "@ + date_text(day) + ": "@
                + fault,
        ),
        Ok(start) => match utc_stamp(day, m.end_minute as int) {
            Err(fault) => Err(
                "cannot localize end of "@ + section_name(section) + " on "@ + date_text(day)
                    + ": "@ + fault,
            ),
            Ok(end) => Ok(
                EventView {
                    uid: event_uid(calendar, section, m, day),
                    start,
                    end,
                    summary: section.course_id + " "@ + label_of(section.kind),
                    location: section.section.room,
                    description: section.course_title + "\n"@ + section.course_id + " "@
                        + section.kind + " "@ + section.section.label,
                },
            ),
        },
    }
}

/// A failure to localize: `cannot localize <end> of <section> on <date>: <error>`.
fn not_localized(error: Error, end: &str, section: &ChosenSection, date: Date) -> (r: Error)
    ensures
        r.deep_view() == end@ + section_name(section.deep_view()) + " on "@ + date_text(
            date.number(),
        ) + ": "@ + error.deep_view(),
{
    let mut context = end.to_owned();
    context.append(section_label(section).as_str());
    context.append(" on ");
    context.append(date.text().as_str());
    error.within(context.as_str())
}

fn make_event(
    calendar: &TermCalendar,
    section: &ChosenSection,
    meeting: &Meeting,
    date: Date,
) -> (r: Result<Event, Error>)
    requires
        meeting_valid(*meeting),
    ensures
        outcome(r) == event_on(
            calendar.deep_view(),
            section.deep_view(),
            *meeting,
            date.number(),
        ),
{
    let start = match local_to_utc(date, meeting.start_minute) {
        Ok(stamp) => stamp,
        Err(error) => {
            return Err(not_localized(error, "cannot localize start of ", section, date));
        },
    };
    let end = match local_to_utc(date, meeting.end_minute) {
        Ok(stamp) => stamp,
        Err(error) => {
            return Err(not_localized(error, "cannot localize end of ", section, date));
        },
    };
    let mut summary = section.course_id.clone();
    summary.append(" ");
    summary.append(component_label(section.kind.as_str()).as_str());
    let mut description = section.course_title.clone();
    description.append("\n");
    description.append(section.course_id.as_str());
    description.append(" ");
    description.append(section.kind.as_str());
    description.append(" ");
    description.append(section.section.label.as_str());
    Ok(
        Event {
            uid: stable_uid(calendar, section, meeting, date),
            start,
            end,
            summary,
            location: section.section.room.clone(),
            description,
        },
    )
}

/// The events of a meeting on the given days.
pub open spec fn events_on(
    calendar: TermCalendarView,
    section: ChosenSectionView,
    m: Meeting,
    days: Seq<int>,
) -> Result<Seq<EventView>, Seq<char>>
    decreases days.len(),
{
    if days.len() == 0 {
        Ok(Seq::empty())
    } else {
        match events_on(calendar, section, m, days.drop_last()) {
            Err(fault) => Err(fault),
            Ok(events) => match event_on(calendar, section, m, days.last()) {
                Err(fault) => Err(fault),
                Ok(event) => Ok(events.push(event)),
            },
        }
    }
}

/// The events of one meeting of a section.
#[verifier::opaque]
pub open spec fn meeting_events(
    calendar: TermCalendarView,
    section: ChosenSectionView,
    m: Meeting,
) -> Result<Seq<EventView>, Seq<char>> {
    match meeting_fault(m) {
        Some(fault) => Err("invalid meeting for "@ + section_name(section) + ": "@ + fault),
        None => events_on(
            calendar,
            section,
            m,
            meeting_days(calendar, m, bounded_pe(section.kind, section.section.meetings)),
        ),
    }
}

/// The events of a section's meetings.
pub open spec fn section_events(
    calendar: TermCalendarView,
    section: ChosenSectionView,
    meetings: Seq<Meeting>,
) -> Result<Seq<EventView>, Seq<char>>
    decreases meetings.len(),
{
    if meetings.len() == 0 {
        Ok(Seq::empty())
    } else {
        match section_events(calendar, section, meetings.drop_last()) {
            Err(fault) => Err(fault),
            Ok(events) => match meeting_events(calendar, section, meetings.last()) {
                Err(fault) => Err(fault),
                Ok(more) => Ok(events + more),
            },
        }
    }
}

/// Why a section is left out of the export, if it is.
pub open spec fn omission(section: ChosenSectionView) -> Option<Seq<char>> {
    let option = section.section;
    let bounded = bounded_pe(section.kind, option.meetings);
    if option.unsupported_reason is Some {
        option.unsupported_reason
    } else if option.meetings.len() == 0 {
        Some("no known meeting times"@)
    } else if pe_kind(section.kind) && !bounded {
        Some("PE meetings require complete start/end date bounds"@)
    } else if any_date_limited(option.meetings) && !bounded {
        Some("date-limited meetings are not exported by the weekly calendar exporter"@)
    } else {
        None
    }
}

pub open spec fn omitted_notice(section: ChosenSectionView, reason: Seq<char>) -> Seq<char> {
    "omitted "@ + section_name(section) + ": "@ + reason
}

/// The events and notices of the chosen sections, in order.
pub open spec fn collected(
    calendar: TermCalendarView,
    chosen: Seq<ChosenSectionView>,
) -> Result<(Seq<EventView>, Seq<Seq<char>>), Seq<char>>
    decreases chosen.len(),
{
    if chosen.len() == 0 {
        Ok((Seq::empty(), Seq::empty()))
    } else {
        let section = chosen.last();
        match collected(calendar, chosen.drop_last()) {
            Err(fault) => Err(fault),
            Ok((events, notices)) => match omission(section) {
                Some(reason) => Ok((events, notices.push(omitted_notice(section, reason)))),
                None => match section_events(calendar, section, section.section.meetings) {
                    Err(fault) => Err(fault),
                    Ok(more) => if more.len() == 0 {
                        Ok(
                            (
                                events,
                                notices.push(
                                    omitted_notice(
                                        section,
                                        "no class dates matched the term calendar"@,
                                    ),
                                ),
                            ),
                        )
                    } else {
                        Ok((events + more, notices))
                    },
                },
            },
        }
    }
}

/// The order of events: by start, end and identity.
pub open spec fn event_le() -> spec_fn(EventView, EventView) -> bool {
    |a: EventView, b: EventView|
        if a.start != b.start {
            text_before(a.start, b.start)
        } else if a.end != b.end {
            text_before(a.end, b.end)
        } else {
            !text_before(b.uid, a.uid)
        }
}

/// The events without those that repeat the one before.
pub open spec fn without_repeats(events: Seq<EventView>) -> Seq<EventView>
    decreases events.len(),
{
    if events.len() == 0 {
        Seq::empty()
    } else {
        let rest = without_repeats(events.drop_last());
        if rest.len() > 0 && rest.last().uid == events.last().uid {
            rest
        } else {
            rest.push(events.last())
        }
    }
}

/// The number of bytes of a character in UTF-8.
pub open spec fn utf8_width(c: char) -> int {
    if (c as u32) < 0x80 {
        1
    } else if (c as u32) < 0x800 {
        2
    } else if (c as u32) < 0x10000 {
        3
    } else {
        4
    }
}

/// The number of bytes of a text in UTF-8.
pub open spec fn octets(s: Seq<char>) -> int
    decreases s.len(),
{
    if s.len() == 0 {
        0
    } else {
        octets(s.drop_last()) + utf8_width(s.last())
    }
}

/// A text value with its special characters escaped; every line break becomes `\n`.
pub open spec fn escaped(s: Seq<char>) -> Seq<char>
    decreases s.len(),
{
    if s.len() == 0 {
        Seq::empty()
    } else if s.len() > 1 && s[0] == '\r' && s[1] == '\n' {
        seq!['\\', 'n'] + escaped(s.skip(2))
    } else if s[0] == '\r' || s[0] == '\n' {
        seq!['\\', 'n'] + escaped(s.skip(1))
    } else if s[0] == '\\' || s[0] == ';' || s[0] == ',' {
        seq!['\\', s[0]] + escaped(s.skip(1))
    } else {
        seq![s[0]] + escaped(s.skip(1))
    }
}

/// A content line broken into lines of at most 75 octets; every line but the first starts with
/// a space.
pub open spec fn folded(line: Seq<char>) -> Seq<Seq<char>>
    decreases line.len(),
{
    if line.len() == 0 {
        seq![Seq::empty()]
    } else {
        let before = folded(line.drop_last());
        let c = line.last();
        if octets(before.last()) + utf8_width(c) > 75 {
            before.push(seq![' ', c])
        } else {
            before.drop_last().push(before.last().push(c))
        }
    }
}

/// Lines, each ended by a line break.
pub open spec fn lines_text(lines: Seq<Seq<char>>) -> Seq<char>
    decreases lines.len(),
{
    if lines.len() == 0 {
        Seq::empty()
    } else {
        lines_text(lines.drop_last()) + lines.last() + seq!['\r', '\n']
    }
}

/// A property of an event.
pub open spec fn property(name: Seq<char>, value: Seq<char>) -> Seq<char> {
    lines_text(folded(name + ":"@ + escaped(value)))
}

pub open spec fn shown_location(room: Seq<char>) -> Seq<char> {
    if trimmed(room).len() == 0 {
        "TBA"@
    } else {
        room
    }
}

pub open spec fn event_text(event: EventView) -> Seq<char> {
    "BEGIN:VEVENT\r\n"@ + property("UID"@, event.uid) + "DTSTAMP:19700101T000000Z\r\n"@
        + "DTSTART:"@ + event.start + "\r\n"@ + "DTEND:"@ + event.end + "\r\n"@ + property(
        "SUMMARY"@,
        event.summary,
    ) + property("LOCATION"@, shown_location(event.location)) + property(
        "DESCRIPTION"@,
        event.description,
    ) + "END:VEVENT\r\n"@
}

pub open spec fn events_text(events: Seq<EventView>) -> Seq<char>
    decreases events.len(),
{
    if events.len() == 0 {
        Seq::empty()
    } else {
        events_text(events.drop_last()) + event_text(events.last())
    }
}

/// The calendar file with the given events.
pub open spec fn calendar_text(events: Seq<EventView>) -> Seq<char> {
    "BEGIN:VCALENDAR\r\nVERSION:2.0\r\nPRODID:-//hydrant-optimizer//EN\r\nCALSCALE:GREGORIAN\r\nMETHOD:PUBLISH\r\n"@
        + events_text(events) + "END:VCALENDAR\r\n"@
}

fn utf8_len(c: char) -> (r: usize)
    ensures
        r == utf8_width(c),
{
    let n: u32 = c as u32;
    if n < 0x80 {
        1
    } else if n < 0x800 {
        2
    } else if n < 0x10000 {
        3
    } else {
        4
    }
}

fn escape_text(value: &str) -> (r: String)
    ensures
        r@ == escaped(value@),
{
    let chars = chars_of(value);
    let mut out = String::new();
    let mut index: usize = 0;
    assert(value@.skip(0) =~= value@);
    assert(out@ + escaped(value@) =~= escaped(value@));
    while index < chars.len()
        invariant
            chars@ == value@,
            index <= chars@.len(),
            out@ + escaped(value@.skip(index as int)) == escaped(value@),
        decreases chars@.len() - index,
    {
        let ghost rest = value@.skip(index as int);
        let ghost before = out@;
        let c = chars[index];
        proof {
            assert(rest[0] == c);
            assert(rest.skip(1) =~= value@.skip(index + 1));
            if rest.len() > 1 {
                assert(rest.skip(2) =~= value@.skip(index + 2));
            }
        }
        if c == '\r' && index + 1 < chars.len() && chars[index + 1] == '\n' {
            out.push('\\');
            out.push('n');
            assert(out@ =~= before + seq!['\\', 'n']);
            assert(out@ + escaped(value@.skip(index + 2)) =~= before + escaped(rest));
            index += 2;
        } else {
            if c == '\r' || c == '\n' {
                out.push('\\');
                out.push('n');
                assert(out@ =~= before + seq!['\\', 'n']);
            } else if c == '\\' || c == ';' || c == ',' {
                out.push('\\');
                out.push(c);
                assert(out@ =~= before + seq!['\\', c]);
            } else {
                out.push(c);
                assert(out@ =~= before + seq![c]);
            }
            assert(out@ + escaped(value@.skip(index + 1)) =~= before + escaped(rest));
            index += 1;
        }
    }
    assert(value@.skip(index as int) =~= Seq::<char>::empty());
    assert(out@ + escaped(value@.skip(index as int)) =~= out@);
    out
}

pub proof fn lemma_folded_nonempty(line: Seq<char>)
    ensures
        folded(line).len() > 0,
    decreases line.len(),
{
    if line.len() > 0 {
        lemma_folded_nonempty(line.drop_last());
    }
}

/// Adds a property, folded at 75 octets and never inside a character.
fn push_property(text: &mut String, name: &str, value: &str)
    ensures
        final(text)@ == old(text)@ + property(name@, value@),
{
    let ghost before = text@;
    let mut line = name.to_owned();
    line.append(":");
    line.append(escape_text(value).as_str());
    let chars = chars_of(line.as_str());
    let mut width: usize = 0;
    let mut index: usize = 0;
    proof {
        assert(line@.take(0) =~= Seq::empty());
        reveal_with_fuel(lines_text, 2);
        assert(folded(line@.take(0)).drop_last() =~= Seq::empty());
        assert(text@ =~= before + lines_text(folded(line@.take(0)).drop_last()) + folded(
            line@.take(0),
        ).last());
    }
    while index < chars.len()
        invariant
            chars@ == line@,
            index <= chars@.len(),
            width == octets(folded(line@.take(index as int)).last()),
            width <= 75,
            text@ == before + lines_text(folded(line@.take(index as int)).drop_last()) + folded(
                line@.take(index as int),
            ).last(),
        decreases chars@.len() - index,
    {
        let c = chars[index];
        let ghost lines = folded(line@.take(index as int));
        let ghost next = folded(line@.take(index + 1));
        let ghost so_far = text@;
        proof {
            lemma_folded_nonempty(line@.take(index as int));
            assert(line@.take(index + 1).drop_last() =~= line@.take(index as int));
        }
        if width + utf8_len(c) > 75 {
            text.push('\r');
            text.push('\n');
            text.push(' ');
            text.push(c);
            proof {
                assert(next.drop_last() =~= lines);
                reveal_with_fuel(octets, 3);
                assert(seq![' ', c].drop_last() =~= seq![' ']);
                assert(octets(seq![' ', c]) == 1 + utf8_width(c));
                assert(text@ =~= so_far + seq!['\r', '\n'] + seq![' ', c]);
                assert(text@ =~= before + lines_text(lines) + seq![' ', c]);
            }
            width = 1 + utf8_len(c);
        } else {
            text.push(c);
            proof {
                assert(next.drop_last() =~= lines.drop_last());
                assert(next.last().drop_last() =~= lines.last());
                assert(text@ =~= before + lines_text(next.drop_last()) + next.last());
            }
            width += utf8_len(c);
        }
        index += 1;
    }
    proof {
        lemma_folded_nonempty(line@);
        assert(line@.take(index as int) =~= line@);
    }
    let ghost so_far = text@;
    text.push('\r');
    text.push('\n');
    assert(text@ =~= so_far + seq!['\r', '\n']);
    assert(text@ =~= before + lines_text(folded(line@)));
}

/// Every line of a folded content line holds at most 75 octets, and taking the leading space of
/// every line but the first away gives the content line back.
pub proof fn law_folding(line: Seq<char>)
    ensures
        forall|i: int| 0 <= i < folded(line).len() ==> octets(#[trigger] folded(line)[i]) <= 75,
        unfolded(folded(line)) == line,
    decreases line.len(),
{
    lemma_folded_nonempty(line);
    if line.len() == 0 {
        reveal_with_fuel(unfolded, 2);
        assert(unfolded(folded(line)) =~= line);
    } else {
        let rest = line.drop_last();
        let c = line.last();
        let before = folded(rest);
        let lines = folded(line);
        law_folding(rest);
        lemma_folded_nonempty(rest);
        assert forall|i: int| 0 <= i < lines.len() implies octets(#[trigger] lines[i]) <= 75 by {
            if i < before.len() - 1 {
                assert(lines[i] == before[i]);
            }
            assert(octets(before[before.len() - 1]) <= 75);
            if octets(before.last()) + utf8_width(c) > 75 {
                if i == before.len() - 1 {
                    assert(lines[i] == before[i]);
                }
                reveal_with_fuel(octets, 3);
                assert(seq![' ', c].drop_last() =~= seq![' ']);
            } else {
                assert(before.last().push(c).drop_last() =~= before.last());
            }
        }
        assert(line =~= rest + seq![c]);
        if octets(before.last()) + utf8_width(c) > 75 {
            assert(lines.drop_last() =~= before);
            assert(lines.last() == seq![' ', c]);
            assert(seq![' ', c].drop_first() =~= seq![c]);
            assert(unfolded(lines) == unfolded(before) + seq![c]);
        } else if before.len() == 1 {
            assert(lines.len() == 1);
            assert(lines[0] == before[0].push(c));
            assert(unfolded(lines) =~= line);
        } else {
            assert(lines.drop_last() =~= before.drop_last());
            assert(before.last().len() > 0) by {
                lemma_continuation(rest, before.len() - 1);
            }
            assert(before.last().push(c).drop_first() =~= before.last().drop_first().push(c));
            assert(unfolded(lines) =~= line);
        }
    }
}

/// The content line that folded lines stand for.
pub open spec fn unfolded(lines: Seq<Seq<char>>) -> Seq<char>
    decreases lines.len(),
{
    if lines.len() == 0 {
        Seq::empty()
    } else if lines.len() == 1 {
        lines[0]
    } else {
        unfolded(lines.drop_last()) + lines.last().drop_first()
    }
}

/// Every line but the first starts with a space.
pub proof fn lemma_continuation(line: Seq<char>, i: int)
    requires
        0 < i < folded(line).len(),
    ensures
        folded(line)[i].len() > 0,
        folded(line)[i][0] == ' ',
    decreases line.len(),
{
    if line.len() > 0 {
        let before = folded(line.drop_last());
        let lines = folded(line);
        lemma_folded_nonempty(line.drop_last());
        if i < before.len() {
            lemma_continuation(line.drop_last(), i);
        }
        if i < before.len() - 1 {
            assert(lines[i] == before[i]);
        }
    }
}

/// An escaped text has no line break, so that a value cannot end its property.
pub proof fn law_escaped_has_no_line_break(s: Seq<char>)
    ensures
        forall|i: int|
            0 <= i < escaped(s).len() ==> #[trigger] escaped(s)[i] != '\r' && escaped(s)[i] != '\n',
    decreases s.len(),
{
    if s.len() > 0 {
        if s.len() > 1 {
            law_escaped_has_no_line_break(s.skip(2));
        }
        law_escaped_has_no_line_break(s.skip(1));
        let out = escaped(s);
        let pair = s.len() > 1 && s[0] == '\r' && s[1] == '\n';
        let rest = escaped(s.skip(if pair {
            2
        } else {
            1
        }));
        let head = out.len() - rest.len();
        assert forall|i: int| 0 <= i < out.len() implies #[trigger] out[i] != '\r' && out[i]
            != '\n' by {
            if i >= head {
                assert(out[i] == rest[i - head]);
            }
        }
    }
}

fn render_calendar(events: &Vec<Event>) -> (r: String)
    ensures
        r@ == calendar_text(events.deep_view()),
{
    let ghost views = events.deep_view();
    let mut text = "BEGIN:VCALENDAR\r\nVERSION:2.0\r\nPRODID:-//hydrant-optimizer//EN\r\nCALSCALE:GREGORIAN\r\nMETHOD:PUBLISH\r\n".to_owned();
    let ghost head = text@;
    let mut index: usize = 0;
    assert(views.take(0) =~= Seq::empty());
    assert(text@ =~= head + events_text(views.take(0)));
    while index < events.len()
        invariant
            index <= events@.len(),
            views == events.deep_view(),
            text@ == head + events_text(views.take(index as int)),
        decreases events@.len() - index,
    {
        let event = &events[index];
        let ghost before = text@;
        assert(views.take(index + 1).drop_last() =~= views.take(index as int));
        assert(views.take(index + 1).last() == event.deep_view());
        let body = render_event(event);
        text.append(body.as_str());
        assert(text@ =~= head + events_text(views.take(index + 1)));
        index += 1;
    }
    assert(views.take(index as int) =~= views);
    text.append("END:VCALENDAR\r\n");
    text
}

fn render_event(event: &Event) -> (r: String)
    ensures
        r@ == event_text(event.deep_view()),
{
    let mut text = "BEGIN:VEVENT\r\n".to_owned();
    push_property(&mut text, "UID", event.uid.as_str());
    text.append("DTSTAMP:19700101T000000Z\r\n");
    text.append("DTSTART:");
    text.append(event.start.as_str());
    text.append("\r\n");
    text.append("DTEND:");
    text.append(event.end.as_str());
    text.append("\r\n");
    push_property(&mut text, "SUMMARY", event.summary.as_str());
    // Calendars show the location consistently if it is always there.
    if trim(event.location.as_str()).as_str().is_empty() {
        push_property(&mut text, "LOCATION", "TBA");
    } else {
        push_property(&mut text, "LOCATION", event.location.as_str());
    }
    push_property(&mut text, "DESCRIPTION", event.description.as_str());
    text.append("END:VEVENT\r\n");
    text
}

/// What an export produced.
#[derive(Clone, Debug)]
pub struct ExportReport {
    pub ics: String,
    pub event_count: usize,
    pub notices: Vec<String>,
    /// Actual file written: the caller's hint plus a Unix-time suffix, e.g.
    /// `schedule-1757424600.ics`; empty until a file is written.
    pub path: String,
}

#[verifier::ext_equal]
pub struct ExportReportView {
    pub ics: Seq<char>,
    pub event_count: int,
    pub notices: Seq<Seq<char>>,
    pub path: Seq<char>,
}

impl DeepView for ExportReport {
    type V = ExportReportView;

    open spec fn deep_view(&self) -> ExportReportView {
        ExportReportView {
            ics: self.ics@,
            event_count: self.event_count as int,
            notices: self.notices.deep_view(),
            path: self.path@,
        }
    }
}

/// The events of an export, in order.
pub open spec fn arranged_events(events: Seq<EventView>) -> Seq<EventView> {
    without_repeats(stable_sorted(events, event_le()))
}

/// What an export of the chosen sections produces.
pub open spec fn exported(calendar: TermCalendarView, chosen: Seq<ChosenSectionView>) -> Result<
    ExportReportView,
    Seq<char>,
> {
    match calendar_fault(calendar) {
        Some(fault) => Err(fault),
        None => match collected(calendar, chosen) {
            Err(fault) => Err(fault),
            Ok((events, notices)) => Ok(
                ExportReportView {
                    ics: calendar_text(arranged_events(events)),
                    event_count: arranged_events(events).len() as int,
                    notices: distinct_ascending::<String>(notices),
                    path: Seq::empty(),
                },
            ),
        },
    }
}

proof fn lemma_events_on_prefix(
    calendar: TermCalendarView,
    section: ChosenSectionView,
    m: Meeting,
    days: Seq<int>,
    n: int,
)
    requires
        0 <= n <= days.len(),
        events_on(calendar, section, m, days.take(n)) is Err,
    ensures
        events_on(calendar, section, m, days) == events_on(calendar, section, m, days.take(n)),
    decreases days.len() - n,
{
    if n == days.len() {
        assert(days.take(n) =~= days);
    } else {
        assert(days.take(n + 1).drop_last() =~= days.take(n));
        lemma_events_on_prefix(calendar, section, m, days, n + 1);
    }
}

proof fn lemma_section_events_prefix(
    calendar: TermCalendarView,
    section: ChosenSectionView,
    meetings: Seq<Meeting>,
    n: int,
)
    requires
        0 <= n <= meetings.len(),
        section_events(calendar, section, meetings.take(n)) is Err,
    ensures
        section_events(calendar, section, meetings) == section_events(
            calendar,
            section,
            meetings.take(n),
        ),
    decreases meetings.len() - n,
{
    if n == meetings.len() {
        assert(meetings.take(n) =~= meetings);
    } else {
        assert(meetings.take(n + 1).drop_last() =~= meetings.take(n));
        lemma_section_events_prefix(calendar, section, meetings, n + 1);
    }
}

proof fn lemma_collected_prefix(
    calendar: TermCalendarView,
    chosen: Seq<ChosenSectionView>,
    n: int,
)
    requires
        0 <= n <= chosen.len(),
        collected(calendar, chosen.take(n)) is Err,
    ensures
        collected(calendar, chosen) == collected(calendar, chosen.take(n)),
    decreases chosen.len() - n,
{
    if n == chosen.len() {
        assert(chosen.take(n) =~= chosen);
    } else {
        assert(chosen.take(n + 1).drop_last() =~= chosen.take(n));
        lemma_collected_prefix(calendar, chosen, n + 1);
    }
}

/// Adds the events of a meeting on the given days.
fn push_events(
    calendar: &TermCalendar,
    section: &ChosenSection,
    meeting: &Meeting,
    dates: &Vec<Date>,
    events: &mut Vec<Event>,
) -> (r: Result<(), Error>)
    requires
        meeting_valid(*meeting),
    ensures
        match events_on(
            calendar.deep_view(),
            section.deep_view(),
            *meeting,
            dates.deep_view(),
        ) {
            Err(fault) => r is Err && (r->Err_0).deep_view() == fault,
            Ok(more) => r is Ok && final(events).deep_view() == old(events).deep_view() + more,
        },
{
    let ghost cal = calendar.deep_view();
    let ghost sec = section.deep_view();
    let ghost days = dates.deep_view();
    let ghost before = events.deep_view();
    let ghost mut more = Seq::<EventView>::empty();
    let mut index: usize = 0;
    assert(days.take(0) =~= Seq::empty());
    assert(events.deep_view() =~= before + more);
    while index < dates.len()
        invariant
            meeting_valid(*meeting),
            index <= dates@.len(),
            cal == calendar.deep_view(),
            sec == section.deep_view(),
            days == dates.deep_view(),
            events_on(cal, sec, *meeting, days.take(index as int)) == Ok::<
                Seq<EventView>,
                Seq<char>,
            >(more),
            events.deep_view() == before + more,
        decreases dates@.len() - index,
    {
        proof {
            assert(days.take(index + 1).drop_last() =~= days.take(index as int));
            assert(days.take(index + 1).last() == dates@[index as int].number());
            if events_on(cal, sec, *meeting, days.take(index + 1)) is Err {
                lemma_events_on_prefix(cal, sec, *meeting, days, index + 1);
            }
        }
        let ghost so_far = events.deep_view();
        match make_event(calendar, section, meeting, dates[index]) {
            Ok(event) => {
                events.push(event);
                proof {
                    assert(events.deep_view() =~= so_far.push(event.deep_view()));
                    more = more.push(event.deep_view());
                    assert(events.deep_view() =~= before + more);
                }
            },
            Err(error) => {
                return Err(error);
            },
        }
        index += 1;
    }
    assert(days.take(index as int) =~= days);
    Ok(())
}

/// Adds the events of one meeting of a section.
fn push_meeting(
    calendar: &TermCalendar,
    section: &ChosenSection,
    meeting: &Meeting,
    bounded: bool,
    events: &mut Vec<Event>,
) -> (r: Result<(), Error>)
    requires
        bounded == bounded_pe(
            section.deep_view().kind,
            section.deep_view().section.meetings,
        ),
    ensures
        match meeting_events(calendar.deep_view(), section.deep_view(), *meeting) {
            Err(fault) => r is Err && (r->Err_0).deep_view() == fault,
            Ok(more) => r is Ok && final(events).deep_view() == old(events).deep_view() + more,
        },
{
    proof {
        reveal(meeting_events);
    }
    match meeting.validate() {
        Ok(_) => {},
        Err(error) => {
            let mut context = "invalid meeting for ".to_owned();
            context.append(section_label(section).as_str());
            return Err(error.within(context.as_str()));
        },
    }
    let dates = matching_dates(calendar, meeting, bounded);
    push_events(calendar, section, meeting, &dates, events)
}

/// Adds the events of a section.
fn push_section(calendar: &TermCalendar, section: &ChosenSection, events: &mut Vec<Event>) -> (r:
    Result<(), Error>)
    ensures
        match section_events(
            calendar.deep_view(),
            section.deep_view(),
            section.deep_view().section.meetings,
        ) {
            Err(fault) => r is Err && (r->Err_0).deep_view() == fault,
            Ok(more) => r is Ok && final(events).deep_view() == old(events).deep_view() + more,
        },
{
    let ghost cal = calendar.deep_view();
    let ghost sec = section.deep_view();
    let meetings = &section.section.meetings;
    proof {
        lemma_meetings_view(*meetings);
    }
    let bounded = bounded_pe_meetings(section.kind.as_str(), meetings.as_slice());
    let ghost before = events.deep_view();
    let ghost mut more = Seq::<EventView>::empty();
    let mut index: usize = 0;
    assert(meetings@.take(0) =~= Seq::empty());
    assert(events.deep_view() =~= before + more);
    while index < meetings.len()
        invariant
            index <= meetings@.len(),
            cal == calendar.deep_view(),
            sec == section.deep_view(),
            meetings@ == sec.section.meetings,
            meetings == section.section.meetings,
            bounded == bounded_pe(sec.kind, sec.section.meetings),
            section_events(cal, sec, meetings@.take(index as int)) == Ok::<
                Seq<EventView>,
                Seq<char>,
            >(more),
            events.deep_view() == before + more,
        decreases meetings@.len() - index,
    {
        let meeting = &meetings[index];
        proof {
            assert(meetings@.take(index + 1).drop_last() =~= meetings@.take(index as int));
            if section_events(cal, sec, meetings@.take(index + 1)) is Err {
                lemma_section_events_prefix(cal, sec, meetings@, index + 1);
            }
        }
        match push_meeting(calendar, section, meeting, bounded, events) {
            Ok(_) => {},
            Err(error) => {
                return Err(error);
            },
        }
        proof {
            let found = meeting_events(cal, sec, *meeting)->Ok_0;
            assert((before + more) + found =~= before + (more + found));
            more = more + found;
        }
        index += 1;
    }
    assert(meetings@.take(index as int) =~= meetings@);
    Ok(())
}

/// Why a section is left out of the export, if it is.
fn omission_reason(section: &ChosenSection) -> (r: Option<String>)
    ensures
        r.deep_view() == omission(section.deep_view()),
{
    let option = &section.section;
    proof {
        lemma_meetings_view(option.meetings);
    }
    if let Some(reason) = &option.unsupported_reason {
        return Some(reason.clone());
    }
    if option.meetings.len() == 0 {
        return Some("no known meeting times".to_owned());
    }
    let bounded = bounded_pe_meetings(section.kind.as_str(), option.meetings.as_slice());
    if is_pe_kind(section.kind.as_str()) && !bounded {
        return Some("PE meetings require complete start/end date bounds".to_owned());
    }
    if meetings_have_date_limits(option.meetings.as_slice()) && !bounded {
        return Some(
            "date-limited meetings are not exported by the weekly calendar exporter".to_owned(),
        );
    }
    None
}

fn omitted(section: &ChosenSection, reason: &str) -> (r: String)
    ensures
        r@ == omitted_notice(section.deep_view(), reason@),
{
    let mut notice = "omitted ".to_owned();
    notice.append(section_label(section).as_str());
    notice.append(": ");
    notice.append(reason);
    notice
}

fn event_may_precede(a: &Event, b: &Event) -> (r: bool)
    ensures
        r == event_le()(a.deep_view(), b.deep_view()),
{
    if a.start != b.start {
        a.start.is_before(&b.start)
    } else if a.end != b.end {
        a.end.is_before(&b.end)
    } else {
        !b.uid.is_before(&a.uid)
    }
}

fn drop_repeats(events: Vec<Event>) -> (r: Vec<Event>)
    ensures
        r.deep_view() == without_repeats(events.deep_view()),
{
    let ghost all = events.deep_view();
    let mut reversed: Vec<Event> = Vec::new();
    let mut events = events;
    let ghost given = events@;
    while events.len() > 0
        invariant
            events@.len() + reversed@.len() == given.len(),
            events@ == given.take(events@.len() as int),
            forall|i: int|
                0 <= i < reversed@.len() ==> #[trigger] reversed@[i] == given[given.len() - 1 - i],
        decreases events@.len(),
    {
        let ghost n = events@.len() - 1;
        let event = events.pop().unwrap();
        assert(events@ =~= given.take(n));
        assert(event == given[n]);
        reversed.push(event);
    }
    let mut out: Vec<Event> = Vec::new();
    assert(out.deep_view() =~= without_repeats(all.take(0)));
    while reversed.len() > 0
        invariant
            reversed@.len() <= given.len(),
            all.len() == given.len(),
            forall|i: int| 0 <= i < all.len() ==> #[trigger] all[i] == given[i].deep_view(),
            forall|i: int|
                0 <= i < reversed@.len() ==> #[trigger] reversed@[i] == given[given.len() - 1 - i],
            out.deep_view() == without_repeats(all.take(given.len() - reversed@.len())),
        decreases reversed@.len(),
    {
        let ghost n = given.len() - reversed@.len();
        let ghost so_far = out.deep_view();
        let event = reversed.pop().unwrap();
        proof {
            assert(event == given[n]);
            assert(all.take(n + 1).drop_last() =~= all.take(n));
            assert(all.take(n + 1).last() == event.deep_view());
            assert(out.deep_view().len() == out@.len());
        }
        let repeats = if out.len() > 0 {
            assert(so_far.last() == out@[out@.len() - 1].deep_view());
            out[out.len() - 1].uid == event.uid
        } else {
            false
        };
        if !repeats {
            out.push(event);
            assert(out.deep_view() =~= so_far.push(event.deep_view()));
        }
    }
    assert(all.take(given.len() as int) =~= all);
    out
}

/// Exports the chosen sections as one event per class meeting.
pub fn export_ics(calendar: &TermCalendar, chosen: &[ChosenSection]) -> (r: Result<
    ExportReport,
    Error,
>)
    ensures
        outcome(r) == exported(calendar.deep_view(), chosen.deep_view()),
{
    match check_calendar(calendar) {
        Ok(_) => {},
        Err(error) => {
            return Err(error);
        },
    }
    let ghost cal = calendar.deep_view();
    let ghost views = chosen.deep_view();
    let mut notices: Vec<String> = Vec::new();
    let mut events: Vec<Event> = Vec::new();
    let mut index: usize = 0;
    proof {
        assert(views.take(0) =~= Seq::empty());
        assert(events.deep_view() =~= Seq::empty());
        assert(notices.deep_view() =~= Seq::empty());
    }
    while index < chosen.len()
        invariant
            index <= chosen@.len(),
            cal == calendar.deep_view(),
            views == chosen.deep_view(),
            calendar_fault(cal) is None,
            collected(cal, views.take(index as int)) == Ok::<
                (Seq<EventView>, Seq<Seq<char>>),
                Seq<char>,
            >((events.deep_view(), notices.deep_view())),
        decreases chosen@.len() - index,
    {
        let section = &chosen[index];
        let ghost said = notices.deep_view();
        let ghost known = events.deep_view();
        proof {
            assert(views.take(index + 1).drop_last() =~= views.take(index as int));
            assert(views.take(index + 1).last() == section.deep_view());
            if collected(cal, views.take(index + 1)) is Err {
                lemma_collected_prefix(cal, views, index + 1);
            }
        }
        match omission_reason(section) {
            Some(reason) => {
                notices.push(omitted(section, reason.as_str()));
                assert(notices.deep_view() =~= said.push(
                    omitted_notice(section.deep_view(), reason@),
                ));
            },
            None => {
                let before = events.len();
                match push_section(calendar, section, &mut events) {
                    Ok(_) => {},
                    Err(error) => {
                        return Err(error);
                    },
                }
                assert(events.deep_view().len() == events@.len());
                assert(known.len() == before);
                if events.len() == before {
                    notices.push(omitted(section, "no class dates matched the term calendar"));
                    proof {
                        assert(notices.deep_view() =~= said.push(
                            omitted_notice(
                                section.deep_view(),
                                "no class dates matched the term calendar"@,
                            ),
                        ));
                        assert(events.deep_view() =~= known);
                    }
                }
            },
        }
        index += 1;
    }
    assert(views.take(index as int) =~= views);
    let events = drop_repeats(sort_by(events, event_may_precede, Ghost(event_le())));
    let notices = OrderedSet::from_vec(notices).into_vec();
    assert(events.deep_view().len() == events@.len());
    let report = ExportReport {
        ics: render_calendar(&events),
        event_count: events.len(),
        notices,
        path: String::new(),
    };
    assert(report.path@ =~= Seq::<char>::empty());
    Ok(report)
}

} // verus!
