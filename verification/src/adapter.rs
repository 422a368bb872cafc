//! From the published catalog to courses, requirements and sections.
use vstd::prelude::*;
use crate::calendar::{digest_hex, sha256_hex};
use crate::date::{
    civil, civil_of, date_of, date_text, day_number, lemma_civil_of, lemma_date_of, read_date, Date,
};
use crate::error::{outcome, Error};
use crate::json::{
    json_quoted, json_string, json_value, member, parse_json, text_member, Json, JsonView,
};
use crate::model::{
    meeting_fault, Course, CourseView, Dataset, DatasetView, Meeting, Requirement, RequirementView,
    SectionOption, SectionOptionView, Source, TermCalendar, TermCalendarView,
};
use crate::optimizer::{id_le, lemma_meetings_view, same_meetings};
use crate::order::{
    distinct_ascending, lookup, map_insert, set_insert, sort_by, stable_sorted, OrderedMap,
    OrderedSet, Rank,
};
use crate::storage::contains_text;
use crate::text::{
    decimal, decimal_text, lower_case, lowercase, same_text, trim, trimmed, upper_first,
};

verus! {

/// The member values that are objects with a term name; the first one with the expected name.
pub open spec fn find_term(members: Seq<(Seq<char>, JsonView)>, expected: Seq<char>) -> Option<
    JsonView,
>
    decreases members.len(),
{
    if members.len() == 0 {
        None
    } else if members[0].1 is Object && text_member(members[0].1, "urlName"@) == Some(expected) {
        Some(members[0].1)
    } else {
        find_term(members.drop_first(), expected)
    }
}

/// The term metadata that belongs to a catalog.
pub open spec fn term_for(catalog_term: JsonView, term: JsonView) -> Result<JsonView, Seq<char>> {
    let expected = text_member(catalog_term, "urlName"@);
    let own = if catalog_term is Object {
        Ok(catalog_term)
    } else {
        Err("catalog is missing termInfo and no matching term metadata was supplied"@)
    };
    if term is Null {
        own
    } else if member(term, "urlName"@) is Some {
        match text_member(term, "urlName"@) {
            None => Err("term metadata urlName is not a string"@),
            Some(url) => if expected is Some && url != expected->0 {
                Err("term metadata "@ + url + " does not match catalog term "@ + expected->0)
            } else {
                Ok(term)
            },
        }
    } else if expected is Some {
        let name = expected->0;
        let semester = member(term, "semester"@);
        let earlier = member(term, "preSemester"@);
        if semester is Some && text_member(semester->0, "urlName"@) == Some(name) {
            Ok(semester->0)
        } else if earlier is Some && text_member(earlier->0, "urlName"@) == Some(name) {
            Ok(earlier->0)
        } else {
            let found = match term {
                JsonView::Object(members) => find_term(members, name),
                _ => None,
            };
            match found {
                Some(candidate) => Ok(candidate),
                None => Err("term metadata does not contain catalog term "@ + name),
            }
        }
    } else {
        match member(term, "semester"@) {
            Some(candidate) => Ok(candidate),
            None => own,
        }
    }
}

/// Whether the member with the term's name has the expected value.
fn is_term(candidate: &Json, expected: &String) -> (r: bool)
    ensures
        r == (text_member(candidate.deep_view(), "urlName"@) == Some(expected@)),
{
    match candidate.text_of("urlName") {
        Some(url) => url == *expected,
        None => false,
    }
}

fn find_term_member<'a>(members: &'a Vec<(String, Json)>, expected: &String) -> (r: Option<
    &'a Json,
>)
    ensures
        r.deep_view() == find_term(members.deep_view(), expected@),
{
    let ghost all = members.deep_view();
    let mut index: usize = 0;
    assert(all.skip(0) =~= all);
    while index < members.len()
        invariant
            index <= members@.len(),
            all == members.deep_view(),
            find_term(all, expected@) == find_term(all.skip(index as int), expected@),
        decreases members@.len() - index,
    {
        let candidate = &members[index].1;
        assert(all.skip(index as int)[0] == members@[index as int].deep_view());
        assert(all.skip(index as int).drop_first() =~= all.skip(index + 1));
        let object = match candidate {
            Json::Object(_) => true,
            _ => false,
        };
        assert(object == (candidate.deep_view() is Object));
        if object && is_term(candidate, expected) {
            return Some(candidate);
        }
        index += 1;
    }
    None
}

fn select_term_info<'a>(catalog_term: &'a Json, term: &'a Json) -> (r: Result<&'a Json, Error>)
    ensures
        outcome(r) == term_for(catalog_term.deep_view(), term.deep_view()),
{
    let catalog_url = catalog_term.text_of("urlName");
    let null = match term {
        Json::Null => true,
        _ => false,
    };
    assert(null == (term.deep_view() is Null));
    if !null {
        if term.get("urlName").is_some() {
            let url = match term.text_of("urlName") {
                Some(url) => url,
                None => {
                    return Err(Error::new("term metadata urlName is not a string"));
                },
            };
            if let Some(expected) = &catalog_url {
                if url != *expected {
                    let mut message = "term metadata ".to_owned();
                    message.append(url.as_str());
                    message.append(" does not match catalog term ");
                    message.append(expected.as_str());
                    return Err(Error { message });
                }
            }
            return Ok(term);
        }
        if let Some(expected) = &catalog_url {
            if let Some(candidate) = term.get("semester") {
                if is_term(candidate, expected) {
                    return Ok(candidate);
                }
            }
            if let Some(candidate) = term.get("preSemester") {
                if is_term(candidate, expected) {
                    return Ok(candidate);
                }
            }
            if let Json::Object(members) = term {
                assert(members.deep_view() =~= term.deep_view()->Object_0);
                if let Some(candidate) = find_term_member(members, expected) {
                    return Ok(candidate);
                }
            }
            let mut message = "term metadata does not contain catalog term ".to_owned();
            message.append(expected.as_str());
            return Err(Error { message });
        }
        if let Some(candidate) = term.get("semester") {
            return Ok(candidate);
        }
    }
    match catalog_term {
        Json::Object(_) => Ok(catalog_term),
        _ => Err(
            Error::new("catalog is missing termInfo and no matching term metadata was supplied"),
        ),
    }
}

/// The date in a member that has to be there.
pub open spec fn date_member(json: JsonView, name: Seq<char>) -> Result<int, Seq<char>> {
    match text_member(json, name) {
        None => Err("missing "@ + name),
        Some(text) => match read_date(text) {
            Ok(day) => Ok(day),
            Err(fault) => Err("invalid "@ + name + ": "@ + text + ": "@ + fault),
        },
    }
}

/// The error `invalid <name>: <text>: <error>`.
fn invalid_date(error: Error, name: &str, text: &str) -> (r: Error)
    ensures
        r.deep_view() == "invalid "@ + name@ + ": "@ + text@ + ": "@ + error.deep_view(),
{
    let mut context = "invalid ".to_owned();
    context.append(name);
    context.append(": ");
    context.append(text);
    error.within(context.as_str())
}

fn parse_date_field(json: &Json, name: &str) -> (r: Result<Date, Error>)
    ensures
        outcome(r) == date_member(json.deep_view(), name@),
{
    let text = match json.text_of(name) {
        Some(text) => text,
        None => {
            let mut message = "missing ".to_owned();
            message.append(name);
            return Err(Error { message });
        },
    };
    match Date::parse(text.as_str()) {
        Ok(date) => Ok(date),
        Err(error) => Err(invalid_date(error, name, text.as_str())),
    }
}

/// The date in a member that may be missing or null.
pub open spec fn optional_date_member(json: JsonView, name: Seq<char>) -> Result<
    Option<int>,
    Seq<char>,
> {
    match member(json, name) {
        None => Ok(None),
        Some(JsonView::Null) => Ok(None),
        Some(JsonView::Text(text)) => match read_date(text) {
            Ok(day) => Ok(Some(day)),
            Err(fault) => Err("invalid "@ + name + ": "@ + text + ": "@ + fault),
        },
        Some(_) => Err(name + " must be a date string"@),
    }
}

fn optional_date_field(json: &Json, name: &str) -> (r: Result<Option<Date>, Error>)
    ensures
        outcome(r) == optional_date_member(json.deep_view(), name@),
{
    match json.get(name) {
        None => Ok(None),
        Some(Json::Null) => Ok(None),
        Some(Json::Text(text)) => match Date::parse(text.as_str()) {
            Ok(date) => Ok(Some(date)),
            Err(error) => Err(invalid_date(error, name, text.as_str())),
        },
        Some(_) => {
            let mut message = name.to_owned();
            message.append(" must be a date string");
            Err(Error { message })
        },
    }
}

/// The holidays in a list.
pub open spec fn holidays_in(items: Seq<JsonView>) -> Result<Seq<int>, Seq<char>>
    decreases items.len(),
{
    if items.len() == 0 {
        Ok(Seq::empty())
    } else {
        match holidays_in(items.drop_last()) {
            Err(fault) => Err(fault),
            Ok(days) => match items.last() {
                JsonView::Text(text) => match read_date(text) {
                    Ok(day) => Ok(set_insert::<Date>(days, day)),
                    Err(fault) => Err("invalid holiday date "@ + text + ": "@ + fault),
                },
                _ => Err("holidayDates entries must be strings"@),
            },
        }
    }
}

pub open spec fn holidays_of(term: JsonView) -> Result<Seq<int>, Seq<char>> {
    match member(term, "holidayDates"@) {
        None => Ok(Seq::empty()),
        Some(JsonView::Array(items)) => holidays_in(items),
        Some(_) => Err("holidayDates must be an array"@),
    }
}

fn add_holiday(days: OrderedSet<Date>, item: &Json) -> (r: Result<OrderedSet<Date>, Error>)
    ensures
        outcome(r) == (match item.deep_view() {
            JsonView::Text(text) => match read_date(text) {
                Ok(day) => Ok(set_insert::<Date>(days.deep_view(), day)),
                Err(fault) => Err("invalid holiday date "@ + text + ": "@ + fault),
            },
            _ => Err("holidayDates entries must be strings"@),
        }),
{
    match item {
        Json::Text(text) => match Date::parse(text.as_str()) {
            Ok(date) => {
                let mut days = days;
                days.insert(date);
                Ok(days)
            },
            Err(error) => {
                let mut context = "invalid holiday date ".to_owned();
                context.append(text.as_str());
                Err(error.within(context.as_str()))
            },
        },
        _ => Err(Error::new("holidayDates entries must be strings")),
    }
}

fn parse_holidays(term: &Json) -> (r: Result<OrderedSet<Date>, Error>)
    ensures
        outcome(r) == holidays_of(term.deep_view()),
{
    let items = match term.get("holidayDates") {
        None => {
            return Ok(OrderedSet::new());
        },
        Some(value) => match value.items() {
            Some(items) => items,
            None => {
                return Err(Error::new("holidayDates must be an array"));
            },
        },
    };
    let ghost all = items.deep_view();
    let mut days: Result<OrderedSet<Date>, Error> = Ok(OrderedSet::new());
    let mut index: usize = 0;
    assert(all.take(0) =~= Seq::empty());
    while index < items.len()
        invariant
            index <= items@.len(),
            all == items.deep_view(),
            outcome(days) == holidays_in(all.take(index as int)),
        decreases items@.len() - index,
    {
        assert(all.take(index + 1).drop_last() =~= all.take(index as int));
        assert(all.take(index + 1).last() == items@[index as int].deep_view());
        days = match days {
            Ok(days) => add_holiday(days, &items[index]),
            Err(error) => Err(error),
        };
        index += 1;
    }
    assert(all.take(index as int) =~= all);
    days
}

/// One more day that follows the timetable of a weekday.
pub open spec fn with_alternate(days: Seq<(int, u8)>, day: int, weekday: u8) -> Result<
    Seq<(int, u8)>,
    Seq<char>,
> {
    match lookup(days, day) {
        Some(known) => if known == weekday {
            Ok(map_insert::<Date, u8>(days, day, weekday))
        } else {
            Err("conflicting alternate weekday schedules for "@ + date_text(day))
        },
        None => Ok(map_insert::<Date, u8>(days, day, weekday)),
    }
}

/// The days in a list follow the timetable of a weekday.
pub open spec fn with_alternates(
    days: Seq<(int, u8)>,
    name: Seq<char>,
    weekday: u8,
    items: Seq<JsonView>,
) -> Result<Seq<(int, u8)>, Seq<char>>
    decreases items.len(),
{
    if items.len() == 0 {
        Ok(days)
    } else {
        match with_alternates(days, name, weekday, items.drop_last()) {
            Err(fault) => Err(fault),
            Ok(days) => match items.last() {
                JsonView::Text(text) => match read_date(text) {
                    Ok(day) => with_alternate(days, day, weekday),
                    Err(fault) => Err("invalid "@ + name + ": "@ + fault),
                },
                _ => Err(name + " entries must be strings"@),
            },
        }
    }
}

/// The days in a member follow the timetable of a weekday.
pub open spec fn with_alternate_member(
    days: Seq<(int, u8)>,
    term: JsonView,
    name: Seq<char>,
    weekday: u8,
) -> Result<Seq<(int, u8)>, Seq<char>> {
    match member(term, name) {
        None => Ok(days),
        Some(JsonView::Null) => Ok(days),
        Some(JsonView::Text(text)) => match read_date(text) {
            Ok(day) => with_alternate(days, day, weekday),
            Err(fault) => Err("invalid "@ + name + ": "@ + fault),
        },
        Some(JsonView::Array(items)) => with_alternates(days, name, weekday, items),
        Some(_) => Err(name + " must be a date string or array of date strings"@),
    }
}

fn insert_alternate_day(days: OrderedMap<Date, u8>, date: Date, weekday: u8) -> (r: Result<
    OrderedMap<Date, u8>,
    Error,
>)
    ensures
        outcome(r) == with_alternate(days.deep_view(), date.number(), weekday),
{
    if let Some(known) = days.get(&date) {
        if *known != weekday {
            let mut message = "conflicting alternate weekday schedules for ".to_owned();
            message.append(date.text().as_str());
            return Err(Error { message });
        }
    }
    let mut days = days;
    days.insert(date, weekday);
    Ok(days)
}

/// The error `invalid <name>: <error>`.
fn invalid(error: Error, name: &str) -> (r: Error)
    ensures
        r.deep_view() == "invalid "@ + name@ + ": "@ + error.deep_view(),
{
    let mut context = "invalid ".to_owned();
    context.append(name);
    error.within(context.as_str())
}

fn add_alternate_items(
    days: OrderedMap<Date, u8>,
    name: &str,
    weekday: u8,
    items: &Vec<Json>,
) -> (r: Result<OrderedMap<Date, u8>, Error>)
    ensures
        outcome(r) == with_alternates(days.deep_view(), name@, weekday, items.deep_view()),
{
    let ghost start = days.deep_view();
    let ghost all = items.deep_view();
    let mut result: Result<OrderedMap<Date, u8>, Error> = Ok(days);
    let mut index: usize = 0;
    assert(all.take(0) =~= Seq::empty());
    while index < items.len()
        invariant
            index <= items@.len(),
            all == items.deep_view(),
            outcome(result) == with_alternates(start, name@, weekday, all.take(index as int)),
        decreases items@.len() - index,
    {
        assert(all.take(index + 1).drop_last() =~= all.take(index as int));
        assert(all.take(index + 1).last() == items@[index as int].deep_view());
        result = match result {
            Ok(days) => match &items[index] {
                Json::Text(text) => match Date::parse(text.as_str()) {
                    Ok(date) => insert_alternate_day(days, date, weekday),
                    Err(error) => Err(invalid(error, name)),
                },
                _ => {
                    let mut message = name.to_owned();
                    message.append(" entries must be strings");
                    Err(Error { message })
                },
            },
            Err(error) => Err(error),
        };
        index += 1;
    }
    assert(all.take(index as int) =~= all);
    result
}

fn add_alternate_day(days: OrderedMap<Date, u8>, term: &Json, name: &str, weekday: u8) -> (r:
    Result<OrderedMap<Date, u8>, Error>)
    ensures
        outcome(r) == with_alternate_member(days.deep_view(), term.deep_view(), name@, weekday),
{
    match term.get(name) {
        None => Ok(days),
        Some(Json::Null) => Ok(days),
        Some(Json::Text(text)) => match Date::parse(text.as_str()) {
            Ok(date) => insert_alternate_day(days, date, weekday),
            Err(error) => Err(invalid(error, name)),
        },
        Some(value) => match value.items() {
            Some(items) => add_alternate_items(days, name, weekday, items),
            None => {
                let mut message = name.to_owned();
                message.append(" must be a date string or array of date strings");
                Err(Error { message })
            },
        },
    }
}

/// The member with the days that follow the timetable of a weekday.
pub open spec fn schedule_member(weekday: int) -> Seq<char> {
    if weekday == 0 {
        "mondayScheduleDate"@
    } else if weekday == 1 {
        "tuesdayScheduleDate"@
    } else if weekday == 2 {
        "wednesdayScheduleDate"@
    } else if weekday == 3 {
        "thursdayScheduleDate"@
    } else if weekday == 4 {
        "fridayScheduleDate"@
    } else if weekday == 5 {
        "saturdayScheduleDate"@
    } else {
        "sundayScheduleDate"@
    }
}

fn schedule_name(weekday: u8) -> (r: &'static str)
    ensures
        r@ == schedule_member(weekday as int),
{
    if weekday == 0 {
        "mondayScheduleDate"
    } else if weekday == 1 {
        "tuesdayScheduleDate"
    } else if weekday == 2 {
        "wednesdayScheduleDate"
    } else if weekday == 3 {
        "thursdayScheduleDate"
    } else if weekday == 4 {
        "fridayScheduleDate"
    } else if weekday == 5 {
        "saturdayScheduleDate"
    } else {
        "sundayScheduleDate"
    }
}

/// The days that follow the timetable of one of the first `n` weekdays.
pub open spec fn alternates_of(term: JsonView, n: int) -> Result<Seq<(int, u8)>, Seq<char>>
    decreases n,
{
    if n <= 0 {
        Ok(Seq::empty())
    } else {
        let weekday = (n - 1) as u8;
        match alternates_of(term, n - 1) {
            Err(fault) => Err(fault),
            Ok(days) => match with_alternate_member(days, term, schedule_member(n - 1), weekday) {
                Err(fault) => Err(fault),
                Ok(days) => with_alternate_member(
                    days,
                    term,
                    schedule_member(n - 1) + "s"@,
                    weekday,
                ),
            },
        }
    }
}

fn parse_alternates(term: &Json) -> (r: Result<OrderedMap<Date, u8>, Error>)
    ensures
        outcome(r) == alternates_of(term.deep_view(), 7),
{
    let mut result: Result<OrderedMap<Date, u8>, Error> = Ok(OrderedMap::new());
    let mut weekday: u8 = 0;
    while weekday < 7
        invariant
            weekday <= 7,
            outcome(result) == alternates_of(term.deep_view(), weekday as int),
        decreases 7 - weekday,
    {
        let name = schedule_name(weekday);
        let mut plural = name.to_owned();
        plural.append("s");
        result = match result {
            Ok(days) => match add_alternate_day(days, term, name, weekday) {
                Ok(days) => add_alternate_day(days, term, plural.as_str(), weekday),
                Err(error) => Err(error),
            },
            Err(error) => Err(error),
        };
        weekday += 1;
    }
    result
}

/// The calendar that term metadata describe.
pub open spec fn calendar_of(term: JsonView) -> Result<TermCalendarView, Seq<char>> {
    match date_member(term, "startDate"@) {
        Err(fault) => Err(fault),
        Ok(start) => match date_member(term, "endDate"@) {
            Err(fault) => Err(fault),
            Ok(end) => if start > end {
                Err("term startDate follows endDate"@)
            } else {
                match holidays_of(term) {
                    Err(fault) => Err(fault),
                    Ok(holidays) => match alternates_of(term, 7) {
                        Err(fault) => Err(fault),
                        Ok(alternate_days) => Ok(
                            TermCalendarView { start, end, holidays, alternate_days },
                        ),
                    },
                }
            },
        },
    }
}

fn parse_calendar(term: &Json) -> (r: Result<TermCalendar, Error>)
    ensures
        outcome(r) == calendar_of(term.deep_view()),
{
    let start = match parse_date_field(term, "startDate") {
        Ok(date) => date,
        Err(error) => {
            return Err(error);
        },
    };
    let end = match parse_date_field(term, "endDate") {
        Ok(date) => date,
        Err(error) => {
            return Err(error);
        },
    };
    if start.is_after(&end) {
        return Err(Error::new("term startDate follows endDate"));
    }
    let holidays = match parse_holidays(term) {
        Ok(holidays) => holidays,
        Err(error) => {
            return Err(error);
        },
    };
    match parse_alternates(term) {
        Ok(alternate_days) => Ok(TermCalendar { start, end, holidays, alternate_days }),
        Err(error) => Err(error),
    }
}

/// The part of the term in which a course meets.
#[derive(Clone, Copy)]
struct DateLimit {
    start: Option<Date>,
    end: Option<Date>,
    unsupported: bool,
}

/// Dates appear as day numbers.
pub struct DateLimitView {
    pub start: Option<int>,
    pub end: Option<int>,
    pub unsupported: bool,
}

impl DeepView for DateLimit {
    type V = DateLimitView;

    closed spec fn deep_view(&self) -> DateLimitView {
        DateLimitView {
            start: self.start.deep_view(),
            end: self.end.deep_view(),
            unsupported: self.unsupported,
        }
    }
}

/// The date of a month and day within the term; a day before the start belongs to the year in
/// which the term ends.
pub open spec fn month_day(calendar: TermCalendarView, month: int, day: int) -> Result<
    int,
    Seq<char>,
> {
    let first = civil_of(calendar.start).0;
    let last = civil_of(calendar.end).0;
    if !civil(first, month, day) {
        Err("invalid month/day"@)
    } else if day_number(first, month, day) < calendar.start && last != first {
        if !civil(last, month, day) {
            Err("invalid month/day"@)
        } else {
            Ok(day_number(last, month, day))
        }
    } else {
        Ok(day_number(first, month, day))
    }
}

/// The date that a pair of month and day stands for.
pub open spec fn month_day_in(json: JsonView, calendar: TermCalendarView) -> Result<
    int,
    Seq<char>,
> {
    match json {
        JsonView::Array(items) => if items.len() != 2 {
            Err("month/day value must be [month, day]"@)
        } else {
            match items[0] {
                JsonView::Number(_, Some(month)) => if month > u32::MAX {
                    Err("out of range integral type conversion attempted"@)
                } else {
                    match items[1] {
                        JsonView::Number(_, Some(day)) => if day > u32::MAX {
                            Err("out of range integral type conversion attempted"@)
                        } else {
                            month_day(calendar, month as int, day as int)
                        },
                        _ => Err("day must be an integer"@),
                    }
                },
                _ => Err("month must be an integer"@),
            }
        },
        _ => Err("month/day value must be [month, day]"@),
    }
}

/// The unsigned integer of a number, converted to 32 bits.
fn small_number(json: &Json, missing: &str) -> (r: Result<u32, Error>)
    ensures
        outcome(r) == (match json.deep_view() {
            JsonView::Number(_, Some(n)) => if n > u32::MAX {
                Err("out of range integral type conversion attempted"@)
            } else {
                Ok(n as u32)
            },
            _ => Err(missing@),
        }),
{
    match json {
        Json::Number(_, Some(n)) => if *n > 0xffff_ffff {
            Err(Error::new("out of range integral type conversion attempted"))
        } else {
            Ok(*n as u32)
        },
        _ => Err(Error::new(missing)),
    }
}

fn parse_month_day(json: &Json, calendar: &TermCalendar) -> (r: Result<Date, Error>)
    ensures
        outcome(r) == month_day_in(json.deep_view(), calendar.deep_view()),
{
    let items = match json.items() {
        Some(items) => items,
        None => {
            return Err(Error::new("month/day value must be [month, day]"));
        },
    };
    assert(items.deep_view().len() == items@.len());
    if items.len() != 2 {
        return Err(Error::new("month/day value must be [month, day]"));
    }
    assert(items.deep_view()[0] == items@[0].deep_view());
    assert(items.deep_view()[1] == items@[1].deep_view());
    let month = match small_number(&items[0], "month must be an integer") {
        Ok(month) => month,
        Err(error) => {
            return Err(error);
        },
    };
    let day = match small_number(&items[1], "day must be an integer") {
        Ok(day) => day,
        Err(error) => {
            return Err(error);
        },
    };
    let (first, first_month, first_day) = calendar.start.civil();
    let (last, last_month, last_day) = calendar.end.civil();
    proof {
        lemma_civil_of(
            calendar.start.number(),
            first as int,
            first_month as int,
            first_day as int,
        );
        lemma_civil_of(calendar.end.number(), last as int, last_month as int, last_day as int);
    }
    let date = match Date::from_ymd(first, month, day) {
        Some(date) => date,
        None => {
            return Err(Error::new("invalid month/day"));
        },
    };
    if calendar.start.is_after(&date) && last != first {
        return match Date::from_ymd(last, month, day) {
            Some(date) => Ok(date),
            None => Err(Error::new("invalid month/day")),
        };
    }
    Ok(date)
}

/// The limit that the half of the term sets.
pub open spec fn half_limit(
    raw: JsonView,
    calendar: TermCalendarView,
    term: JsonView,
) -> Result<DateLimitView, Seq<char>> {
    let quartered = member(raw, "quarterInfo"@) is Some;
    let refused = Err("half must be a boolean or 0, 1, or 2"@);
    match member(raw, "half"@) {
        None => Ok(DateLimitView { start: None, end: None, unsupported: false }),
        Some(JsonView::Bool(half)) => Ok(
            DateLimitView { start: None, end: None, unsupported: half },
        ),
        Some(JsonView::Number(Some(half), _)) => if half == 0 {
            Ok(DateLimitView { start: None, end: None, unsupported: false })
        } else if half == 1 || half == 2 {
            if quartered {
                Ok(DateLimitView { start: None, end: None, unsupported: true })
            } else if half == 1 {
                match optional_date_member(term, "h1EndDate"@) {
                    Err(fault) => Err(fault),
                    Ok(end) => Ok(
                        DateLimitView { start: Some(calendar.start), end, unsupported: true },
                    ),
                }
            } else {
                match optional_date_member(term, "h2StartDate"@) {
                    Err(fault) => Err(fault),
                    Ok(start) => Ok(
                        DateLimitView { start, end: Some(calendar.end), unsupported: true },
                    ),
                }
            }
        } else {
            refused
        },
        Some(_) => refused,
    }
}

/// The end of a quarter in a member, if it is there; else what was known before.
pub open spec fn quarter_date(
    quarter: JsonView,
    name: Seq<char>,
    known: Option<int>,
    calendar: TermCalendarView,
) -> Result<Option<int>, Seq<char>> {
    match member(quarter, name) {
        None => Ok(known),
        Some(value) => match month_day_in(value, calendar) {
            Ok(day) => Ok(Some(day)),
            Err(fault) => Err("invalid quarterInfo "@ + name + ": "@ + fault),
        },
    }
}

/// The limit with what the quarter of the term adds to it.
pub open spec fn quarter_limit(
    raw: JsonView,
    limit: DateLimitView,
    calendar: TermCalendarView,
) -> Result<DateLimitView, Seq<char>> {
    match member(raw, "quarterInfo"@) {
        None => Ok(limit),
        Some(JsonView::Null) => Ok(limit),
        Some(quarter) => if !(quarter is Object) {
            Err("quarterInfo must be an object"@)
        } else {
            match quarter_date(quarter, "start"@, limit.start, calendar) {
                Err(fault) => Err(fault),
                Ok(start) => match quarter_date(quarter, "end"@, limit.end, calendar) {
                    Err(fault) => Err(fault),
                    Ok(end) => Ok(DateLimitView { start, end, unsupported: true }),
                },
            }
        },
    }
}

/// The part of the term in which a course meets.
pub open spec fn limit_of(raw: JsonView, calendar: TermCalendarView, term: JsonView) -> Result<
    DateLimitView,
    Seq<char>,
> {
    match half_limit(raw, calendar, term) {
        Err(fault) => Err(fault),
        Ok(limit) => match quarter_limit(raw, limit, calendar) {
            Err(fault) => Err(fault),
            Ok(limit) => if limit.start is Some && limit.end is Some && limit.start->0
                > limit.end->0 {
                Err("course date limit starts after it ends"@)
            } else {
                Ok(limit)
            },
        },
    }
}

fn parse_half(raw: &Json, calendar: &TermCalendar, term: &Json) -> (r: Result<DateLimit, Error>)
    ensures
        outcome(r) == half_limit(raw.deep_view(), calendar.deep_view(), term.deep_view()),
{
    let quartered = raw.get("quarterInfo").is_some();
    match raw.get("half") {
        None => Ok(DateLimit { start: None, end: None, unsupported: false }),
        Some(Json::Bool(half)) => Ok(DateLimit { start: None, end: None, unsupported: *half }),
        Some(Json::Number(Some(half), _)) => if *half == 0 {
            Ok(DateLimit { start: None, end: None, unsupported: false })
        } else if *half == 1 || *half == 2 {
            if quartered {
                Ok(DateLimit { start: None, end: None, unsupported: true })
            } else if *half == 1 {
                match optional_date_field(term, "h1EndDate") {
                    Ok(end) => Ok(
                        DateLimit { start: Some(calendar.start), end, unsupported: true },
                    ),
                    Err(error) => Err(error),
                }
            } else {
                match optional_date_field(term, "h2StartDate") {
                    Ok(start) => Ok(
                        DateLimit { start, end: Some(calendar.end), unsupported: true },
                    ),
                    Err(error) => Err(error),
                }
            }
        } else {
            Err(Error::new("half must be a boolean or 0, 1, or 2"))
        },
        Some(_) => Err(Error::new("half must be a boolean or 0, 1, or 2")),
    }
}

fn parse_quarter_date(
    quarter: &Json,
    name: &str,
    known: Option<Date>,
    calendar: &TermCalendar,
) -> (r: Result<Option<Date>, Error>)
    ensures
        outcome(r) == quarter_date(
            quarter.deep_view(),
            name@,
            known.deep_view(),
            calendar.deep_view(),
        ),
{
    match quarter.get(name) {
        None => Ok(known),
        Some(value) => match parse_month_day(value, calendar) {
            Ok(date) => Ok(Some(date)),
            Err(error) => {
                let mut context = "invalid quarterInfo ".to_owned();
                context.append(name);
                Err(error.within(context.as_str()))
            },
        },
    }
}

fn course_date_limit(raw: &Json, calendar: &TermCalendar, term: &Json) -> (r: Result<
    DateLimit,
    Error,
>)
    ensures
        outcome(r) == limit_of(raw.deep_view(), calendar.deep_view(), term.deep_view()),
{
    let mut limit = match parse_half(raw, calendar, term) {
        Ok(limit) => limit,
        Err(error) => {
            return Err(error);
        },
    };
    match raw.get("quarterInfo") {
        None => {},
        Some(Json::Null) => {},
        Some(quarter) => {
            let object = match quarter {
                Json::Object(_) => true,
                _ => false,
            };
            assert(object == (quarter.deep_view() is Object));
            if !object {
                return Err(Error::new("quarterInfo must be an object"));
            }
            let start = match parse_quarter_date(quarter, "start", limit.start, calendar) {
                Ok(start) => start,
                Err(error) => {
                    return Err(error);
                },
            };
            let end = match parse_quarter_date(quarter, "end", limit.end, calendar) {
                Ok(end) => end,
                Err(error) => {
                    return Err(error);
                },
            };
            limit = DateLimit { start, end, unsupported: true };
        },
    }
    if let (Some(start), Some(end)) = (limit.start, limit.end) {
        if start.is_after(&end) {
            return Err(Error::new("course date limit starts after it ends"));
        }
    }
    Ok(limit)
}

/// The date of an optional day number.
pub open spec fn optional_date(day: Option<int>) -> Option<Date> {
    match day {
        Some(day) => Some(date_of(day)),
        None => None,
    }
}

proof fn lemma_optional_date(date: Option<Date>)
    ensures
        optional_date(date.deep_view()) == date,
{
    if date is Some {
        lemma_date_of(date->0);
    }
}

/// The meeting that a slot and a length in half hours stand for. A day has 34 slots, the first
/// of which starts at 6 in the morning.
pub open spec fn slot_meeting(slot: int, length: int, start: Option<int>, end: Option<int>) -> Meeting {
    Meeting {
        weekday: (slot / 34) as u8,
        start_minute: (360 + 30 * (slot % 34)) as u16,
        end_minute: (360 + 30 * (slot % 34) + 30 * length) as u16,
        start_date: optional_date(start),
        end_date: optional_date(end),
    }
}

/// The meeting that a raw pair of slot and length stands for.
pub open spec fn raw_meeting(json: JsonView, start: Option<int>, end: Option<int>) -> Result<
    Meeting,
    Seq<char>,
> {
    match json {
        JsonView::Array(pair) => if pair.len() != 2 {
            Err("raw meeting must be [slot, length]"@)
        } else {
            match (pair[0], pair[1]) {
                (
                    JsonView::Number(Some(slot), _),
                    JsonView::Number(Some(length), _),
                ) => if !(0 <= slot < 238) {
                    Err("raw meeting slot must be within the encoded week"@)
                } else if !(1 <= length <= 48) {
                    Err("raw meeting length must be positive and at most one day"@)
                } else if 360 + 30 * (slot % 34) + 30 * length > 1440 {
                    Err("raw meeting extends past midnight"@)
                } else {
                    let meeting = slot_meeting(slot as int, length as int, start, end);
                    match meeting_fault(meeting) {
                        Some(fault) => Err(fault),
                        None => Ok(meeting),
                    }
                },
                (JsonView::Number(Some(_), _), _) => Err(
                    "raw meeting length must be an integer"@,
                ),
                _ => Err("raw meeting slot must be an integer"@),
            }
        },
        _ => Err("raw meeting must be [slot, length]"@),
    }
}

fn parse_raw_meeting(json: &Json, start: Option<Date>, end: Option<Date>) -> (r: Result<
    Meeting,
    Error,
>)
    ensures
        outcome(r) == raw_meeting(json.deep_view(), start.deep_view(), end.deep_view()),
{
    let pair = match json.items() {
        Some(pair) => pair,
        None => {
            return Err(Error::new("raw meeting must be [slot, length]"));
        },
    };
    assert(pair.deep_view().len() == pair@.len());
    if pair.len() != 2 {
        return Err(Error::new("raw meeting must be [slot, length]"));
    }
    assert(pair.deep_view()[0] == pair@[0].deep_view());
    assert(pair.deep_view()[1] == pair@[1].deep_view());
    let slot: i64 = match &pair[0] {
        Json::Number(Some(slot), _) => *slot,
        _ => {
            return Err(Error::new("raw meeting slot must be an integer"));
        },
    };
    let length: i64 = match &pair[1] {
        Json::Number(Some(length), _) => *length,
        _ => {
            return Err(Error::new("raw meeting length must be an integer"));
        },
    };
    if !(0 <= slot && slot < 238) {
        return Err(Error::new("raw meeting slot must be within the encoded week"));
    }
    if !(1 <= length && length <= 48) {
        return Err(Error::new("raw meeting length must be positive and at most one day"));
    }
    let start_minute: i64 = 360 + 30 * (slot % 34);
    let end_minute: i64 = start_minute + 30 * length;
    if end_minute > 1440 {
        return Err(Error::new("raw meeting extends past midnight"));
    }
    let meeting = Meeting {
        weekday: (slot / 34) as u8,
        start_minute: start_minute as u16,
        end_minute: end_minute as u16,
        start_date: start,
        end_date: end,
    };
    proof {
        lemma_optional_date(start);
        lemma_optional_date(end);
    }
    match meeting.validate() {
        Ok(_) => Ok(meeting),
        Err(error) => Err(error),
    }
}

/// The meetings that raw pairs stand for.
pub open spec fn raw_meetings(items: Seq<JsonView>, start: Option<int>, end: Option<int>) -> Result<
    Seq<Meeting>,
    Seq<char>,
>
    decreases items.len(),
{
    if items.len() == 0 {
        Ok(Seq::empty())
    } else {
        match raw_meetings(items.drop_last(), start, end) {
            Err(fault) => Err(fault),
            Ok(meetings) => match raw_meeting(items.last(), start, end) {
                Err(fault) => Err(fault),
                Ok(meeting) => Ok(meetings.push(meeting)),
            },
        }
    }
}

fn parse_raw_meetings(items: &Vec<Json>, start: Option<Date>, end: Option<Date>) -> (r: Result<
    Vec<Meeting>,
    Error,
>)
    ensures
        match raw_meetings(items.deep_view(), start.deep_view(), end.deep_view()) {
            Err(fault) => r is Err && (r->Err_0).deep_view() == fault,
            Ok(meetings) => r is Ok && (r->Ok_0)@ == meetings,
        },
{
    let ghost all = items.deep_view();
    let ghost from = start.deep_view();
    let ghost to = end.deep_view();
    let mut meetings: Vec<Meeting> = Vec::new();
    let mut failure: Option<Error> = None;
    let mut index: usize = 0;
    assert(all.take(0) =~= Seq::empty());
    while index < items.len()
        invariant
            index <= items@.len(),
            all == items.deep_view(),
            from == start.deep_view(),
            to == end.deep_view(),
            match raw_meetings(all.take(index as int), from, to) {
                Err(fault) => failure is Some && (failure->0).deep_view() == fault,
                Ok(known) => failure is None && meetings@ == known,
            },
        decreases items@.len() - index,
    {
        assert(all.take(index + 1).drop_last() =~= all.take(index as int));
        assert(all.take(index + 1).last() == items@[index as int].deep_view());
        if failure.is_none() {
            match parse_raw_meeting(&items[index], start, end) {
                Ok(meeting) => {
                    meetings.push(meeting);
                },
                Err(error) => {
                    failure = Some(error);
                },
            }
        }
        index += 1;
    }
    assert(all.take(index as int) =~= all);
    match failure {
        Some(error) => Err(error),
        None => Ok(meetings),
    }
}

/// A date of a meeting in JSON.
pub open spec fn date_json(date: Option<Date>) -> Seq<char> {
    match date {
        Some(date) => "\""@ + date_text(date.number()) + "\""@,
        None => "null"@,
    }
}

/// A meeting in JSON.
pub open spec fn meeting_json(m: Meeting) -> Seq<char> {
    "{\"weekday\":"@ + decimal(m.weekday as nat) + ",\"start_minute\":"@ + decimal(
        m.start_minute as nat,
    ) + ",\"end_minute\":"@ + decimal(m.end_minute as nat) + ",\"start_date\":"@ + date_json(
        m.start_date,
    ) + ",\"end_date\":"@ + date_json(m.end_date) + "}"@
}

/// Meetings in JSON, between commas.
pub open spec fn meetings_json(meetings: Seq<Meeting>) -> Seq<char>
    decreases meetings.len(),
{
    if meetings.len() == 0 {
        Seq::empty()
    } else if meetings.len() == 1 {
        meeting_json(meetings[0])
    } else {
        meetings_json(meetings.drop_last()) + ","@ + meeting_json(meetings.last())
    }
}

fn date_json_text(date: &Option<Date>) -> (r: String)
    ensures
        r@ == date_json(*date),
{
    match date {
        Some(date) => {
            let mut out = "\"".to_owned();
            out.append(date.text().as_str());
            out.append("\"");
            out
        },
        None => "null".to_owned(),
    }
}

fn meeting_json_text(meeting: &Meeting) -> (r: String)
    ensures
        r@ == meeting_json(*meeting),
{
    let mut out = "{\"weekday\":".to_owned();
    out.append(decimal_text(meeting.weekday as u64).as_str());
    out.append(",\"start_minute\":");
    out.append(decimal_text(meeting.start_minute as u64).as_str());
    out.append(",\"end_minute\":");
    out.append(decimal_text(meeting.end_minute as u64).as_str());
    out.append(",\"start_date\":");
    out.append(date_json_text(&meeting.start_date).as_str());
    out.append(",\"end_date\":");
    out.append(date_json_text(&meeting.end_date).as_str());
    out.append("}");
    out
}

pub(crate) fn meetings_json_text(meetings: &Vec<Meeting>) -> (r: String)
    ensures
        r@ == meetings_json(meetings@),
{
    let mut out = String::new();
    let mut index: usize = 0;
    assert(meetings@.take(0) =~= Seq::empty());
    assert(out@ =~= meetings_json(meetings@.take(0)));
    while index < meetings.len()
        invariant
            index <= meetings@.len(),
            out@ == meetings_json(meetings@.take(index as int)),
        decreases meetings@.len() - index,
    {
        assert(meetings@.take(index + 1).drop_last() =~= meetings@.take(index as int));
        if index == 0 {
            out = meeting_json_text(&meetings[index]);
        } else {
            out.append(",");
            out.append(meeting_json_text(&meetings[index]).as_str());
        }
        index += 1;
    }
    assert(meetings@.take(index as int) =~= meetings@);
    out
}

/// What identifies a published section, as a JSON array.
pub open spec fn option_source(
    course_id: Seq<char>,
    kind: Seq<char>,
    meetings: Seq<Meeting>,
    room: Seq<char>,
) -> Seq<char> {
    "["@ + json_quoted(course_id) + ","@ + json_quoted(kind) + ",["@ + meetings_json(meetings)
        + "],"@ + json_quoted(room) + "]"@
}

pub open spec fn published_id(
    course_id: Seq<char>,
    kind: Seq<char>,
    meetings: Seq<Meeting>,
    room: Seq<char>,
) -> Seq<char> {
    "api-"@ + sha256_hex(option_source(course_id, kind, meetings, room))
}

fn api_option_id(course_id: &str, kind: &str, meetings: &Vec<Meeting>, room: &str) -> (r: String)
    ensures
        r@ == published_id(course_id@, kind@, meetings@, room@),
{
    let mut source = "[".to_owned();
    source.append(json_string(course_id).as_str());
    source.append(",");
    source.append(json_string(kind).as_str());
    source.append(",[");
    source.append(meetings_json_text(meetings).as_str());
    source.append("],");
    source.append(json_string(room).as_str());
    source.append("]");
    let mut id = "api-".to_owned();
    id.append(digest_hex(source.as_str()).as_str());
    id
}

/// The published label of a section, or one made of its kind and number.
pub open spec fn label_for(labels: Option<Seq<JsonView>>, kind: Seq<char>, index: int) -> Seq<char> {
    let title = if kind.len() == 0 {
        "Section"@
    } else {
        crate::text::capitalized(kind)
    };
    let made = title + " "@ + decimal((index + 1) as nat);
    match labels {
        Some(labels) => if index < labels.len() {
            match labels[index] {
                JsonView::Text(text) => if trimmed(text).len() > 0 {
                    trimmed(text)
                } else {
                    made
                },
                _ => made,
            }
        } else {
            made
        },
        None => made,
    }
}

fn title_case(kind: &str) -> (r: String)
    ensures
        r@ == (if kind@.len() == 0 {
            "Section"@
        } else {
            crate::text::capitalized(kind@)
        }),
{
    if kind.is_empty() {
        "Section".to_owned()
    } else {
        upper_first(kind)
    }
}

fn section_label(labels: Option<&Vec<Json>>, kind: &str, index: usize) -> (r: String)
    requires
        index < usize::MAX,
    ensures
        r@ == label_for(labels.deep_view(), kind@, index as int),
{
    if let Some(labels) = labels {
        assert(labels.deep_view().len() == labels@.len());
        if index < labels.len() {
            assert(labels.deep_view()[index as int] == labels@[index as int].deep_view());
            if let Json::Text(text) = &labels[index] {
                let text = trim(text.as_str());
                if !text.as_str().is_empty() {
                    return text;
                }
            }
        }
    }
    let mut label = title_case(kind);
    label.append(" ");
    label.append(decimal_text((index + 1) as u64).as_str());
    label
}

/// The meetings and the room of a raw section.
pub open spec fn section_parts(section: JsonView, start: Option<int>, end: Option<int>) -> Result<
    (Seq<Meeting>, Seq<char>),
    Seq<char>,
> {
    match section {
        JsonView::Array(items) => if items.len() != 2 {
            Err("section must include exactly meetings and room"@)
        } else {
            match items[1] {
                JsonView::Text(room) => match items[0] {
                    JsonView::Array(raw) => match raw_meetings(raw, start, end) {
                        Err(fault) => Err(fault),
                        Ok(meetings) => Ok(
                            (distinct_ascending::<Meeting>(meetings), trimmed(room)),
                        ),
                    },
                    _ => Err("section meetings must be an array"@),
                },
                _ => Err("section room must be a string"@),
            }
        },
        _ => Err("section must be [meetings, room]"@),
    }
}

fn parse_section_parts(section: &Json, start: Option<Date>, end: Option<Date>) -> (r: Result<
    (Vec<Meeting>, String),
    Error,
>)
    ensures
        match section_parts(section.deep_view(), start.deep_view(), end.deep_view()) {
            Err(fault) => r is Err && (r->Err_0).deep_view() == fault,
            Ok((meetings, room)) => r is Ok && (r->Ok_0).0@ == meetings && (r->Ok_0).1@ == room,
        },
{
    let items = match section.items() {
        Some(items) => items,
        None => {
            return Err(Error::new("section must be [meetings, room]"));
        },
    };
    assert(items.deep_view().len() == items@.len());
    if items.len() != 2 {
        return Err(Error::new("section must include exactly meetings and room"));
    }
    assert(items.deep_view()[0] == items@[0].deep_view());
    assert(items.deep_view()[1] == items@[1].deep_view());
    let room = match items[1].text() {
        Some(room) => trim(room.as_str()),
        None => {
            return Err(Error::new("section room must be a string"));
        },
    };
    let raw = match items[0].items() {
        Some(raw) => raw,
        None => {
            return Err(Error::new("section meetings must be an array"));
        },
    };
    match parse_raw_meetings(raw, start, end) {
        Ok(meetings) => {
            proof {
                lemma_meetings_view(meetings);
            }
            let meetings = OrderedSet::from_vec(meetings).into_vec();
            proof {
                lemma_meetings_view(meetings);
            }
            Ok((meetings, room))
        },
        Err(error) => Err(error),
    }
}

/// A published section.
pub open spec fn section_of(
    course_id: Seq<char>,
    kind: Seq<char>,
    index: int,
    section: JsonView,
    labels: Option<Seq<JsonView>>,
    limit: DateLimitView,
    unsupported: Option<Seq<char>>,
) -> Result<SectionOptionView, Seq<char>> {
    match section_parts(section, limit.start, limit.end) {
        Err(fault) => Err(fault),
        Ok((meetings, room)) => Ok(
            SectionOptionView {
                id: published_id(course_id, kind, meetings, room),
                label: label_for(labels, kind, index),
                room,
                source: Source::Api,
                meetings,
                incompatible_with: Seq::empty(),
                unsupported_reason: if unsupported is None && meetings.len() == 0 {
                    Some("section has no known meeting times"@)
                } else {
                    unsupported
                },
            },
        ),
    }
}

fn parse_section(
    course_id: &str,
    kind: &str,
    index: usize,
    section: &Json,
    labels: Option<&Vec<Json>>,
    limit: &DateLimit,
    unsupported: &Option<String>,
) -> (r: Result<SectionOption, Error>)
    requires
        index < usize::MAX,
    ensures
        outcome(r) == section_of(
            course_id@,
            kind@,
            index as int,
            section.deep_view(),
            labels.deep_view(),
            limit.deep_view(),
            unsupported.deep_view(),
        ),
{
    let (meetings, room) = match parse_section_parts(section, limit.start, limit.end) {
        Ok(parts) => parts,
        Err(error) => {
            return Err(error);
        },
    };
    let mut unsupported_reason = crate::model::duplicate_text(unsupported);
    if unsupported_reason.is_none() && meetings.len() == 0 {
        unsupported_reason = Some("section has no known meeting times".to_owned());
    }
    proof {
        lemma_meetings_view(meetings);
    }
    Ok(
        SectionOption {
            id: api_option_id(course_id, kind, &meetings, room.as_str()),
            label: section_label(labels, kind, index),
            room,
            source: Source::Api,
            meetings,
            incompatible_with: OrderedSet::new(),
            unsupported_reason,
        },
    )
}

/// The kinds that a course lists, in lower case and without repetitions.
pub open spec fn listed_kinds(items: Seq<JsonView>) -> Result<Seq<Seq<char>>, Seq<char>>
    decreases items.len(),
{
    if items.len() == 0 {
        Ok(Seq::empty())
    } else {
        match listed_kinds(items.drop_last()) {
            Err(fault) => Err(fault),
            Ok(kinds) => match items.last() {
                JsonView::Text(text) => {
                    let kind = lower_case(trimmed(text));
                    if kind.len() > 0 && !kinds.contains(kind) {
                        Ok(kinds.push(kind))
                    } else {
                        Ok(kinds)
                    }
                },
                _ => Err("sectionKinds entries must be strings"@),
            },
        }
    }
}

/// The kinds of component that a course has if it has sections of them, listed or not.
pub open spec fn known_kind(n: int) -> Seq<char> {
    if n == 0 {
        "lecture"@
    } else if n == 1 {
        "recitation"@
    } else if n == 2 {
        "lab"@
    } else {
        "design"@
    }
}

fn known_kind_name(n: usize) -> (r: &'static str)
    ensures
        r@ == known_kind(n as int),
{
    if n == 0 {
        "lecture"
    } else if n == 1 {
        "recitation"
    } else if n == 2 {
        "lab"
    } else {
        "design"
    }
}

/// The kinds, with the first `n` known ones added where there are sections of them.
pub open spec fn with_known_kinds(raw: JsonView, kinds: Seq<Seq<char>>, n: int) -> Result<
    Seq<Seq<char>>,
    Seq<char>,
>
    decreases n,
{
    if n <= 0 {
        Ok(kinds)
    } else {
        let kind = known_kind(n - 1);
        match with_known_kinds(raw, kinds, n - 1) {
            Err(fault) => Err(fault),
            Ok(kinds) => match member(raw, kind + "Sections"@) {
                None => Ok(kinds),
                Some(JsonView::Array(sections)) => if sections.len() > 0 && !kinds.contains(kind) {
                    Ok(kinds.push(kind))
                } else {
                    Ok(kinds)
                },
                Some(_) => Err(kind + "Sections"@ + " must be an array"@),
            },
        }
    }
}

/// The kinds of component that a course has.
pub open spec fn kinds_of(raw: JsonView) -> Result<Seq<Seq<char>>, Seq<char>> {
    let listed = match member(raw, "sectionKinds"@) {
        None => Ok(Seq::empty()),
        Some(JsonView::Array(items)) => listed_kinds(items),
        Some(_) => Err("sectionKinds must be an array"@),
    };
    match listed {
        Err(fault) => Err(fault),
        Ok(kinds) => with_known_kinds(raw, kinds, 4),
    }
}

fn sections_field(kind: &str) -> (r: String)
    ensures
        r@ == kind@ + "Sections"@,
{
    let mut field = kind.to_owned();
    field.append("Sections");
    field
}

fn parse_listed_kinds(items: &Vec<Json>) -> (r: Result<Vec<String>, Error>)
    ensures
        outcome(r) == listed_kinds(items.deep_view()),
{
    let ghost all = items.deep_view();
    let mut kinds: Vec<String> = Vec::new();
    let mut failed = false;
    let mut index: usize = 0;
    assert(all.take(0) =~= Seq::empty());
    assert(kinds.deep_view() =~= Seq::empty());
    while index < items.len()
        invariant
            index <= items@.len(),
            all == items.deep_view(),
            match listed_kinds(all.take(index as int)) {
                Err(fault) => failed && fault == "sectionKinds entries must be strings"@,
                Ok(known) => !failed && kinds.deep_view() == known,
            },
        decreases items@.len() - index,
    {
        let ghost known = kinds.deep_view();
        assert(all.take(index + 1).drop_last() =~= all.take(index as int));
        assert(all.take(index + 1).last() == items@[index as int].deep_view());
        if !failed {
            match &items[index] {
                Json::Text(text) => {
                    let kind = lowercase(trim(text.as_str()).as_str());
                    if !kind.as_str().is_empty() && !contains_text(&kinds, &kind) {
                        kinds.push(kind);
                        assert(kinds.deep_view() =~= known.push(kind@));
                    }
                },
                _ => {
                    failed = true;
                },
            }
        }
        index += 1;
    }
    assert(all.take(index as int) =~= all);
    if failed {
        Err(Error::new("sectionKinds entries must be strings"))
    } else {
        Ok(kinds)
    }
}

fn parse_kinds(raw: &Json) -> (r: Result<Vec<String>, Error>)
    ensures
        outcome(r) == kinds_of(raw.deep_view()),
{
    let mut kinds: Vec<String> = Vec::new();
    assert(kinds.deep_view() =~= Seq::empty());
    if let Some(value) = raw.get("sectionKinds") {
        let items = match value.items() {
            Some(items) => items,
            None => {
                return Err(Error::new("sectionKinds must be an array"));
            },
        };
        kinds = match parse_listed_kinds(items) {
            Ok(kinds) => kinds,
            Err(error) => {
                return Err(error);
            },
        };
    }
    let ghost listed = kinds.deep_view();
    let ghost view = raw.deep_view();
    let mut n: usize = 0;
    let mut result: Result<Vec<String>, Error> = Ok(kinds);
    while n < 4
        invariant
            n <= 4,
            view == raw.deep_view(),
            outcome(result) == with_known_kinds(view, listed, n as int),
        decreases 4 - n,
    {
        let kind = known_kind_name(n);
        result = match result {
            Ok(kinds) => add_known_kind(raw, kinds, kind),
            Err(error) => Err(error),
        };
        n += 1;
    }
    result
}

fn add_known_kind(raw: &Json, kinds: Vec<String>, kind: &str) -> (r: Result<Vec<String>, Error>)
    ensures
        outcome(r) == (match member(raw.deep_view(), kind@ + "Sections"@) {
            None => Ok(kinds.deep_view()),
            Some(JsonView::Array(sections)) => if sections.len() > 0
                && !kinds.deep_view().contains(kind@) {
                Ok(kinds.deep_view().push(kind@))
            } else {
                Ok(kinds.deep_view())
            },
            Some(_) => Err(kind@ + "Sections"@ + " must be an array"@),
        }),
{
    let field = sections_field(kind);
    match raw.get(field.as_str()) {
        None => Ok(kinds),
        Some(value) => match value.items() {
            Some(sections) => {
                assert(sections.deep_view().len() == sections@.len());
                let ghost known = kinds.deep_view();
                let mut kinds = kinds;
                let name = kind.to_owned();
                if sections.len() > 0 && !contains_text(&kinds, &name) {
                    kinds.push(name);
                    assert(kinds.deep_view() =~= known.push(kind@));
                }
                Ok(kinds)
            },
            None => {
                let mut message = field;
                message.append(" must be an array");
                Err(Error { message })
            },
        },
    }
}

/// An option with the same meetings, room and reason is already there.
pub open spec fn repeated(options: Seq<SectionOptionView>, option: SectionOptionView) -> bool {
    exists|i: int|
        0 <= i < options.len() && (#[trigger] options[i]).meetings == option.meetings
            && options[i].room == option.room && options[i].unsupported_reason
            == option.unsupported_reason
}

/// The published sections of a kind, without repetitions.
pub open spec fn sections_of(
    course_id: Seq<char>,
    kind: Seq<char>,
    sections: Seq<JsonView>,
    labels: Option<Seq<JsonView>>,
    limit: DateLimitView,
    unsupported: Option<Seq<char>>,
) -> Result<Seq<SectionOptionView>, Seq<char>>
    decreases sections.len(),
{
    if sections.len() == 0 {
        Ok(Seq::empty())
    } else {
        let index = sections.len() - 1;
        match sections_of(course_id, kind, sections.drop_last(), labels, limit, unsupported) {
            Err(fault) => Err(fault),
            Ok(options) => match section_of(
                course_id,
                kind,
                index,
                sections.last(),
                labels,
                limit,
                unsupported,
            ) {
                Err(fault) => Err(
                    "invalid "@ + course_id + " "@ + kind + " section "@ + decimal(sections.len())
                        + ": "@ + fault,
                ),
                Ok(option) => if repeated(options, option) {
                    Ok(options)
                } else {
                    Ok(options.push(option))
                },
            },
        }
    }
}

fn same_reason(a: &Option<String>, b: &Option<String>) -> (r: bool)
    ensures
        r == (a.deep_view() == b.deep_view()),
{
    match (a, b) {
        (Some(a), Some(b)) => *a == *b,
        (None, None) => true,
        _ => false,
    }
}

fn is_repeated(options: &Vec<SectionOption>, option: &SectionOption) -> (r: bool)
    ensures
        r == repeated(options.deep_view(), option.deep_view()),
{
    let ghost all = options.deep_view();
    let mut index: usize = 0;
    while index < options.len()
        invariant
            index <= options@.len(),
            all == options.deep_view(),
            forall|i: int|
                0 <= i < index ==> !((#[trigger] all[i]).meetings == option.deep_view().meetings
                    && all[i].room == option.deep_view().room && all[i].unsupported_reason
                    == option.deep_view().unsupported_reason),
        decreases options@.len() - index,
    {
        let other = &options[index];
        proof {
            lemma_meetings_view(other.meetings);
            lemma_meetings_view(option.meetings);
            assert(all[index as int] == other.deep_view());
        }
        if same_meetings(&other.meetings, &option.meetings) && other.room == option.room
            && same_reason(&other.unsupported_reason, &option.unsupported_reason) {
            return true;
        }
        index += 1;
    }
    false
}

fn add_section(
    options: Vec<SectionOption>,
    course_id: &str,
    kind: &str,
    index: usize,
    section: &Json,
    labels: Option<&Vec<Json>>,
    limit: &DateLimit,
    unsupported: &Option<String>,
) -> (r: Result<Vec<SectionOption>, Error>)
    requires
        index < usize::MAX,
    ensures
        outcome(r) == (match section_of(
            course_id@,
            kind@,
            index as int,
            section.deep_view(),
            labels.deep_view(),
            limit.deep_view(),
            unsupported.deep_view(),
        ) {
            Err(fault) => Err(
                "invalid "@ + course_id@ + " "@ + kind@ + " section "@ + decimal(
                    (index + 1) as nat,
                ) + ": "@ + fault,
            ),
            Ok(option) => if repeated(options.deep_view(), option) {
                Ok(options.deep_view())
            } else {
                Ok(options.deep_view().push(option))
            },
        }),
{
    match parse_section(course_id, kind, index, section, labels, limit, unsupported) {
        Ok(option) => {
            let ghost known = options.deep_view();
            let mut options = options;
            if !is_repeated(&options, &option) {
                options.push(option);
                assert(options.deep_view() =~= known.push(option.deep_view()));
            }
            Ok(options)
        },
        Err(error) => {
            let mut context = "invalid ".to_owned();
            context.append(course_id);
            context.append(" ");
            context.append(kind);
            context.append(" section ");
            context.append(decimal_text((index + 1) as u64).as_str());
            Err(error.within(context.as_str()))
        },
    }
}

fn parse_sections(
    course_id: &str,
    kind: &str,
    sections: &Vec<Json>,
    labels: Option<&Vec<Json>>,
    limit: &DateLimit,
    unsupported: &Option<String>,
) -> (r: Result<Vec<SectionOption>, Error>)
    ensures
        outcome(r) == sections_of(
            course_id@,
            kind@,
            sections.deep_view(),
            labels.deep_view(),
            limit.deep_view(),
            unsupported.deep_view(),
        ),
{
    let ghost all = sections.deep_view();
    let none: Vec<SectionOption> = Vec::new();
    assert(none.deep_view() =~= Seq::empty());
    let mut result: Result<Vec<SectionOption>, Error> = Ok(none);
    let mut index: usize = 0;
    assert(all.take(0) =~= Seq::empty());
    while index < sections.len()
        invariant
            index <= sections@.len(),
            all == sections.deep_view(),
            outcome(result) == sections_of(
                course_id@,
                kind@,
                all.take(index as int),
                labels.deep_view(),
                limit.deep_view(),
                unsupported.deep_view(),
            ),
        decreases sections@.len() - index,
    {
        assert(all.take(index + 1).drop_last() =~= all.take(index as int));
        assert(all.take(index + 1).last() == sections@[index as int].deep_view());
        result = match result {
            Ok(options) => add_section(
                options,
                course_id,
                kind,
                index,
                &sections[index],
                labels,
                limit,
                unsupported,
            ),
            Err(error) => Err(error),
        };
        index += 1;
    }
    assert(all.take(index as int) =~= all);
    result
}

/// Some section has no meetings, or there is none.
pub open spec fn times_unknown(options: Seq<SectionOptionView>) -> bool {
    options.len() == 0 || exists|i: int|
        0 <= i < options.len() && (#[trigger] options[i]).meetings.len() == 0
}

fn are_times_unknown(options: &Vec<SectionOption>) -> (r: bool)
    ensures
        r == times_unknown(options.deep_view()),
{
    let ghost all = options.deep_view();
    let mut index: usize = 0;
    while index < options.len()
        invariant
            index <= options@.len(),
            all == options.deep_view(),
            forall|i: int| 0 <= i < index ==> (#[trigger] all[i]).meetings.len() > 0,
        decreases options@.len() - index,
    {
        assert(all[index as int] == options@[index as int].deep_view());
        if options[index].meetings.len() == 0 {
            return true;
        }
        index += 1;
    }
    options.len() == 0
}

/// The component of a kind.
pub open spec fn requirement_of(
    course_id: Seq<char>,
    kind: Seq<char>,
    raw: JsonView,
    limit: DateLimitView,
    unsupported: Option<Seq<char>>,
) -> Result<RequirementView, Seq<char>> {
    let labels = match member(raw, kind + "RawSections"@) {
        Some(JsonView::Array(items)) => Some(items),
        _ => None,
    };
    let sections = match member(raw, kind + "Sections"@) {
        None => Ok(Seq::empty()),
        Some(JsonView::Array(items)) => Ok(items),
        Some(_) => Err(kind + "Sections"@ + " must be an array"@),
    };
    match sections {
        Err(fault) => Err(fault),
        Ok(sections) => match sections_of(course_id, kind, sections, labels, limit, unsupported) {
            Err(fault) => Err(fault),
            Ok(options) => Ok(
                RequirementView {
                    id: course_id + "/"@ + kind,
                    kind,
                    options: stable_sorted(options, id_le()),
                    has_unknown_times: times_unknown(stable_sorted(options, id_le())),
                },
            ),
        },
    }
}

fn option_may_precede(a: &SectionOption, b: &SectionOption) -> (r: bool)
    ensures
        r == id_le()(a.deep_view(), b.deep_view()),
{
    !b.id.is_before(&a.id)
}

fn parse_requirement(
    course_id: &str,
    kind: &str,
    raw: &Json,
    limit: &DateLimit,
    unsupported: &Option<String>,
) -> (r: Result<Requirement, Error>)
    ensures
        outcome(r) == requirement_of(
            course_id@,
            kind@,
            raw.deep_view(),
            limit.deep_view(),
            unsupported.deep_view(),
        ),
{
    let field = sections_field(kind);
    let mut labels_field = kind.to_owned();
    labels_field.append("RawSections");
    let labels = match raw.get(labels_field.as_str()) {
        Some(value) => value.items(),
        None => None,
    };
    let none: Vec<Json> = Vec::new();
    assert(none.deep_view() =~= Seq::empty());
    let sections = match raw.get(field.as_str()) {
        None => &none,
        Some(value) => match value.items() {
            Some(items) => items,
            None => {
                let mut message = field;
                message.append(" must be an array");
                return Err(Error { message });
            },
        },
    };
    let options = match parse_sections(course_id, kind, sections, labels, limit, unsupported) {
        Ok(options) => options,
        Err(error) => {
            return Err(error);
        },
    };
    let options = sort_by(options, option_may_precede, Ghost(id_le()));
    let mut id = course_id.to_owned();
    id.append("/");
    id.append(kind);
    let has_unknown_times = are_times_unknown(&options);
    Ok(Requirement { id, kind: kind.to_owned(), options, has_unknown_times })
}

/// What a course says about a component.
pub open spec fn component_notices(requirement: RequirementView, unsupported: bool) -> Seq<
    Seq<char>,
> {
    let kind = requirement.kind;
    if requirement.options.len() == 0 {
        seq![kind + ": no known meeting times"@]
    } else if unsupported {
        seq![
            kind
                + ": date-limited published options are preserved but omitted from weekly optimization"@,
        ]
    } else {
        Seq::empty()
    }
}

/// The components of the given kinds, with what a course says about them.
pub open spec fn components_of(
    course_id: Seq<char>,
    kinds: Seq<Seq<char>>,
    raw: JsonView,
    limit: DateLimitView,
    unsupported: Option<Seq<char>>,
) -> Result<(Seq<RequirementView>, Seq<Seq<char>>), Seq<char>>
    decreases kinds.len(),
{
    if kinds.len() == 0 {
        Ok((Seq::empty(), Seq::empty()))
    } else {
        match components_of(course_id, kinds.drop_last(), raw, limit, unsupported) {
            Err(fault) => Err(fault),
            Ok((requirements, notices)) => match requirement_of(
                course_id,
                kinds.last(),
                raw,
                limit,
                unsupported,
            ) {
                Err(fault) => Err(fault),
                Ok(requirement) => Ok(
                    (
                        requirements.push(requirement),
                        notices + component_notices(requirement, unsupported is Some),
                    ),
                ),
            },
        }
    }
}

fn parse_components(
    course_id: &str,
    kinds: &Vec<String>,
    raw: &Json,
    limit: &DateLimit,
    unsupported: &Option<String>,
) -> (r: Result<(Vec<Requirement>, Vec<String>), Error>)
    ensures
        outcome(r) == components_of(
            course_id@,
            kinds.deep_view(),
            raw.deep_view(),
            limit.deep_view(),
            unsupported.deep_view(),
        ),
{
    let ghost all = kinds.deep_view();
    let ghost reason = unsupported.deep_view();
    let mut requirements: Vec<Requirement> = Vec::new();
    let mut notices: Vec<String> = Vec::new();
    let mut failure: Option<Error> = None;
    let mut index: usize = 0;
    proof {
        assert(all.take(0) =~= Seq::empty());
        assert(requirements.deep_view() =~= Seq::empty());
        assert(notices.deep_view() =~= Seq::empty());
    }
    while index < kinds.len()
        invariant
            index <= kinds@.len(),
            all == kinds.deep_view(),
            reason == unsupported.deep_view(),
            match components_of(
                course_id@,
                all.take(index as int),
                raw.deep_view(),
                limit.deep_view(),
                reason,
            ) {
                Err(fault) => failure is Some && (failure->0).deep_view() == fault,
                Ok((known, said)) => failure is None && requirements.deep_view() == known
                    && notices.deep_view() == said,
            },
        decreases kinds@.len() - index,
    {
        assert(all.take(index + 1).drop_last() =~= all.take(index as int));
        assert(all.take(index + 1).last() == kinds@[index as int]@);
        if failure.is_none() {
            let kind = kinds[index].as_str();
            match parse_requirement(course_id, kind, raw, limit, unsupported) {
                Ok(requirement) => {
                    let ghost known = requirements.deep_view();
                    let ghost said = notices.deep_view();
                    assert(requirement.options.deep_view().len() == requirement.options@.len());
                    if requirement.options.len() == 0 {
                        let mut notice = kind.to_owned();
                        notice.append(": no known meeting times");
                        notices.push(notice);
                    } else if unsupported.is_some() {
                        let mut notice = kind.to_owned();
                        notice.append(
                            ": date-limited published options are preserved but omitted from weekly optimization",
                        );
                        notices.push(notice);
                    }
                    assert(notices.deep_view() =~= said + component_notices(
                        requirement.deep_view(),
                        reason is Some,
                    ));
                    requirements.push(requirement);
                    assert(requirements.deep_view() =~= known.push(requirement.deep_view()));
                },
                Err(error) => {
                    failure = Some(error);
                },
            }
        }
        index += 1;
    }
    assert(all.take(index as int) =~= all);
    match failure {
        Some(error) => Err(error),
        None => Ok((requirements, notices)),
    }
}

/// The title of a course: its name, or its number where it has none.
pub open spec fn title_of(raw: JsonView, id: Seq<char>) -> Seq<char> {
    let name = match text_member(raw, "name"@) {
        Some(name) => name,
        None => match text_member(raw, "title"@) {
            Some(title) => title,
            None => Seq::empty(),
        },
    };
    if trimmed(name).len() == 0 {
        id
    } else {
        trimmed(name)
    }
}

fn course_title(raw: &Json, id: &String) -> (r: String)
    ensures
        r@ == title_of(raw.deep_view(), id@),
{
    let name = match raw.text_of("name") {
        Some(name) => name,
        None => match raw.text_of("title") {
            Some(title) => title,
            None => String::new(),
        },
    };
    let title = trim(name.as_str());
    proof {
        if name@.len() == 0 {
            assert(name@ =~= Seq::<char>::empty());
        }
    }
    if title.as_str().is_empty() {
        id.clone()
    } else {
        title
    }
}

/// Why the sections of a course cannot be placed, if they cannot.
pub open spec fn limit_reason(limit: DateLimitView) -> Option<Seq<char>> {
    if !limit.unsupported {
        None
    } else if limit.start is Some || limit.end is Some {
        Some("date-limited API section: partial-term optimization is not supported"@)
    } else {
        Some("partial-term API section: weekly optimization is not supported"@)
    }
}

/// A published course.
pub open spec fn course_of(
    key: Seq<char>,
    raw: JsonView,
    calendar: TermCalendarView,
    term: JsonView,
) -> Result<CourseView, Seq<char>> {
    let id = match text_member(raw, "number"@) {
        Some(number) => number,
        None => key,
    };
    if !(raw is Object) {
        Err("course "@ + key + " is not an object"@)
    } else if trimmed(id).len() == 0 {
        Err("course number is empty"@)
    } else {
        match kinds_of(raw) {
            Err(fault) => Err(fault),
            Ok(kinds) => match limit_of(raw, calendar, term) {
                Err(fault) => Err(fault),
                Ok(limit) => match components_of(id, kinds, raw, limit, limit_reason(limit)) {
                    Err(fault) => Err(fault),
                    Ok((requirements, notices)) => Ok(
                        CourseView { id, title: title_of(raw, id), requirements, notices },
                    ),
                },
            },
        }
    }
}

fn parse_course(key: &str, raw: &Json, calendar: &TermCalendar, term: &Json) -> (r: Result<
    Course,
    Error,
>)
    ensures
        outcome(r) == course_of(
            key@,
            raw.deep_view(),
            calendar.deep_view(),
            term.deep_view(),
        ),
{
    let object = match raw {
        Json::Object(_) => true,
        _ => false,
    };
    assert(object == (raw.deep_view() is Object));
    if !object {
        let mut message = "course ".to_owned();
        message.append(key);
        message.append(" is not an object");
        return Err(Error { message });
    }
    let id = match raw.text_of("number") {
        Some(number) => number,
        None => key.to_owned(),
    };
    if trim(id.as_str()).as_str().is_empty() {
        return Err(Error::new("course number is empty"));
    }
    let title = course_title(raw, &id);
    let kinds = match parse_kinds(raw) {
        Ok(kinds) => kinds,
        Err(error) => {
            return Err(error);
        },
    };
    let limit = match course_date_limit(raw, calendar, term) {
        Ok(limit) => limit,
        Err(error) => {
            return Err(error);
        },
    };
    let unsupported = if !limit.unsupported {
        None
    } else if limit.start.is_some() || limit.end.is_some() {
        Some("date-limited API section: partial-term optimization is not supported".to_owned())
    } else {
        Some("partial-term API section: weekly optimization is not supported".to_owned())
    };
    match parse_components(id.as_str(), &kinds, raw, &limit, &unsupported) {
        Ok((requirements, notices)) => Ok(Course { id, title, requirements, notices }),
        Err(error) => Err(error),
    }
}

/// The courses with one more.
pub open spec fn with_course(
    courses: Seq<(Seq<char>, CourseView)>,
    key: Seq<char>,
    course: CourseView,
) -> Result<Seq<(Seq<char>, CourseView)>, Seq<char>> {
    if lookup(courses, course.id) is Some {
        Err("duplicate course id in catalog: "@ + key)
    } else {
        Ok(map_insert::<String, CourseView>(courses, course.id, course))
    }
}

fn add_course(courses: OrderedMap<String, Course>, key: &str, course: Course) -> (r: Result<
    OrderedMap<String, Course>,
    Error,
>)
    ensures
        outcome(r) == with_course(courses.deep_view(), key@, course.deep_view()),
{
    if courses.get(&course.id).is_some() {
        let mut message = "duplicate course id in catalog: ".to_owned();
        message.append(key);
        return Err(Error { message });
    }
    let mut courses = courses;
    courses.insert(course.id.clone(), course);
    Ok(courses)
}

/// The courses of the given members of a catalog.
pub open spec fn courses_of(
    members: Seq<(Seq<char>, JsonView)>,
    calendar: TermCalendarView,
    term: JsonView,
) -> Result<Seq<(Seq<char>, CourseView)>, Seq<char>>
    decreases members.len(),
{
    if members.len() == 0 {
        Ok(Seq::empty())
    } else {
        let key = members.last().0;
        match courses_of(members.drop_last(), calendar, term) {
            Err(fault) => Err(fault),
            Ok(courses) => match course_of(key, members.last().1, calendar, term) {
                Err(fault) => Err("invalid course "@ + key + ": "@ + fault),
                Ok(course) => with_course(courses, key, course),
            },
        }
    }
}

fn parse_courses(members: &Vec<(String, Json)>, calendar: &TermCalendar, term: &Json) -> (r: Result<
    OrderedMap<String, Course>,
    Error,
>)
    ensures
        outcome(r) == courses_of(
            members.deep_view(),
            calendar.deep_view(),
            term.deep_view(),
        ),
{
    let ghost all = members.deep_view();
    let mut result: Result<OrderedMap<String, Course>, Error> = Ok(OrderedMap::new());
    let mut index: usize = 0;
    assert(all.take(0) =~= Seq::empty());
    while index < members.len()
        invariant
            index <= members@.len(),
            all == members.deep_view(),
            outcome(result) == courses_of(
                all.take(index as int),
                calendar.deep_view(),
                term.deep_view(),
            ),
        decreases members@.len() - index,
    {
        let key = members[index].0.as_str();
        assert(all.take(index + 1).drop_last() =~= all.take(index as int));
        assert(all.take(index + 1).last() == members@[index as int].deep_view());
        result = match result {
            Ok(courses) => match parse_course(key, &members[index].1, calendar, term) {
                Ok(course) => add_course(courses, key, course),
                Err(error) => {
                    let mut context = "invalid course ".to_owned();
                    context.append(key);
                    Err(error.within(context.as_str()))
                },
            },
            Err(error) => Err(error),
        };
        index += 1;
    }
    assert(all.take(index as int) =~= all);
    result
}

/// The quarter that a member name stands for: 1 to 4, or 5 for the January period.
pub open spec fn quarter_named(name: Seq<char>) -> Option<int> {
    if name == "1"@ {
        Some(1)
    } else if name == "2"@ {
        Some(2)
    } else if name == "3"@ {
        Some(3)
    } else if name == "4"@ {
        Some(4)
    } else if name == "5"@ {
        Some(5)
    } else {
        None
    }
}

fn quarter_number(name: &str) -> (r: Option<u8>)
    ensures
        match quarter_named(name@) {
            Some(quarter) => r is Some && r->0 == quarter,
            None => r is None,
        },
        r is Some ==> 1 <= r->0 <= 5,
{
    if same_text(name, "1") {
        Some(1)
    } else if same_text(name, "2") {
        Some(2)
    } else if same_text(name, "3") {
        Some(3)
    } else if same_text(name, "4") {
        Some(4)
    } else if same_text(name, "5") {
        Some(5)
    } else {
        None
    }
}

/// How a title names a quarter.
pub open spec fn quarter_title(quarter: int) -> Seq<char> {
    if quarter == 5 {
        "IAP"@
    } else {
        "Q"@ + decimal(quarter as nat)
    }
}

/// What identifies a physical education section, as a JSON array.
pub open spec fn pe_source(
    course_id: Seq<char>,
    meetings: Seq<Meeting>,
    room: Seq<char>,
    number: Seq<char>,
) -> Seq<char> {
    "["@ + json_quoted(course_id) + ",\"pe\",["@ + meetings_json(meetings) + "],"@ + json_quoted(
        room,
    ) + ","@ + json_quoted(number) + "]"@
}

/// The label of a physical education section, with the dates where both are known.
pub open spec fn pe_label(
    labels: Option<Seq<JsonView>>,
    index: int,
    number: Seq<char>,
    start: Option<int>,
    end: Option<int>,
) -> Seq<char> {
    let made = "Section "@ + number;
    let base = match labels {
        Some(labels) => if index < labels.len() {
            match labels[index] {
                JsonView::Text(text) => if trimmed(text).len() > 0 {
                    trimmed(text)
                } else {
                    made
                },
                _ => made,
            }
        } else {
            made
        },
        None => made,
    };
    if start is Some && end is Some {
        base + " ("@ + date_text(start->0) + " to "@ + date_text(end->0) + ")"@
    } else {
        base
    }
}

fn pe_section_label(
    labels: Option<&Vec<Json>>,
    index: usize,
    number: &str,
    start: Option<Date>,
    end: Option<Date>,
) -> (r: String)
    ensures
        r@ == pe_label(
            labels.deep_view(),
            index as int,
            number@,
            start.deep_view(),
            end.deep_view(),
        ),
{
    let mut base = "Section ".to_owned();
    base.append(number);
    if let Some(labels) = labels {
        assert(labels.deep_view().len() == labels@.len());
        if index < labels.len() {
            assert(labels.deep_view()[index as int] == labels@[index as int].deep_view());
            if let Json::Text(text) = &labels[index] {
                let text = trim(text.as_str());
                if !text.as_str().is_empty() {
                    base = text;
                }
            }
        }
    }
    if let (Some(start), Some(end)) = (start, end) {
        base.append(" (");
        base.append(start.text().as_str());
        base.append(" to ");
        base.append(end.text().as_str());
        base.append(")");
    }
    base
}

/// The number of a section: the published one, or its position where none are published.
pub open spec fn section_number(numbers: Option<Seq<JsonView>>, index: int) -> Option<Seq<char>> {
    match numbers {
        None => Some(decimal((index + 1) as nat)),
        Some(numbers) => match numbers[index] {
            JsonView::Text(number) => Some(number),
            _ => None,
        },
    }
}

/// A physical education section.
pub open spec fn pe_section_of(
    course_id: Seq<char>,
    index: int,
    section: JsonView,
    number: Seq<char>,
    labels: Option<Seq<JsonView>>,
    start: Option<int>,
    end: Option<int>,
) -> Result<SectionOptionView, Seq<char>> {
    match section_parts(section, start, end) {
        Err(fault) => Err(fault),
        Ok((meetings, room)) => Ok(
            SectionOptionView {
                id: "api-"@ + sha256_hex(pe_source(course_id, meetings, room, number)),
                label: pe_label(labels, index, number, start, end),
                room,
                source: Source::Api,
                meetings,
                incompatible_with: Seq::empty(),
                unsupported_reason: if start is None || end is None {
                    Some("PE section dates have not been announced"@)
                } else if meetings.len() == 0 {
                    Some("section has no known meeting times"@)
                } else {
                    None
                },
            },
        ),
    }
}

fn parse_pe_section(
    course_id: &str,
    index: usize,
    section: &Json,
    number: &str,
    labels: Option<&Vec<Json>>,
    start: Option<Date>,
    end: Option<Date>,
) -> (r: Result<SectionOption, Error>)
    ensures
        outcome(r) == pe_section_of(
            course_id@,
            index as int,
            section.deep_view(),
            number@,
            labels.deep_view(),
            start.deep_view(),
            end.deep_view(),
        ),
{
    let (meetings, room) = match parse_section_parts(section, start, end) {
        Ok(parts) => parts,
        Err(error) => {
            return Err(error);
        },
    };
    let mut source = "[".to_owned();
    source.append(json_string(course_id).as_str());
    source.append(",\"pe\",[");
    source.append(meetings_json_text(&meetings).as_str());
    source.append("],");
    source.append(json_string(room.as_str()).as_str());
    source.append(",");
    source.append(json_string(number).as_str());
    source.append("]");
    let mut id = "api-".to_owned();
    id.append(digest_hex(source.as_str()).as_str());
    let unsupported_reason = if start.is_none() || end.is_none() {
        Some("PE section dates have not been announced".to_owned())
    } else if meetings.len() == 0 {
        Some("section has no known meeting times".to_owned())
    } else {
        None
    };
    proof {
        lemma_meetings_view(meetings);
    }
    Ok(
        SectionOption {
            id,
            label: pe_section_label(labels, index, number, start, end),
            room,
            source: Source::Api,
            meetings,
            incompatible_with: OrderedSet::new(),
            unsupported_reason,
        },
    )
}

/// The first `n` physical education sections of a course, and their numbers.
pub open spec fn pe_sections_of(
    course_id: Seq<char>,
    sections: Seq<JsonView>,
    numbers: Option<Seq<JsonView>>,
    labels: Option<Seq<JsonView>>,
    start: Option<int>,
    end: Option<int>,
) -> Result<(Seq<SectionOptionView>, Seq<Seq<char>>), Seq<char>>
    decreases sections.len(),
{
    if sections.len() == 0 {
        Ok((Seq::empty(), Seq::empty()))
    } else {
        let index = sections.len() - 1;
        match pe_sections_of(course_id, sections.drop_last(), numbers, labels, start, end) {
            Err(fault) => Err(fault),
            Ok((options, known)) => match section_number(numbers, index) {
                None => Err("sectionNumbers entries must be strings"@),
                Some(number) => if known.contains(number) {
                    Err("duplicate PE section number "@ + number)
                } else {
                    match pe_section_of(
                        course_id,
                        index,
                        sections.last(),
                        number,
                        labels,
                        start,
                        end,
                    ) {
                        Err(fault) => Err(
                            "invalid "@ + course_id + " section "@ + number + ": "@ + fault,
                        ),
                        Ok(option) => Ok((options.push(option), known.push(number))),
                    }
                },
            },
        }
    }
}

fn parse_pe_sections(
    course_id: &str,
    sections: &Vec<Json>,
    numbers: Option<&Vec<Json>>,
    labels: Option<&Vec<Json>>,
    start: Option<Date>,
    end: Option<Date>,
) -> (r: Result<Vec<SectionOption>, Error>)
    requires
        numbers is Some ==> (numbers->0)@.len() == sections@.len(),
    ensures
        outcome(r) == (match pe_sections_of(
            course_id@,
            sections.deep_view(),
            numbers.deep_view(),
            labels.deep_view(),
            start.deep_view(),
            end.deep_view(),
        ) {
            Err(fault) => Err(fault),
            Ok((options, _)) => Ok(options),
        }),
{
    let ghost all = sections.deep_view();
    let ghost from = start.deep_view();
    let ghost to = end.deep_view();
    let mut options: Vec<SectionOption> = Vec::new();
    let mut known: Vec<String> = Vec::new();
    let mut failure: Option<Error> = None;
    let mut index: usize = 0;
    proof {
        assert(all.take(0) =~= Seq::empty());
        assert(options.deep_view() =~= Seq::empty());
        assert(known.deep_view() =~= Seq::empty());
    }
    while index < sections.len()
        invariant
            index <= sections@.len(),
            numbers is Some ==> (numbers->0)@.len() == sections@.len(),
            all == sections.deep_view(),
            from == start.deep_view(),
            to == end.deep_view(),
            match pe_sections_of(
                course_id@,
                all.take(index as int),
                numbers.deep_view(),
                labels.deep_view(),
                from,
                to,
            ) {
                Err(fault) => failure is Some && (failure->0).deep_view() == fault,
                Ok((o, k)) => failure is None && options.deep_view() == o && known.deep_view() == k,
            },
        decreases sections@.len() - index,
    {
        assert(all.take(index + 1).drop_last() =~= all.take(index as int));
        assert(all.take(index + 1).last() == sections@[index as int].deep_view());
        if failure.is_none() {
            let number = match numbers {
                None => Some(decimal_text((index + 1) as u64)),
                Some(numbers) => {
                    assert(numbers.deep_view()[index as int]
                        == numbers@[index as int].deep_view());
                    match numbers[index].text() {
                        Some(number) => Some(number.clone()),
                        None => None,
                    }
                },
            };
            assert(number.deep_view() == section_number(numbers.deep_view(), index as int));
            match number {
                None => {
                    failure = Some(Error::new("sectionNumbers entries must be strings"));
                },
                Some(number) => if contains_text(&known, &number) {
                    let mut message = "duplicate PE section number ".to_owned();
                    message.append(number.as_str());
                    failure = Some(Error { message });
                } else {
                    match parse_pe_section(
                        course_id,
                        index,
                        &sections[index],
                        number.as_str(),
                        labels,
                        start,
                        end,
                    ) {
                        Ok(option) => {
                            let ghost o = options.deep_view();
                            let ghost k = known.deep_view();
                            let ghost n = number@;
                            options.push(option);
                            known.push(number);
                            assert(options.deep_view() =~= o.push(option.deep_view()));
                            assert(known.deep_view() =~= k.push(n));
                        },
                        Err(error) => {
                            let mut context = "invalid ".to_owned();
                            context.append(course_id);
                            context.append(" section ");
                            context.append(number.as_str());
                            failure = Some(error.within(context.as_str()));
                        },
                    }
                },
            }
        }
        index += 1;
    }
    assert(all.take(index as int) =~= all);
    match failure {
        Some(error) => Err(error),
        None => Ok(options),
    }
}

/// A member that has to be a list where it is there.
pub open spec fn list_member(raw: JsonView, name: Seq<char>) -> Result<
    Option<Seq<JsonView>>,
    Seq<char>,
> {
    match member(raw, name) {
        None => Ok(None),
        Some(JsonView::Array(items)) => Ok(Some(items)),
        Some(_) => Err(name + " must be an array"@),
    }
}

fn list_of<'a>(raw: &'a Json, name: &str) -> (r: Result<Option<&'a Vec<Json>>, Error>)
    ensures
        outcome(r) == list_member(raw.deep_view(), name@),
{
    match raw.get(name) {
        None => Ok(None),
        Some(value) => match value.items() {
            Some(items) => Ok(Some(items)),
            None => {
                let mut message = name.to_owned();
                message.append(" must be an array");
                Err(Error { message })
            },
        },
    }
}

/// Whether a course belongs to the quarter under which it is listed.
pub open spec fn quarter_agrees(raw: JsonView, quarter: int) -> bool {
    match member(raw, "quarter"@) {
        None => true,
        Some(JsonView::Number(Some(n), _)) => n == quarter,
        Some(_) => false,
    }
}

/// What a physical education course says about its sections.
pub open spec fn pe_notices(
    options: Seq<SectionOptionView>,
    start: Option<int>,
    end: Option<int>,
) -> Seq<Seq<char>> {
    let unreadable = if times_unknown(options) {
        seq!["pe: some meeting times are not machine-readable"@]
    } else {
        Seq::empty()
    };
    let undated = if options.len() > 0 && (start is None || end is None) {
        seq![
            "pe: published options without announced dates are preserved but omitted from weekly optimization"@,
        ]
    } else {
        Seq::empty()
    };
    unreadable + undated
}

/// A physical education course of a quarter.
pub open spec fn pe_course_of(quarter: int, key: Seq<char>, raw: JsonView) -> Result<
    CourseView,
    Seq<char>,
> {
    let number = match text_member(raw, "number"@) {
        Some(number) => number,
        None => key,
    };
    let id = number + ".Q"@ + decimal(quarter as nat);
    let title = title_of(raw, number) + " ("@ + quarter_title(quarter) + ")"@;
    if !(raw is Object) {
        Err("course "@ + key + " is not an object"@)
    } else if trimmed(number).len() == 0 {
        Err("course number is empty"@)
    } else if !quarter_agrees(raw, quarter) {
        Err("quarter does not match the quarter under which the course is listed"@)
    } else {
        match optional_date_member(raw, "startDate"@) {
            Err(fault) => Err(fault),
            Ok(start) => match optional_date_member(raw, "endDate"@) {
                Err(fault) => Err(fault),
                Ok(end) => if start is Some && end is Some && start->0 > end->0 {
                    Err("startDate follows endDate"@)
                } else {
                    match list_member(raw, "sections"@) {
                        Err(fault) => Err(fault),
                        Ok(listed) => match list_member(raw, "sectionNumbers"@) {
                            Err(fault) => Err(fault),
                            Ok(numbers) => match list_member(raw, "rawSections"@) {
                                Err(fault) => Err(fault),
                                Ok(labels) => {
                                    let sections = match listed {
                                        Some(sections) => sections,
                                        None => Seq::empty(),
                                    };
                                    pe_course_with(id, title, sections, numbers, labels, start, end)
                                },
                            },
                        },
                    }
                },
            },
        }
    }
}

/// A physical education course with the given sections.
pub open spec fn pe_course_with(
    id: Seq<char>,
    title: Seq<char>,
    sections: Seq<JsonView>,
    numbers: Option<Seq<JsonView>>,
    labels: Option<Seq<JsonView>>,
    start: Option<int>,
    end: Option<int>,
) -> Result<CourseView, Seq<char>> {
    if numbers is Some && (numbers->0).len() != sections.len() {
        Err("sectionNumbers must have one entry per section"@)
    } else {
        match pe_sections_of(id, sections, numbers, labels, start, end) {
            Err(fault) => Err(fault),
            Ok((options, _)) => {
                let sorted = stable_sorted(options, id_le());
                Ok(
                    CourseView {
                        id,
                        title,
                        requirements: seq![
                            RequirementView {
                                id: id + "/pe"@,
                                kind: "pe"@,
                                options: sorted,
                                has_unknown_times: times_unknown(sorted),
                            },
                        ],
                        notices: pe_notices(sorted, start, end),
                    },
                )
            },
        }
    }
}

fn parse_pe_course(quarter: u8, key: &str, raw: &Json) -> (r: Result<Course, Error>)
    ensures
        outcome(r) == pe_course_of(quarter as int, key@, raw.deep_view()),
{
    let object = match raw {
        Json::Object(_) => true,
        _ => false,
    };
    assert(object == (raw.deep_view() is Object));
    if !object {
        let mut message = "course ".to_owned();
        message.append(key);
        message.append(" is not an object");
        return Err(Error { message });
    }
    let number = match raw.text_of("number") {
        Some(number) => number,
        None => key.to_owned(),
    };
    if trim(number.as_str()).as_str().is_empty() {
        return Err(Error::new("course number is empty"));
    }
    let agrees = match raw.get("quarter") {
        None => true,
        Some(Json::Number(Some(n), _)) => *n == quarter as i64,
        Some(_) => false,
    };
    if !agrees {
        return Err(
            Error::new("quarter does not match the quarter under which the course is listed"),
        );
    }
    let mut id = number.clone();
    id.append(".Q");
    id.append(decimal_text(quarter as u64).as_str());
    let mut title = course_title(raw, &number);
    title.append(" (");
    let mut quarter_text = "Q".to_owned();
    quarter_text.append(decimal_text(quarter as u64).as_str());
    if quarter == 5 {
        quarter_text = "IAP".to_owned();
    }
    title.append(quarter_text.as_str());
    title.append(")");
    let start = match optional_date_field(raw, "startDate") {
        Ok(start) => start,
        Err(error) => {
            return Err(error);
        },
    };
    let end = match optional_date_field(raw, "endDate") {
        Ok(end) => end,
        Err(error) => {
            return Err(error);
        },
    };
    if let (Some(start), Some(end)) = (start, end) {
        if start.is_after(&end) {
            return Err(Error::new("startDate follows endDate"));
        }
    }
    let listed = match list_of(raw, "sections") {
        Ok(listed) => listed,
        Err(error) => {
            return Err(error);
        },
    };
    let numbers = match list_of(raw, "sectionNumbers") {
        Ok(numbers) => numbers,
        Err(error) => {
            return Err(error);
        },
    };
    let labels = match list_of(raw, "rawSections") {
        Ok(labels) => labels,
        Err(error) => {
            return Err(error);
        },
    };
    let none: Vec<Json> = Vec::new();
    assert(none.deep_view() =~= Seq::empty());
    let sections = match listed {
        Some(sections) => sections,
        None => &none,
    };
    pe_course_from(id, title, sections, numbers, labels, start, end)
}

fn pe_course_from(
    id: String,
    title: String,
    sections: &Vec<Json>,
    numbers: Option<&Vec<Json>>,
    labels: Option<&Vec<Json>>,
    start: Option<Date>,
    end: Option<Date>,
) -> (r: Result<Course, Error>)
    ensures
        outcome(r) == pe_course_with(
            id@,
            title@,
            sections.deep_view(),
            numbers.deep_view(),
            labels.deep_view(),
            start.deep_view(),
            end.deep_view(),
        ),
{
    assert(sections.deep_view().len() == sections@.len());
    if let Some(numbers) = numbers {
        assert(numbers.deep_view().len() == numbers@.len());
        if numbers.len() != sections.len() {
            return Err(Error::new("sectionNumbers must have one entry per section"));
        }
    }
    let options = match parse_pe_sections(id.as_str(), sections, numbers, labels, start, end) {
        Ok(options) => options,
        Err(error) => {
            return Err(error);
        },
    };
    let options = sort_by(options, option_may_precede, Ghost(id_le()));
    assert(options.deep_view().len() == options@.len());
    let has_unknown_times = are_times_unknown(&options);
    let mut notices: Vec<String> = Vec::new();
    if has_unknown_times {
        notices.push("pe: some meeting times are not machine-readable".to_owned());
    }
    if options.len() > 0 && (start.is_none() || end.is_none()) {
        notices.push(
            "pe: published options without announced dates are preserved but omitted from weekly optimization".to_owned(),
        );
    }
    assert(notices.deep_view() =~= pe_notices(
        options.deep_view(),
        start.deep_view(),
        end.deep_view(),
    ));
    let mut requirement_id = id.clone();
    requirement_id.append("/pe");
    let requirement = Requirement {
        id: requirement_id,
        kind: "pe".to_owned(),
        options,
        has_unknown_times,
    };
    let ghost view = requirement.deep_view();
    let mut requirements: Vec<Requirement> = Vec::new();
    requirements.push(requirement);
    assert(requirements.deep_view() =~= seq![view]);
    Ok(Course { id, title, requirements, notices })
}

/// The courses with the physical education courses of a quarter.
pub open spec fn with_quarter(
    courses: Seq<(Seq<char>, CourseView)>,
    quarter: int,
    members: Seq<(Seq<char>, JsonView)>,
) -> Result<Seq<(Seq<char>, CourseView)>, Seq<char>>
    decreases members.len(),
{
    if members.len() == 0 {
        Ok(courses)
    } else {
        let key = members.last().0;
        match with_quarter(courses, quarter, members.drop_last()) {
            Err(fault) => Err(fault),
            Ok(courses) => match pe_course_of(quarter, key, members.last().1) {
                Err(fault) => Err("invalid PE course "@ + key + ": "@ + fault),
                Ok(course) => with_course(courses, key, course),
            },
        }
    }
}

/// The courses with the physical education courses of the given quarters.
pub open spec fn with_quarters(
    courses: Seq<(Seq<char>, CourseView)>,
    quarters: Seq<(Seq<char>, JsonView)>,
) -> Result<Seq<(Seq<char>, CourseView)>, Seq<char>>
    decreases quarters.len(),
{
    if quarters.len() == 0 {
        Ok(courses)
    } else {
        let name = quarters.last().0;
        match with_quarters(courses, quarters.drop_last()) {
            Err(fault) => Err(fault),
            Ok(courses) => match quarter_named(name) {
                None => Err("PE quarter must be 1 through 5: "@ + name),
                Some(quarter) => match quarters.last().1 {
                    JsonView::Object(members) => with_quarter(courses, quarter, members),
                    _ => Err("PE quarter "@ + name + " must be an object"@),
                },
            },
        }
    }
}

fn add_quarter(
    courses: OrderedMap<String, Course>,
    quarter: u8,
    members: &Vec<(String, Json)>,
) -> (r: Result<OrderedMap<String, Course>, Error>)
    ensures
        outcome(r) == with_quarter(courses.deep_view(), quarter as int, members.deep_view()),
{
    let ghost all = members.deep_view();
    let ghost start = courses.deep_view();
    let mut result: Result<OrderedMap<String, Course>, Error> = Ok(courses);
    let mut index: usize = 0;
    assert(all.take(0) =~= Seq::empty());
    while index < members.len()
        invariant
            index <= members@.len(),
            all == members.deep_view(),
            outcome(result) == with_quarter(start, quarter as int, all.take(index as int)),
        decreases members@.len() - index,
    {
        let key = members[index].0.as_str();
        assert(all.take(index + 1).drop_last() =~= all.take(index as int));
        assert(all.take(index + 1).last() == members@[index as int].deep_view());
        result = match result {
            Ok(courses) => match parse_pe_course(quarter, key, &members[index].1) {
                Ok(course) => add_course(courses, key, course),
                Err(error) => {
                    let mut context = "invalid PE course ".to_owned();
                    context.append(key);
                    Err(error.within(context.as_str()))
                },
            },
            Err(error) => Err(error),
        };
        index += 1;
    }
    assert(all.take(index as int) =~= all);
    result
}

fn add_quarter_member(courses: OrderedMap<String, Course>, name: &str, value: &Json) -> (r: Result<
    OrderedMap<String, Course>,
    Error,
>)
    ensures
        outcome(r) == (match quarter_named(name@) {
            None => Err("PE quarter must be 1 through 5: "@ + name@),
            Some(quarter) => match value.deep_view() {
                JsonView::Object(members) => with_quarter(courses.deep_view(), quarter, members),
                _ => Err("PE quarter "@ + name@ + " must be an object"@),
            },
        }),
{
    let quarter = match quarter_number(name) {
        Some(quarter) => quarter,
        None => {
            let mut message = "PE quarter must be 1 through 5: ".to_owned();
            message.append(name);
            return Err(Error { message });
        },
    };
    match value {
        Json::Object(members) => {
            assert(members.deep_view() =~= value.deep_view()->Object_0);
            add_quarter(courses, quarter, members)
        },
        _ => {
            let mut message = "PE quarter ".to_owned();
            message.append(name);
            message.append(" must be an object");
            Err(Error { message })
        },
    }
}

fn add_quarters(courses: OrderedMap<String, Course>, quarters: &Vec<(String, Json)>) -> (r: Result<
    OrderedMap<String, Course>,
    Error,
>)
    ensures
        outcome(r) == with_quarters(courses.deep_view(), quarters.deep_view()),
{
    let ghost all = quarters.deep_view();
    let ghost start = courses.deep_view();
    let mut result: Result<OrderedMap<String, Course>, Error> = Ok(courses);
    let mut index: usize = 0;
    assert(all.take(0) =~= Seq::empty());
    while index < quarters.len()
        invariant
            index <= quarters@.len(),
            all == quarters.deep_view(),
            outcome(result) == with_quarters(start, all.take(index as int)),
        decreases quarters@.len() - index,
    {
        assert(all.take(index + 1).drop_last() =~= all.take(index as int));
        assert(all.take(index + 1).last() == quarters@[index as int].deep_view());
        result = match result {
            Ok(courses) => add_quarter_member(
                courses,
                quarters[index].0.as_str(),
                &quarters[index].1,
            ),
            Err(error) => Err(error),
        };
        index += 1;
    }
    assert(all.take(index as int) =~= all);
    result
}

/// The courses with the physical education courses of a catalog.
pub open spec fn with_pe(courses: Seq<(Seq<char>, CourseView)>, catalog: JsonView) -> Result<
    Seq<(Seq<char>, CourseView)>,
    Seq<char>,
> {
    match member(catalog, "pe"@) {
        None => Ok(courses),
        Some(JsonView::Null) => Ok(courses),
        Some(JsonView::Object(quarters)) => with_quarters(courses, quarters),
        Some(_) => Err("pe must be an object"@),
    }
}

fn add_pe(courses: OrderedMap<String, Course>, catalog: &Json) -> (r: Result<
    OrderedMap<String, Course>,
    Error,
>)
    ensures
        outcome(r) == with_pe(courses.deep_view(), catalog.deep_view()),
{
    match catalog.get("pe") {
        None => Ok(courses),
        Some(Json::Null) => Ok(courses),
        Some(value) => match value {
            Json::Object(quarters) => {
                assert(quarters.deep_view() =~= value.deep_view()->Object_0);
                add_quarters(courses, quarters)
            },
            _ => Err(Error::new("pe must be an object")),
        },
    }
}

/// The dataset that a catalog and the metadata of its term describe.
pub open spec fn dataset_of(catalog: JsonView, term: JsonView) -> Result<DatasetView, Seq<char>> {
    let catalog_term = match member(catalog, "termInfo"@) {
        Some(info) => info,
        None => JsonView::Null,
    };
    match term_for(catalog_term, term) {
        Err(fault) => Err(fault),
        Ok(info) => {
            let name = match text_member(info, "urlName"@) {
                Some(name) => Some(name),
                None => text_member(catalog_term, "urlName"@),
            };
            match name {
                None => Err("term metadata is missing urlName"@),
                Some(term_id) => match calendar_of(info) {
                    Err(fault) => Err(
                        "invalid calendar metadata for "@ + term_id + ": "@ + fault,
                    ),
                    Ok(calendar) => dataset_with(catalog, info, term_id, calendar),
                },
            }
        },
    }
}

/// The dataset of a catalog whose term is known.
pub open spec fn dataset_with(
    catalog: JsonView,
    term: JsonView,
    term_id: Seq<char>,
    calendar: TermCalendarView,
) -> Result<DatasetView, Seq<char>> {
    match member(catalog, "classes"@) {
        Some(JsonView::Object(members)) => if members.len() == 0 {
            Err("catalog contains no classes"@)
        } else {
            match courses_of(members, calendar, term) {
                Err(fault) => Err(fault),
                Ok(courses) => match with_pe(courses, catalog) {
                    Err(fault) => Err(fault),
                    Ok(courses) => {
                        let updated = match text_member(catalog, "lastUpdated"@) {
                            Some(updated) => updated,
                            None => "unknown"@,
                        };
                        Ok(
                            DatasetView {
                                term_id,
                                last_updated: updated,
                                calendar: Some(calendar),
                                courses,
                                notices: if updated == "unknown"@ {
                                    seq!["catalog did not include lastUpdated metadata"@]
                                } else {
                                    Seq::empty()
                                },
                            },
                        )
                    },
                },
            }
        },
        _ => Err("catalog is missing classes object"@),
    }
}

/// The dataset that two texts describe; the second may be blank.
pub open spec fn catalog_dataset(catalog: Seq<char>, term: Seq<char>) -> Result<
    DatasetView,
    Seq<char>,
> {
    match json_value(catalog) {
        Err(fault) => Err("catalog JSON is malformed"@ + ": "@ + fault),
        Ok(catalog) => if trimmed(term).len() == 0 {
            dataset_of(catalog, JsonView::Null)
        } else {
            match json_value(term) {
                Err(fault) => Err("term JSON is malformed"@ + ": "@ + fault),
                Ok(term) => dataset_of(catalog, term),
            }
        },
    }
}

fn dataset_from(catalog: &Json, term: &Json, term_id: String, calendar: TermCalendar) -> (r: Result<
    Dataset,
    Error,
>)
    ensures
        outcome(r) == dataset_with(
            catalog.deep_view(),
            term.deep_view(),
            term_id@,
            calendar.deep_view(),
        ),
{
    let members = match catalog.get("classes") {
        Some(Json::Object(members)) => {
            proof {
                let classes = member(catalog.deep_view(), "classes"@);
                assert(members.deep_view() =~= (classes->0)->Object_0);
            }
            members
        },
        _ => {
            return Err(Error::new("catalog is missing classes object"));
        },
    };
    assert(members.deep_view().len() == members@.len());
    if members.len() == 0 {
        return Err(Error::new("catalog contains no classes"));
    }
    let courses = match parse_courses(members, &calendar, term) {
        Ok(courses) => courses,
        Err(error) => {
            return Err(error);
        },
    };
    let courses = match add_pe(courses, catalog) {
        Ok(courses) => courses,
        Err(error) => {
            return Err(error);
        },
    };
    let last_updated = match catalog.text_of("lastUpdated") {
        Some(updated) => updated,
        None => "unknown".to_owned(),
    };
    let mut notices: Vec<String> = Vec::new();
    if same_text(last_updated.as_str(), "unknown") {
        notices.push("catalog did not include lastUpdated metadata".to_owned());
        assert(notices.deep_view() =~= seq!["catalog did not include lastUpdated metadata"@]);
    } else {
        assert(notices.deep_view() =~= Seq::empty());
    }
    Ok(Dataset { term_id, last_updated, calendar: Some(calendar), courses, notices })
}

/// Reads parsed documents: a catalog and the metadata of its term, which may be null.
pub fn parse_documents(catalog: &Json, term: &Json) -> (r: Result<Dataset, Error>)
    ensures
        outcome(r) == dataset_of(catalog.deep_view(), term.deep_view()),
{
    let null = Json::Null;
    let catalog_term = match catalog.get("termInfo") {
        Some(info) => info,
        None => &null,
    };
    let info = match select_term_info(catalog_term, term) {
        Ok(info) => info,
        Err(error) => {
            return Err(error);
        },
    };
    let term_id = match info.text_of("urlName") {
        Some(name) => name,
        None => match catalog_term.text_of("urlName") {
            Some(name) => name,
            None => {
                return Err(Error::new("term metadata is missing urlName"));
            },
        },
    };
    let calendar = match parse_calendar(info) {
        Ok(calendar) => calendar,
        Err(error) => {
            let mut context = "invalid calendar metadata for ".to_owned();
            context.append(term_id.as_str());
            return Err(error.within(context.as_str()));
        },
    };
    dataset_from(catalog, info, term_id, calendar)
}

/// Reads a published catalog and the metadata of its term; the latter may be blank.
pub fn parse_catalog(catalog: &str, term: &str) -> (r: Result<Dataset, Error>)
    ensures
        outcome(r) == catalog_dataset(catalog@, term@),
{
    let catalog = match parse_json(catalog) {
        Ok(catalog) => catalog,
        Err(error) => {
            let error = error.within("catalog JSON is malformed");
            return Err(error);
        },
    };
    let term = if trim(term).as_str().is_empty() {
        Json::Null
    } else {
        match parse_json(term) {
            Ok(term) => term,
            Err(error) => {
                let error = error.within("term JSON is malformed");
                return Err(error);
            },
        }
    };
    parse_documents(&catalog, &term)
}

} // verus!
