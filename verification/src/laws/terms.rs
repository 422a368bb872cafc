//! What a dataset takes from the metadata of its term, and that nothing published is lost.
use vstd::prelude::*;
use crate::adapter::{
    alternates_of, calendar_of, find_term, holidays_in, limit_of, limit_reason, month_day_in,
    schedule_member, term_for, with_alternate, with_alternate_member, with_alternates,
};
use crate::date::{civil, civil_of, day_number, read_date, Date};
use crate::json::{member, text_member, JsonView};
use crate::laws::notation::english;
use crate::model::TermCalendarView;
use crate::order::{
    ascending, keys_of, law_lookup_after_insert, lemma_map_insert, lemma_set_insert, lookup,
};

verus! {

/// A value is the text of a day.
pub open spec fn is_day(json: JsonView, day: int) -> bool {
    json matches JsonView::Text(text) && read_date(text) == Ok::<int, Seq<char>>(day)
}

/// A value is the text of a day, or a list with it.
pub open spec fn holds_day(json: JsonView, day: int) -> bool {
    ||| is_day(json, day)
    ||| json matches JsonView::Array(items) && exists|k: int|
        0 <= k < items.len() && is_day(#[trigger] items[k], day)
}

proof fn lemma_holidays(items: Seq<JsonView>, day: int)
    requires
        holidays_in(items) is Ok,
    ensures
        ascending::<Date>(holidays_in(items)->Ok_0),
        (holidays_in(items)->Ok_0).contains(day) <==> exists|k: int|
            0 <= k < items.len() && is_day(#[trigger] items[k], day),
    decreases items.len(),
{
    if items.len() > 0 {
        let rest = items.drop_last();
        let at = items.len() - 1;
        let known = holidays_in(rest)->Ok_0;
        lemma_holidays(rest, day);
        let own = read_date(items.last()->Text_0)->Ok_0;
        lemma_set_insert::<Date>(known, own);
        assert(items[at] == items.last());
        assert(forall|k: int| 0 <= k < rest.len() ==> #[trigger] rest[k] == items[k]);
        if known.contains(day) {
            let k = choose|k: int| 0 <= k < rest.len() && is_day(#[trigger] rest[k], day);
            assert(is_day(items[k], day));
        }
        if exists|k: int| 0 <= k < items.len() && is_day(#[trigger] items[k], day) {
            let k = choose|k: int| 0 <= k < items.len() && is_day(#[trigger] items[k], day);
            if k < at {
                assert(is_day(rest[k], day));
            }
        }
        if day == own {
            assert(is_day(items[at], day));
        }
    }
}

proof fn lemma_with_alternate(days: Seq<(int, u8)>, own: int, weekday: u8, day: int, w: u8)
    requires
        ascending::<Date>(keys_of(days)),
        with_alternate(days, own, weekday) is Ok,
    ensures
        ascending::<Date>(keys_of(with_alternate(days, own, weekday)->Ok_0)),
        lookup(with_alternate(days, own, weekday)->Ok_0, day) == Some(w) <==> lookup(days, day)
            == Some(w) || (day == own && w == weekday),
{
    lemma_map_insert::<Date, u8>(days, own, weekday);
    law_lookup_after_insert::<Date, u8>(days, own, weekday, day);
}

proof fn lemma_with_alternates(
    days: Seq<(int, u8)>,
    name: Seq<char>,
    weekday: u8,
    items: Seq<JsonView>,
    day: int,
    w: u8,
)
    requires
        ascending::<Date>(keys_of(days)),
        with_alternates(days, name, weekday, items) is Ok,
    ensures
        ascending::<Date>(keys_of(with_alternates(days, name, weekday, items)->Ok_0)),
        lookup(with_alternates(days, name, weekday, items)->Ok_0, day) == Some(w) <==> lookup(
            days,
            day,
        ) == Some(w) || (w == weekday && exists|k: int|
            0 <= k < items.len() && is_day(#[trigger] items[k], day)),
    decreases items.len(),
{
    if items.len() > 0 {
        let rest = items.drop_last();
        let at = items.len() - 1;
        let known = with_alternates(days, name, weekday, rest)->Ok_0;
        let own = read_date(items.last()->Text_0)->Ok_0;
        lemma_with_alternates(days, name, weekday, rest, day, w);
        lemma_with_alternate(known, own, weekday, day, w);
        assert(items[at] == items.last());
        assert(forall|k: int| 0 <= k < rest.len() ==> #[trigger] rest[k] == items[k]);
        if exists|k: int| 0 <= k < rest.len() && is_day(#[trigger] rest[k], day) {
            let k = choose|k: int| 0 <= k < rest.len() && is_day(#[trigger] rest[k], day);
            assert(is_day(items[k], day));
        }
        if exists|k: int| 0 <= k < items.len() && is_day(#[trigger] items[k], day) {
            let k = choose|k: int| 0 <= k < items.len() && is_day(#[trigger] items[k], day);
            if k < at {
                assert(is_day(rest[k], day));
            }
        }
        if day == own {
            assert(is_day(items[at], day));
        }
    }
}

proof fn lemma_with_member(
    days: Seq<(int, u8)>,
    term: JsonView,
    name: Seq<char>,
    weekday: u8,
    day: int,
    w: u8,
)
    requires
        ascending::<Date>(keys_of(days)),
        with_alternate_member(days, term, name, weekday) is Ok,
    ensures
        ascending::<Date>(keys_of(with_alternate_member(days, term, name, weekday)->Ok_0)),
        lookup(with_alternate_member(days, term, name, weekday)->Ok_0, day) == Some(w) <==> lookup(
            days,
            day,
        ) == Some(w) || (w == weekday && member(term, name) is Some && holds_day(
            member(term, name)->0,
            day,
        )),
{
    match member(term, name) {
        Some(JsonView::Text(text)) => {
            lemma_with_alternate(days, read_date(text)->Ok_0, weekday, day, w);
        },
        Some(JsonView::Array(items)) => {
            lemma_with_alternates(days, name, weekday, items, day, w);
        },
        _ => {},
    }
}

/// The metadata of a term announce that a day follows the timetable of a weekday, in the member
/// that is named after it.
pub open spec fn announces(term: JsonView, day: int, weekday: int) -> bool {
    let name = english(weekday) + "ScheduleDate"@;
    &&& 0 <= weekday < 7
    &&& {
        ||| member(term, name) is Some && holds_day(member(term, name)->0, day)
        ||| member(term, name + "s"@) is Some && holds_day(member(term, name + "s"@)->0, day)
    }
}

proof fn lemma_schedule_names(weekday: int)
    requires
        0 <= weekday < 7,
    ensures
        schedule_member(weekday) == english(weekday) + "ScheduleDate"@,
{
    reveal_strlit("ScheduleDate");
    reveal_strlit("mondayScheduleDate");
    reveal_strlit("tuesdayScheduleDate");
    reveal_strlit("wednesdayScheduleDate");
    reveal_strlit("thursdayScheduleDate");
    reveal_strlit("fridayScheduleDate");
    reveal_strlit("saturdayScheduleDate");
    reveal_strlit("sundayScheduleDate");
    reveal_strlit("monday");
    reveal_strlit("tuesday");
    reveal_strlit("wednesday");
    reveal_strlit("thursday");
    reveal_strlit("friday");
    reveal_strlit("saturday");
    reveal_strlit("sunday");
    assert(schedule_member(weekday) =~= english(weekday) + "ScheduleDate"@);
}

proof fn lemma_alternates(term: JsonView, n: int, day: int, w: u8)
    requires
        0 <= n <= 7,
        alternates_of(term, n) is Ok,
    ensures
        ascending::<Date>(keys_of(alternates_of(term, n)->Ok_0)),
        lookup(alternates_of(term, n)->Ok_0, day) == Some(w) <==> w < n && announces(
            term,
            day,
            w as int,
        ),
    decreases n,
{
    if n > 0 {
        let weekday = (n - 1) as u8;
        let known = alternates_of(term, n - 1)->Ok_0;
        let name = schedule_member(n - 1);
        lemma_alternates(term, n - 1, day, w);
        lemma_schedule_names(n - 1);
        let some = with_alternate_member(known, term, name, weekday)->Ok_0;
        lemma_with_member(known, term, name, weekday, day, w);
        lemma_with_member(some, term, name + "s"@, weekday, day, w);
    } else {
        assert(keys_of(alternates_of(term, n)->Ok_0) =~= Seq::empty());
    }
}

/// A calendar is the one that the metadata of a term describe: its first and its last day, its
/// holidays, and the days that follow the timetable of another weekday.
pub open spec fn is_calendar(term: JsonView, calendar: TermCalendarView) -> bool {
    &&& member(term, "startDate"@) is Some && is_day(member(term, "startDate"@)->0, calendar.start)
    &&& member(term, "endDate"@) is Some && is_day(member(term, "endDate"@)->0, calendar.end)
    &&& calendar.start <= calendar.end
    &&& forall|day: int| #[trigger]
        calendar.holidays.contains(day) <==> (member(term, "holidayDates"@) matches Some(
            JsonView::Array(items),
        ) && exists|k: int| 0 <= k < items.len() && is_day(#[trigger] items[k], day))
    &&& forall|day: int, weekday: u8|
        #![trigger announces(term, day, weekday as int)]
        lookup(calendar.alternate_days, day) == Some(weekday) <==> announces(
            term,
            day,
            weekday as int,
        )
}

/// A calendar is the one that the metadata of its term describe.
pub proof fn law_calendar_is_that_of_the_term(term: JsonView)
    requires
        calendar_of(term) is Ok,
    ensures
        is_calendar(term, calendar_of(term)->Ok_0),
{
    let calendar = calendar_of(term)->Ok_0;
    assert forall|day: int| #[trigger] calendar.holidays.contains(day) <==> (member(
        term,
        "holidayDates"@,
    ) matches Some(JsonView::Array(items)) && exists|k: int|
        0 <= k < items.len() && is_day(#[trigger] items[k], day)) by {
        match member(term, "holidayDates"@) {
            Some(JsonView::Array(items)) => {
                lemma_holidays(items, day);
            },
            _ => {},
        }
    }
    assert forall|day: int, weekday: u8|
        #![trigger announces(term, day, weekday as int)]
        lookup(calendar.alternate_days, day) == Some(weekday) <==> announces(
            term,
            day,
            weekday as int,
        ) by {
        lemma_alternates(term, 7, day, weekday);
    }
}

proof fn lemma_found_term(members: Seq<(Seq<char>, JsonView)>, expected: Seq<char>)
    requires
        find_term(members, expected) is Some,
    ensures
        text_member(find_term(members, expected)->0, "urlName"@) == Some(expected),
        exists|k: int|
            0 <= k < members.len() && (#[trigger] members[k]).1 == find_term(members, expected)->0,
    decreases members.len(),
{
    if members[0].1 is Object && text_member(members[0].1, "urlName"@) == Some(expected) {
        assert(members[0].1 == find_term(members, expected)->0);
    } else {
        let rest = members.drop_first();
        lemma_found_term(rest, expected);
        let k = choose|k: int|
            0 <= k < rest.len() && (#[trigger] rest[k]).1 == find_term(rest, expected)->0;
        assert(members[k + 1] == rest[k]);
    }
}

/// The metadata that are used are those of the term that the catalog names. Where none are given
/// they are those in the catalog itself.
pub proof fn law_metadata_are_those_of_the_catalog(catalog_term: JsonView, term: JsonView)
    requires
        term_for(catalog_term, term) is Ok,
    ensures
        ({
            let info = term_for(catalog_term, term)->Ok_0;
            let name = text_member(catalog_term, "urlName"@);
            &&& name is Some ==> text_member(info, "urlName"@) == name
            &&& term is Null ==> info == catalog_term
            &&& info == catalog_term || info == term || (term matches JsonView::Object(members)
                && exists|k: int| 0 <= k < members.len() && (#[trigger] members[k]).1 == info)
        }),
{
    match term {
        JsonView::Object(members) => {
            let expected = text_member(catalog_term, "urlName"@)->0;
            if lookup(members, "semester"@) is Some {
                lemma_member_value(members, "semester"@);
            }
            if lookup(members, "preSemester"@) is Some {
                lemma_member_value(members, "preSemester"@);
            }
            if find_term(members, expected) is Some {
                lemma_found_term(members, expected);
            }
        },
        _ => {},
    }
}

proof fn lemma_member_value(members: Seq<(Seq<char>, JsonView)>, name: Seq<char>)
    requires
        lookup(members, name) is Some,
    ensures
        exists|k: int| 0 <= k < members.len() && (#[trigger] members[k]).1 == lookup(members, name)->0,
{
    crate::order::lemma_lookup(members, name);
    let value = lookup(members, name)->0;
    let k = choose|k: int| 0 <= k < members.len() && members[k] == (name, value);
    assert(members[k].1 == value);
}

/// A member is given and is neither missing nor null.
pub open spec fn given(raw: JsonView, name: Seq<char>) -> bool {
    member(raw, name) is Some && !(member(raw, name)->0 is Null)
}

/// A day is given in a member exactly if it is the one that is known.
pub open spec fn is_known_day(json: JsonView, name: Seq<char>, day: Option<int>) -> bool {
    match day {
        Some(day) => member(json, name) is Some && is_day(member(json, name)->0, day),
        None => !given(json, name),
    }
}

/// A pair of month and day stands for a day of the year in which the term begins, or of the year in
/// which it ends where that day comes before the term.
pub open spec fn is_month_day(json: JsonView, calendar: TermCalendarView, day: int) -> bool {
    exists|year: int, month: int, date: int| #[trigger]
        day_number(year, month, date) == day && civil(year, month, date) && month_and_day(
            json,
            month,
            date,
        ) && (year == civil_of(calendar.start).0 || (year == civil_of(calendar.end).0 && day_number(
            civil_of(calendar.start).0,
            month,
            date,
        ) < calendar.start)) && (year == civil_of(calendar.start).0 && year != civil_of(
            calendar.end,
        ).0 ==> day >= calendar.start)
}

/// A value is the pair of a month and a day.
pub open spec fn month_and_day(json: JsonView, month: int, date: int) -> bool {
    &&& json matches JsonView::Array(items)
    &&& items.len() == 2
    &&& items[0] matches JsonView::Number(_, Some(a))
    &&& items[1] matches JsonView::Number(_, Some(b))
    &&& a == month && b == date
}

proof fn lemma_month_day(json: JsonView, calendar: TermCalendarView)
    requires
        month_day_in(json, calendar) is Ok,
    ensures
        is_month_day(json, calendar, month_day_in(json, calendar)->Ok_0),
{
    let items = json->Array_0;
    let month = match items[0] {
        JsonView::Number(_, Some(n)) => n as int,
        _ => 0,
    };
    let date = match items[1] {
        JsonView::Number(_, Some(n)) => n as int,
        _ => 0,
    };
    assert(month_and_day(json, month, date));
    let first = civil_of(calendar.start).0;
    let last = civil_of(calendar.end).0;
    let day = month_day_in(json, calendar)->Ok_0;
    if day_number(first, month, date) < calendar.start && last != first {
        assert(day_number(last, month, date) == day);
    } else {
        assert(day_number(first, month, date) == day);
    }
}

/// What a course says of the half of the term that it takes: nothing, that it takes one, or which.
pub open spec fn takes_half(raw: JsonView, half: int) -> bool {
    member(raw, "half"@) matches Some(JsonView::Number(Some(n), _)) && n == half
}

/// The part of the term in which a course meets. The first half begins with the term and ends on
/// the day that the term gives for it, the second half the other way round; a quarter has the days
/// that the course gives. A course that takes a part of the term cannot be placed.
pub proof fn law_partial_courses_keep_their_days(
    raw: JsonView,
    calendar: TermCalendarView,
    term: JsonView,
)
    requires
        limit_of(raw, calendar, term) is Ok,
    ensures
        ({
            let limit = limit_of(raw, calendar, term)->Ok_0;
            let quarter = member(raw, "quarterInfo"@);
            let quartered = given(raw, "quarterInfo"@);
            &&& limit.unsupported <==> quartered || takes_half(raw, 1) || takes_half(raw, 2)
                || member(raw, "half"@) == Some(JsonView::Bool(true))
            &&& limit_reason(limit) is Some <==> limit.unsupported
            &&& !limit.unsupported ==> limit.start is None && limit.end is None
            &&& quarter is None && takes_half(raw, 1) ==> limit.start == Some(calendar.start)
                && is_known_day(term, "h1EndDate"@, limit.end)
            &&& quarter is None && takes_half(raw, 2) ==> limit.end == Some(calendar.end)
                && is_known_day(term, "h2StartDate"@, limit.start)
            &&& quartered ==> {
                &&& member(quarter->0, "start"@) is None ==> limit.start is None
                &&& member(quarter->0, "start"@) is Some ==> limit.start is Some && is_month_day(
                    member(quarter->0, "start"@)->0,
                    calendar,
                    limit.start->0,
                )
                &&& member(quarter->0, "end"@) is None ==> limit.end is None
                &&& member(quarter->0, "end"@) is Some ==> limit.end is Some && is_month_day(
                    member(quarter->0, "end"@)->0,
                    calendar,
                    limit.end->0,
                )
            }
            &&& limit.start is Some && limit.end is Some ==> limit.start->0 <= limit.end->0
        }),
{
    match member(raw, "quarterInfo"@) {
        Some(quarter) => {
            match member(quarter, "start"@) {
                Some(value) => {
                    if month_day_in(value, calendar) is Ok {
                        lemma_month_day(value, calendar);
                    }
                },
                None => {},
            }
            match member(quarter, "end"@) {
                Some(value) => {
                    if month_day_in(value, calendar) is Ok {
                        lemma_month_day(value, calendar);
                    }
                },
                None => {},
            }
        },
        None => {},
    }
}

} // verus!
