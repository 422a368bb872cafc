//! What the best timetable is.
use std::sync::atomic::AtomicBool;
use vstd::prelude::*;
use crate::determinism::{faultless, lemma_searchable, lemma_sound};
use crate::date::weekday_of;
use crate::error::Error;
use crate::laws::export::{has_both_dates, held_as, is_pe, lemma_held_as, lemma_is_pe};
use crate::laws::lemma_no_fault;
use crate::model::{
    any_date_limited, bounded_pe, date_bounded, date_limited, meeting_fault, meeting_valid,
    natural_windows_overlap, taught, times_overlap, weekday_occurs, window_end, window_start,
    Meeting, Requirement, RequirementView, Score, SectionOptionView, Solution, SolutionView,
    TermCalendar, TermCalendarView, TimeChoiceView,
};
use crate::optimizer::{
    arranged, canonical, choice_le, feasible, law_solution_is_optimal, lemma_sorted_elements,
    meeting_le, meetings_clash, members_compatible, option_searchable, problem_fault, problem_of,
    search_notices, searchable_options, solve, solve_with_calendar, solved, timetable_score,
};
use crate::order::{law_stable_sorted, Rank};
use crate::picks::{
    dates_matter, has_place, held, holds_pick, is_pick, law_alternatives_are_exact_over_sections,
    law_solution_is_exact_over_sections, pick_occupies, pick_score, sections_clash,
};
use crate::text::text_before;
use crate::week_bits::{
    any_covers, busy_count, busy_days, busy_end, covers, day_gap, first_busy, total_gap, week_score,
};

verus! {

/// How many of the numbers below `n` have a property.
pub open spec fn number_of(has: spec_fn(int) -> bool, n: int) -> int
    decreases n,
{
    if n <= 0 {
        0
    } else if has(n - 1) {
        number_of(has, n - 1) + 1
    } else {
        number_of(has, n - 1)
    }
}

/// The sum of what the numbers below `n` have.
pub open spec fn sum_of(amount: spec_fn(int) -> int, n: int) -> int
    decreases n,
{
    if n <= 0 {
        0
    } else {
        sum_of(amount, n - 1) + amount(n - 1)
    }
}

/// Something goes on during a day.
pub open spec fn used(busy: spec_fn(int, int) -> bool, day: int) -> bool {
    exists|minute: int| 0 <= minute < 1440 && #[trigger] busy(day, minute)
}

/// A minute of a day is spent waiting: nothing goes on in it, but something did before on that day
/// and something will.
pub open spec fn waits(busy: spec_fn(int, int) -> bool, day: int, minute: int) -> bool {
    &&& !busy(day, minute)
    &&& exists|before: int| 0 <= before < minute && #[trigger] busy(day, before)
    &&& exists|after: int| minute < after < 1440 && #[trigger] busy(day, after)
}

/// The days of a week on which something goes on.
pub open spec fn days_used(busy: spec_fn(int, int) -> bool) -> int {
    number_of(|day: int| used(busy, day), 7)
}

/// The minutes of a week that are spent waiting.
pub open spec fn minutes_waited(busy: spec_fn(int, int) -> bool) -> int {
    sum_of(|day: int| number_of(|minute: int| waits(busy, day, minute), 1440), 7)
}

proof fn lemma_ends(busy: spec_fn(int) -> bool, base: int, n: int)
    requires
        0 <= n,
    ensures
        ({
            let first = first_busy(busy, base, n);
            let end = busy_end(busy, base, n);
            &&& 0 <= first <= n
            &&& 0 <= end <= n
            &&& forall|k: int| 0 <= k < first ==> !#[trigger] busy(base + k)
            &&& forall|k: int| end <= k < n ==> !#[trigger] busy(base + k)
            &&& first < n ==> busy(base + first) && first < end
            &&& end > 0 ==> busy(base + end - 1) && first < end
            &&& busy_count(busy, base, n) == 0 <==> first == n
            &&& busy_count(busy, base, n) >= 0
        }),
    decreases n,
{
    if n > 0 {
        lemma_ends(busy, base, n - 1);
        let first = first_busy(busy, base, n);
        let end = busy_end(busy, base, n);
        assert forall|k: int| 0 <= k < first implies !#[trigger] busy(base + k) by {
            if k == n - 1 {
                assert(base + k == base + n - 1);
            }
        }
        assert forall|k: int| end <= k < n implies !#[trigger] busy(base + k) by {
            if k == n - 1 {
                assert(base + k == base + n - 1);
            }
        }
        if first == n - 1 {
            assert(base + first == base + n - 1);
        }
    }
}

proof fn lemma_waiting(
    busy: spec_fn(int) -> bool,
    base: int,
    waiting: spec_fn(int) -> bool,
    n: int,
)
    requires
        0 <= n <= 1440,
        forall|k: int|
            0 <= k < 1440 ==> (#[trigger] waiting(k) <==> !busy(base + k) && first_busy(
                busy,
                base,
                1440,
            ) < k && k < busy_end(busy, base, 1440)),
    ensures
        ({
            let first = first_busy(busy, base, 1440);
            let end = busy_end(busy, base, 1440);
            number_of(waiting, n) + busy_count(busy, base, n) == (if n <= first || end == 0 {
                0
            } else if n <= end {
                n - first
            } else {
                end - first
            })
        }),
    decreases n,
{
    lemma_ends(busy, base, 1440);
    if n > 0 {
        lemma_waiting(busy, base, waiting, n - 1);
        let k = n - 1;
        assert(waiting(k) <==> !busy(base + k) && first_busy(busy, base, 1440) < k && k < busy_end(
            busy,
            base,
            1440,
        ));
        assert(base + k == base + n - 1);
    }
}

proof fn lemma_day_waits(busy: spec_fn(int) -> bool, at: spec_fn(int, int) -> bool, day: int)
    requires
        forall|minute: int|
            0 <= minute < 1440 ==> #[trigger] busy(day * 1440 + minute) == at(day, minute),
    ensures
        day_gap(busy, day) == number_of(|minute: int| waits(at, day, minute), 1440),
        busy_count(busy, day * 1440, 1440) > 0 <==> used(at, day),
{
    let base = day * 1440;
    let waiting = |minute: int| waits(at, day, minute);
    let first = first_busy(busy, base, 1440);
    let end = busy_end(busy, base, 1440);
    lemma_ends(busy, base, 1440);
    assert forall|k: int| 0 <= k < 1440 implies (#[trigger] waiting(k) <==> !busy(base + k)
        && first < k && k < end) by {
        assert(busy(base + k) == at(day, k));
        if waits(at, day, k) {
            let before = choose|before: int| 0 <= before < k && #[trigger] at(day, before);
            let after = choose|after: int| k < after < 1440 && #[trigger] at(day, after);
            assert(busy(base + before));
            assert(busy(base + after));
        }
        if !busy(base + k) && first < k && k < end {
            assert(busy(base + first));
            assert(at(day, first));
            assert(busy(base + (end - 1)));
            assert(at(day, end - 1));
            assert(end - 1 != k);
        }
    }
    lemma_waiting(busy, base, waiting, 1440);
    if used(at, day) {
        let minute = choose|minute: int| 0 <= minute < 1440 && #[trigger] at(day, minute);
        assert(busy(base + minute));
    }
    if busy_count(busy, base, 1440) > 0 {
        assert(busy(base + first));
        assert(at(day, first));
    }
}

proof fn lemma_number_of(a: spec_fn(int) -> bool, b: spec_fn(int) -> bool, n: int)
    requires
        forall|k: int| 0 <= k < n ==> #[trigger] a(k) == b(k),
    ensures
        number_of(a, n) == number_of(b, n),
        0 <= number_of(a, n) <= if n > 0 { n } else { 0 },
    decreases n,
{
    if n > 0 {
        lemma_number_of(a, b, n - 1);
        assert(a(n - 1) == b(n - 1));
    }
}

/// The score of a week counts the days on which something goes on, and the minutes that are spent
/// waiting between the first and the last thing of a day.
pub proof fn law_score_counts_days_and_waiting(
    busy: spec_fn(int) -> bool,
    at: spec_fn(int, int) -> bool,
)
    requires
        forall|day: int, minute: int|
            0 <= day < 7 && 0 <= minute < 1440 ==> #[trigger] at(day, minute) == busy(
                day * 1440 + minute,
            ),
    ensures
        week_score(busy).occupied_days == days_used(at),
        week_score(busy).gap_minutes == minutes_waited(at),
{
    lemma_week(busy, at, 7);
}

proof fn lemma_week(busy: spec_fn(int) -> bool, at: spec_fn(int, int) -> bool, days: int)
    requires
        0 <= days <= 7,
        forall|day: int, minute: int|
            0 <= day < 7 && 0 <= minute < 1440 ==> #[trigger] at(day, minute) == busy(
                day * 1440 + minute,
            ),
    ensures
        busy_days(busy, days) == number_of(|day: int| used(at, day), days),
        total_gap(busy, days) == sum_of(
            |day: int| number_of(|minute: int| waits(at, day, minute), 1440),
            days,
        ),
        0 <= busy_days(busy, days) <= days,
        0 <= total_gap(busy, days) <= 1440 * days,
    decreases days,
{
    if days > 0 {
        let day = days - 1;
        lemma_week(busy, at, day);
        assert forall|minute: int| 0 <= minute < 1440 implies #[trigger] busy(day * 1440 + minute)
            == at(day, minute) by {
            assert(at(day, minute) == busy(day * 1440 + minute));
        }
        lemma_day_waits(busy, at, day);
        let waiting = |minute: int| waits(at, day, minute);
        lemma_number_of(waiting, waiting, 1440);
    }
}

/// A meeting is under way at a minute of a weekday.
pub open spec fn under_way(m: Meeting, weekday: int, minute: int) -> bool {
    m.weekday == weekday && m.start_minute <= minute < m.end_minute
}

/// A meeting of a section is under way at a minute of a weekday.
pub open spec fn section_meets(option: SectionOptionView, weekday: int, minute: int) -> bool {
    exists|k: int|
        0 <= k < option.meetings.len() && under_way(#[trigger] option.meetings[k], weekday, minute)
}

/// A meeting of the picked sections is under way at a minute of a weekday.
pub open spec fn attended(pick: Seq<Option<SectionOptionView>>) -> spec_fn(int, int) -> bool {
    |weekday: int, minute: int|
        exists|i: int|
            0 <= i < pick.len() && (#[trigger] pick[i]) is Some && section_meets(
                pick[i]->0,
                weekday,
                minute,
            )
}

/// A section can be placed in a week: nothing speaks against it, it has meetings, and they have
/// dates exactly if it is physical education.
pub open spec fn placeable(kind: Seq<char>, option: SectionOptionView) -> bool {
    &&& option.unsupported_reason is None
    &&& option.meetings.len() > 0
    &&& forall|k: int|
        0 <= k < option.meetings.len() ==> if is_pe(kind) {
            has_both_dates(#[trigger] option.meetings[k])
        } else {
            option.meetings[k].start_date is None && option.meetings[k].end_date is None
        }
}

/// All meetings of all sections are valid.
pub open spec fn meetings_valid(requirements: Seq<RequirementView>) -> bool {
    forall|i: int, o: int, k: int|
        0 <= i < requirements.len() && 0 <= o < requirements[i].options.len() && 0 <= k
            < requirements[i].options[o].meetings.len() ==> meeting_valid(
            #[trigger] requirements[i].options[o].meetings[k],
        )
}

pub(crate) proof fn lemma_meetings_valid(
    requirements: Seq<RequirementView>,
    calendar: Option<TermCalendarView>,
)
    requires
        problem_fault(requirements, calendar) is None,
    ensures
        meetings_valid(requirements),
{
    lemma_sound(requirements, calendar);
    assert forall|i: int, o: int, k: int|
        0 <= i < requirements.len() && 0 <= o < requirements[i].options.len() && 0 <= k
            < requirements[i].options[o].meetings.len() implies meeting_valid(
        #[trigger] requirements[i].options[o].meetings[k],
    ) by {
        let option = requirements[i].options[o];
        assert(faultless(requirements[i].kind, requirements[i].options[o], calendar));
        lemma_no_fault(option.meetings);
        assert(meeting_fault(option.meetings[k]) is None);
    }
}

pub(crate) proof fn lemma_placeable(kind: Seq<char>, option: SectionOptionView)
    requires
        forall|k: int|
            0 <= k < option.meetings.len() ==> meeting_valid(#[trigger] option.meetings[k]),
    ensures
        option_searchable(kind, option) <==> placeable(kind, option),
{
    let all = option.meetings;
    let sorted = canonical(all);
    lemma_is_pe(kind);
    lemma_sorted_elements(all, meeting_le());
    if option_searchable(kind, option) {
        assert forall|k: int| 0 <= k < all.len() implies if is_pe(kind) {
            has_both_dates(#[trigger] all[k])
        } else {
            all[k].start_date is None && all[k].end_date is None
        } by {
            assert(all.contains(all[k]));
            assert(sorted.contains(all[k]));
            let j = choose|j: int| 0 <= j < sorted.len() && sorted[j] == all[k];
            if is_pe(kind) {
                assert(date_bounded(sorted[j]));
            } else {
                assert(!date_limited(sorted[j]));
            }
        }
    }
    if placeable(kind, option) {
        assert forall|j: int| 0 <= j < sorted.len() implies meeting_valid(#[trigger] sorted[j]) && (
        if is_pe(kind) {
            date_bounded(sorted[j])
        } else {
            !date_limited(sorted[j])
        }) by {
            assert(sorted.contains(sorted[j]));
            assert(all.contains(sorted[j]));
            let k = choose|k: int| 0 <= k < all.len() && all[k] == sorted[j];
            assert(meeting_valid(all[k]));
            if is_pe(kind) {
                assert(has_both_dates(all[k]));
            } else {
                assert(all[k].start_date is None);
            }
        }
        if is_pe(kind) {
            assert(bounded_pe(kind, sorted));
        } else {
            assert(!any_date_limited(sorted));
        }
    }
}

/// A day lies within the dates of a meeting, as far as it has any.
pub open spec fn within_dates(m: Meeting, day: int) -> bool {
    &&& m.start_date is Some ==> m.start_date->0.number() <= day
    &&& m.end_date is Some ==> day <= m.end_date->0.number()
}

/// A day that is held as a weekday: by the calendar where there is one, else by the week alone.
pub open spec fn day_for(calendar: Option<TermCalendarView>, day: int, weekday: int) -> bool {
    match calendar {
        Some(calendar) => held_as(calendar, day, weekday),
        None => weekday < 7 && (day - 1 - weekday) % 7 == 0,
    }
}

/// Two meetings get in each other's way: they are under way at the same minute of the same weekday
/// and, where dates count, on the same day.
pub open spec fn collide(
    calendar: Option<TermCalendarView>,
    dated: bool,
    x: Meeting,
    y: Meeting,
) -> bool {
    &&& exists|weekday: int, minute: int|
        #![trigger under_way(x, weekday, minute), under_way(y, weekday, minute)]
        under_way(x, weekday, minute) && under_way(y, weekday, minute)
    &&& dated ==> exists|day: int|
        #![trigger within_dates(x, day)]
        within_dates(x, day) && within_dates(y, day) && day_for(calendar, day, x.weekday as int)
}

pub(crate) proof fn lemma_same_minute(x: Meeting, y: Meeting)
    ensures
        times_overlap(x, y) <==> exists|weekday: int, minute: int|
            #![trigger under_way(x, weekday, minute), under_way(y, weekday, minute)]
            under_way(x, weekday, minute) && under_way(y, weekday, minute),
{
    if times_overlap(x, y) {
        let minute = if x.start_minute <= y.start_minute {
            y.start_minute as int
        } else {
            x.start_minute as int
        };
        let weekday = x.weekday as int;
        assert(under_way(x, weekday, minute) && under_way(y, weekday, minute));
    }
}

/// Undated, or with both dates in order.
pub open spec fn dates_clear(m: Meeting) -> bool {
    m.start_date is None && m.end_date is None || has_both_dates(m)
}

pub(crate) proof fn lemma_natural_day(x: Meeting, y: Meeting)
    requires
        dates_clear(x),
        dates_clear(y),
        meeting_valid(x),
        meeting_valid(y),
        x.weekday == y.weekday,
    ensures
        natural_windows_overlap(x, y) <==> exists|day: int|
            #![trigger within_dates(x, day)]
            within_dates(x, day) && within_dates(y, day) && day_for(None, day, x.weekday as int),
{
    let weekday = x.weekday as int;
    assert forall|day: int| #[trigger] weekday_of(day) == weekday <==> day_for(
        None,
        day,
        weekday,
    ) by {
        assert((day - 1 - weekday) % 7 == 0 <==> (day - 1) % 7 == weekday);
    }
    if natural_windows_overlap(x, y) {
        if !has_both_dates(x) && !has_both_dates(y) {
            let day = weekday + 1;
            assert((day - 1 - weekday) % 7 == 0);
            assert(within_dates(x, day));
        } else {
            let first = if !has_both_dates(y) {
                x.start_date->0.number()
            } else if !has_both_dates(x) {
                y.start_date->0.number()
            } else {
                crate::model::later(x.start_date->0.number(), y.start_date->0.number())
            };
            let last = if !has_both_dates(y) {
                x.end_date->0.number()
            } else if !has_both_dates(x) {
                y.end_date->0.number()
            } else {
                crate::model::earlier(x.end_date->0.number(), y.end_date->0.number())
            };
            assert(weekday_occurs(weekday, first, last));
            let day = choose|day: int|
                first <= day <= last && #[trigger] weekday_of(day) == weekday;
            assert(within_dates(x, day) && within_dates(y, day));
            assert(day_for(None, day, weekday));
        }
    }
    if exists|day: int|
        #![trigger within_dates(x, day)]
        within_dates(x, day) && within_dates(y, day) && day_for(None, day, weekday) {
        let day = choose|day: int|
            #![trigger within_dates(x, day)]
            within_dates(x, day) && within_dates(y, day) && day_for(None, day, weekday);
        assert(weekday_of(day) == weekday);
    }
}

pub(crate) proof fn lemma_calendar_day(calendar: TermCalendarView, x: Meeting, y: Meeting)
    ensures
        (exists|day: int|
            {
                &&& window_start(calendar, x) <= day <= window_end(calendar, x)
                &&& window_start(calendar, y) <= day <= window_end(calendar, y)
                &&& #[trigger] taught(calendar, day, x.weekday as int)
            }) <==> exists|day: int|
            #![trigger within_dates(x, day)]
            within_dates(x, day) && within_dates(y, day) && day_for(
                Some(calendar),
                day,
                x.weekday as int,
            ),
{
    let weekday = x.weekday as int;
    assert forall|day: int|
        #![trigger taught(calendar, day, weekday)]
        #![trigger within_dates(x, day)]
        (window_start(calendar, x) <= day <= window_end(calendar, x) && window_start(calendar, y)
            <= day <= window_end(calendar, y) && taught(calendar, day, weekday)) <==> (within_dates(
            x,
            day,
        ) && within_dates(y, day) && day_for(Some(calendar), day, weekday)) by {
        lemma_held_as(calendar, day, weekday);
    }
    if exists|day: int|
        {
            &&& window_start(calendar, x) <= day <= window_end(calendar, x)
            &&& window_start(calendar, y) <= day <= window_end(calendar, y)
            &&& #[trigger] taught(calendar, day, weekday)
        } {
        let day = choose|day: int|
            {
                &&& window_start(calendar, x) <= day <= window_end(calendar, x)
                &&& window_start(calendar, y) <= day <= window_end(calendar, y)
                &&& #[trigger] taught(calendar, day, weekday)
            };
        assert(within_dates(x, day));
    }
    if exists|day: int|
        #![trigger within_dates(x, day)]
        within_dates(x, day) && within_dates(y, day) && day_for(Some(calendar), day, weekday) {
        let day = choose|day: int|
            #![trigger within_dates(x, day)]
            within_dates(x, day) && within_dates(y, day) && day_for(Some(calendar), day, weekday);
        assert(taught(calendar, day, weekday));
    }
}

pub(crate) proof fn lemma_collide(calendar: Option<TermCalendarView>, dated: bool, x: Meeting, y: Meeting)
    requires
        dates_clear(x),
        dates_clear(y),
        meeting_valid(x),
        meeting_valid(y),
    ensures
        meetings_clash(calendar, dated, x, y) <==> collide(calendar, dated, x, y),
{
    lemma_same_minute(x, y);
    if dated && times_overlap(x, y) {
        match calendar {
            Some(calendar) => {
                lemma_calendar_day(calendar, x, y);
            },
            None => {
                lemma_natural_day(x, y);
            },
        }
    }
}

/// Two sections get in each other's way, or one excludes the other.
pub open spec fn exclude(
    calendar: Option<TermCalendarView>,
    dated: bool,
    a: SectionOptionView,
    b: SectionOptionView,
) -> bool {
    ||| a.incompatible_with.contains(b.id)
    ||| b.incompatible_with.contains(a.id)
    ||| exists|k: int, l: int|
        0 <= k < a.meetings.len() && 0 <= l < b.meetings.len() && #[trigger] collide(
            calendar,
            dated,
            a.meetings[k],
            b.meetings[l],
        )
}

/// Dates count: some section that can be placed has meetings with dates.
pub open spec fn dates_count(requirements: Seq<RequirementView>) -> bool {
    exists|i: int, o: int|
        0 <= i < requirements.len() && 0 <= o < requirements[i].options.len() && is_pe(
            requirements[i].kind,
        ) && placeable(requirements[i].kind, #[trigger] requirements[i].options[o])
}

/// Some section of a requirement can be placed.
pub open spec fn can_be_met(requirement: RequirementView) -> bool {
    exists|o: int|
        0 <= o < requirement.options.len() && placeable(
            requirement.kind,
            #[trigger] requirement.options[o],
        )
}

/// Sections that go together: one for each requirement that has one to place, none of which gets
/// in the way of another or excludes it.
pub open spec fn go_together(
    requirements: Seq<RequirementView>,
    calendar: Option<TermCalendarView>,
    pick: Seq<Option<SectionOptionView>>,
) -> bool {
    &&& pick.len() == requirements.len()
    &&& forall|i: int|
        0 <= i < pick.len() ==> ((#[trigger] pick[i]) is Some <==> can_be_met(requirements[i]))
    &&& forall|i: int|
        0 <= i < pick.len() && (#[trigger] pick[i]) is Some ==> requirements[i].options.contains(
            pick[i]->0,
        ) && placeable(requirements[i].kind, pick[i]->0)
    &&& forall|i: int, j: int|
        #![trigger pick[i], pick[j]]
        0 <= i < j < pick.len() && pick[i] is Some && pick[j] is Some ==> !exclude(
            calendar,
            dates_count(requirements),
            pick[i]->0,
            pick[j]->0,
        )
}

proof fn lemma_option_placeable(
    requirements: Seq<RequirementView>,
    i: int,
    option: SectionOptionView,
)
    requires
        meetings_valid(requirements),
        0 <= i < requirements.len(),
    ensures
        searchable_options(requirements[i]).contains(option) <==> requirements[i].options.contains(
            option,
        ) && placeable(requirements[i].kind, option),
        requirements[i].options.contains(option) ==> forall|k: int|
            0 <= k < option.meetings.len() ==> meeting_valid(#[trigger] option.meetings[k]),
{
    let all = requirements[i].options;
    lemma_searchable(requirements[i], option);
    if all.contains(option) {
        let o = choose|o: int| 0 <= o < all.len() && all[o] == option;
        assert forall|k: int| 0 <= k < option.meetings.len() implies meeting_valid(
            #[trigger] option.meetings[k],
        ) by {
            assert(meeting_valid(requirements[i].options[o].meetings[k]));
        }
        lemma_placeable(requirements[i].kind, option);
    }
}

pub(crate) proof fn lemma_can_be_met(requirements: Seq<RequirementView>, i: int)
    requires
        meetings_valid(requirements),
        0 <= i < requirements.len(),
    ensures
        has_place(requirements[i]) <==> can_be_met(requirements[i]),
{
    let found = searchable_options(requirements[i]);
    let all = requirements[i].options;
    if found.len() > 0 {
        lemma_option_placeable(requirements, i, found[0]);
        assert(found.contains(found[0]));
        let o = choose|o: int| 0 <= o < all.len() && all[o] == found[0];
        assert(placeable(requirements[i].kind, all[o]));
    }
    if can_be_met(requirements[i]) {
        let o = choose|o: int|
            0 <= o < all.len() && placeable(requirements[i].kind, #[trigger] all[o]);
        lemma_option_placeable(requirements, i, all[o]);
        assert(all.contains(all[o]));
        assert(found.contains(all[o]));
    }
}

proof fn lemma_dates_count(requirements: Seq<RequirementView>)
    requires
        meetings_valid(requirements),
    ensures
        dates_matter(requirements) <==> dates_count(requirements),
{
    if dates_matter(requirements) {
        let (i, k) = choose|i: int, k: int|
            0 <= i < requirements.len() && 0 <= k < searchable_options(requirements[i]).len()
                && any_date_limited((#[trigger] searchable_options(requirements[i])[k]).meetings);
        let all = requirements[i].options;
        let option = searchable_options(requirements[i])[k];
        assert(searchable_options(requirements[i]).contains(option));
        lemma_option_placeable(requirements, i, option);
        let o = choose|o: int| 0 <= o < all.len() && all[o] == option;
        let m = choose|m: int|
            0 <= m < option.meetings.len() && date_limited(#[trigger] option.meetings[m]);
        assert(is_pe(requirements[i].kind));
        assert(placeable(requirements[i].kind, requirements[i].options[o]));
    }
    if dates_count(requirements) {
        let (i, o) = choose|i: int, o: int|
            0 <= i < requirements.len() && 0 <= o < requirements[i].options.len() && is_pe(
                requirements[i].kind,
            ) && placeable(requirements[i].kind, #[trigger] requirements[i].options[o]);
        let option = requirements[i].options[o];
        let found = searchable_options(requirements[i]);
        assert(requirements[i].options.contains(option));
        lemma_option_placeable(requirements, i, option);
        let k = choose|k: int| 0 <= k < found.len() && found[k] == option;
        assert(has_both_dates(option.meetings[0]));
        assert(date_limited(option.meetings[0]));
        assert(any_date_limited(searchable_options(requirements[i])[k].meetings));
    }
}

proof fn lemma_sections_exclude(
    calendar: Option<TermCalendarView>,
    dated: bool,
    p: Seq<char>,
    q: Seq<char>,
    a: SectionOptionView,
    b: SectionOptionView,
)
    requires
        placeable(p, a),
        placeable(q, b),
        forall|k: int| 0 <= k < a.meetings.len() ==> meeting_valid(#[trigger] a.meetings[k]),
        forall|k: int| 0 <= k < b.meetings.len() ==> meeting_valid(#[trigger] b.meetings[k]),
    ensures
        exclude(calendar, dated, a, b) <==> sections_clash(calendar, dated, a, b)
            || !members_compatible(a, b),
{
    assert forall|k: int, l: int|
        0 <= k < a.meetings.len() && 0 <= l < b.meetings.len() implies (#[trigger] collide(
        calendar,
        dated,
        a.meetings[k],
        b.meetings[l],
    ) <==> meetings_clash(calendar, dated, a.meetings[k], b.meetings[l])) by {
        assert(if is_pe(p) {
            has_both_dates(a.meetings[k])
        } else {
            a.meetings[k].start_date is None && a.meetings[k].end_date is None
        });
        assert(if is_pe(q) {
            has_both_dates(b.meetings[l])
        } else {
            b.meetings[l].start_date is None && b.meetings[l].end_date is None
        });
        lemma_collide(calendar, dated, a.meetings[k], b.meetings[l]);
    }
    if sections_clash(calendar, dated, a, b) {
        let (k, l) = choose|k: int, l: int|
            0 <= k < a.meetings.len() && 0 <= l < b.meetings.len() && #[trigger] meetings_clash(
                calendar,
                dated,
                a.meetings[k],
                b.meetings[l],
            );
        assert(collide(calendar, dated, a.meetings[k], b.meetings[l]));
    }
    if exists|k: int, l: int|
        0 <= k < a.meetings.len() && 0 <= l < b.meetings.len() && #[trigger] collide(
            calendar,
            dated,
            a.meetings[k],
            b.meetings[l],
        ) {
        let (k, l) = choose|k: int, l: int|
            0 <= k < a.meetings.len() && 0 <= l < b.meetings.len() && #[trigger] collide(
                calendar,
                dated,
                a.meetings[k],
                b.meetings[l],
            );
        assert(meetings_clash(calendar, dated, a.meetings[k], b.meetings[l]));
    }
}

/// The picks of the search are the sections that go together.
pub proof fn law_picks_go_together(
    requirements: Seq<RequirementView>,
    calendar: Option<TermCalendarView>,
    pick: Seq<Option<SectionOptionView>>,
)
    requires
        problem_fault(requirements, calendar) is None,
    ensures
        is_pick(requirements, calendar, pick) <==> go_together(requirements, calendar, pick),
{
    lemma_meetings_valid(requirements, calendar);
    lemma_dates_count(requirements);
    let dated = dates_count(requirements);
    if pick.len() == requirements.len() {
        assert forall|i: int| 0 <= i < pick.len() implies has_place(requirements[i]) == can_be_met(
            requirements[i],
        ) && (#[trigger] pick[i] is Some ==> (searchable_options(requirements[i]).contains(
            pick[i]->0,
        ) <==> requirements[i].options.contains(pick[i]->0) && placeable(
            requirements[i].kind,
            pick[i]->0,
        ))) by {
            lemma_can_be_met(requirements, i);
            if pick[i] is Some {
                lemma_option_placeable(requirements, i, pick[i]->0);
            }
        }
        assert forall|i: int, j: int|
            #![trigger pick[i], pick[j]]
            0 <= i < j < pick.len() && pick[i] is Some && pick[j] is Some
                && requirements[i].options.contains(pick[i]->0) && placeable(
                requirements[i].kind,
                pick[i]->0,
            ) && requirements[j].options.contains(pick[j]->0) && placeable(
                requirements[j].kind,
                pick[j]->0,
            ) implies (exclude(calendar, dated, pick[i]->0, pick[j]->0) <==> sections_clash(
            calendar,
            dated,
            pick[i]->0,
            pick[j]->0,
        ) || !members_compatible(pick[i]->0, pick[j]->0)) by {
            lemma_option_placeable(requirements, i, pick[i]->0);
            lemma_option_placeable(requirements, j, pick[j]->0);
            lemma_sections_exclude(
                calendar,
                dated,
                requirements[i].kind,
                requirements[j].kind,
                pick[i]->0,
                pick[j]->0,
            );
        }
    }
}

proof fn lemma_attended(
    requirements: Seq<RequirementView>,
    calendar: Option<TermCalendarView>,
    pick: Seq<Option<SectionOptionView>>,
)
    requires
        problem_fault(requirements, calendar) is None,
        go_together(requirements, calendar, pick),
    ensures
        pick_score(pick).occupied_days == days_used(attended(pick)),
        pick_score(pick).gap_minutes == minutes_waited(attended(pick)),
{
    let busy = |at: int| pick_occupies(pick, at);
    let at = attended(pick);
    lemma_meetings_valid(requirements, calendar);
    assert forall|day: int, minute: int| 0 <= day < 7 && 0 <= minute < 1440 implies #[trigger] at(
        day,
        minute,
    ) == busy(day * 1440 + minute) by {
        assert forall|i: int| 0 <= i < pick.len() && (#[trigger] pick[i]) is Some implies (
        section_meets(pick[i]->0, day, minute) <==> any_covers(
            (pick[i]->0).meetings,
            day * 1440 + minute,
        )) by {
            lemma_option_placeable(requirements, i, pick[i]->0);
            lemma_covers((pick[i]->0).meetings, day, minute);
        }
    }
    law_score_counts_days_and_waiting(busy, at);
}

proof fn lemma_covers(meetings: Seq<Meeting>, day: int, minute: int)
    requires
        0 <= day < 7,
        0 <= minute < 1440,
        forall|k: int| 0 <= k < meetings.len() ==> meeting_valid(#[trigger] meetings[k]),
    ensures
        any_covers(meetings, day * 1440 + minute) <==> exists|k: int|
            0 <= k < meetings.len() && under_way(#[trigger] meetings[k], day, minute),
{
    assert forall|k: int| 0 <= k < meetings.len() implies (covers(
        #[trigger] meetings[k],
        day * 1440 + minute,
    ) <==> under_way(meetings[k], day, minute)) by {
        assert(meeting_valid(meetings[k]));
    }
}

/// The sections of a pick are members of the choices for their requirements.
pub open spec fn listed(
    requirements: Seq<RequirementView>,
    choices: Seq<TimeChoiceView>,
    pick: Seq<Option<SectionOptionView>>,
) -> bool {
    forall|i: int|
        0 <= i < pick.len() && (#[trigger] pick[i]) is Some ==> exists|c: int|
            0 <= c < choices.len() && (#[trigger] choices[c]).requirement_id == requirements[i].id
                && choices[c].members.contains(pick[i]->0)
}

/// A section for each requirement that has one to place.
pub open spec fn one_for_each(
    requirements: Seq<RequirementView>,
    pick: Seq<Option<SectionOptionView>>,
) -> bool {
    &&& pick.len() == requirements.len()
    &&& forall|i: int|
        0 <= i < pick.len() ==> ((#[trigger] pick[i]) is Some <==> can_be_met(requirements[i]))
}

/// A score has as many days as a pick and as many minutes of waiting.
pub open spec fn scores(pick: Seq<Option<SectionOptionView>>, score: Score) -> bool {
    score.occupied_days == days_used(attended(pick)) && score.gap_minutes == minutes_waited(
        attended(pick),
    )
}

/// A score has fewer days than a pick or, where it has as many, at most as many minutes of waiting.
pub open spec fn at_most(score: Score, pick: Seq<Option<SectionOptionView>>) -> bool {
    &&& score.occupied_days <= days_used(attended(pick))
    &&& score.occupied_days == days_used(attended(pick)) ==> score.gap_minutes <= minutes_waited(
        attended(pick),
    )
}

/// Choices in the order of the requirements that they are for.
pub open spec fn in_turn(choices: Seq<TimeChoiceView>) -> bool {
    forall|c: int, d: int|
        #![trigger choices[c], choices[d]]
        0 <= c < d < choices.len() ==> !text_before(
            choices[d].requirement_id,
            choices[c].requirement_id,
        )
}

proof fn lemma_choice_order()
    ensures
        forall|a: TimeChoiceView, b: TimeChoiceView|
            #![trigger choice_le()(a, b)]
            choice_le()(a, b) || choice_le()(b, a),
        forall|a: TimeChoiceView, b: TimeChoiceView, c: TimeChoiceView|
            #![trigger choice_le()(a, b), choice_le()(b, c)]
            choice_le()(a, b) && choice_le()(b, c) ==> choice_le()(a, c),
{
    assert forall|a: TimeChoiceView, b: TimeChoiceView|
        #![trigger choice_le()(a, b)]
        choice_le()(a, b) || choice_le()(b, a) by {
        <String as Rank>::before_total(a.requirement_id, b.requirement_id);
        <String as Rank>::before_total(a.id, b.id);
        if text_before(a.id, b.id) && text_before(b.id, a.id) {
            <String as Rank>::before_transitive(a.id, b.id, a.id);
            <String as Rank>::before_irreflexive(a.id);
        }
    }
    assert forall|a: TimeChoiceView, b: TimeChoiceView, c: TimeChoiceView|
        #![trigger choice_le()(a, b), choice_le()(b, c)]
        choice_le()(a, b) && choice_le()(b, c) implies choice_le()(a, c) by {
        if text_before(a.requirement_id, b.requirement_id) && text_before(
            b.requirement_id,
            c.requirement_id,
        ) {
            <String as Rank>::before_transitive(
                a.requirement_id,
                b.requirement_id,
                c.requirement_id,
            );
        } else if a.requirement_id == b.requirement_id && b.requirement_id == c.requirement_id {
            if text_before(c.id, a.id) {
                <String as Rank>::before_total(a.id, b.id);
                if a.id != b.id {
                    <String as Rank>::before_transitive(c.id, a.id, b.id);
                }
            }
        }
    }
}

proof fn lemma_in_turn(timetable: Seq<TimeChoiceView>)
    ensures
        in_turn(arranged(timetable)),
{
    let choices = arranged(timetable);
    lemma_choice_order();
    law_stable_sorted(timetable, choice_le());
    assert forall|c: int, d: int|
        #![trigger choices[c], choices[d]]
        0 <= c < d < choices.len() implies !text_before(
        choices[d].requirement_id,
        choices[c].requirement_id,
    ) by {
        assert(choice_le()(choices[c], choices[d]));
        let x = choices[c].requirement_id;
        let y = choices[d].requirement_id;
        if text_before(y, x) {
            if x == y {
                <String as Rank>::before_irreflexive(x);
            } else {
                <String as Rank>::before_transitive(x, y, x);
                <String as Rank>::before_irreflexive(x);
            }
        }
    }
}

/// An answer is the best there is: it is infeasible exactly if no sections go together. Otherwise
/// it has the score of sections that do, the fewest days that are possible and, of those, the least
/// waiting. The sections of its choices, and of any alternative, go together with just that score,
/// and alternatives are left out only where it says so, after the first thousand.
pub open spec fn is_best(
    requirements: Seq<RequirementView>,
    calendar: Option<TermCalendarView>,
    s: SolutionView,
) -> bool {
    &&& s.status is Infeasible <==> forall|pick: Seq<Option<SectionOptionView>>| !#[trigger]
        go_together(requirements, calendar, pick)
    &&& s.status is Infeasible || s.status is OptimalKnown
    &&& s.status is Infeasible ==> s.score is None && s.choices.len() == 0 && s.alternatives.len()
        == 0
    &&& s.status is OptimalKnown ==> {
        &&& s.score is Some
        &&& s.alternatives.len() > 0
        &&& s.choices == s.alternatives[0]
        &&& s.alternatives.len() <= 1000
        &&& s.alternatives_truncated ==> s.alternatives.len() == 1000
        &&& forall|a: int|
            0 <= a < s.alternatives.len() ==> in_turn(#[trigger] s.alternatives[a])
        &&& forall|pick: Seq<Option<SectionOptionView>>| #[trigger]
            go_together(requirements, calendar, pick) ==> at_most(s.score->0, pick)
        &&& exists|pick: Seq<Option<SectionOptionView>>| #[trigger]
            go_together(requirements, calendar, pick) && scores(pick, s.score->0) && listed(
                requirements,
                s.choices,
                pick,
            )
        &&& forall|a: int, pick: Seq<Option<SectionOptionView>>|
            0 <= a < s.alternatives.len() && one_for_each(requirements, pick) && #[trigger] listed(
                requirements,
                s.alternatives[a],
                pick,
            ) ==> go_together(requirements, calendar, pick) && scores(pick, s.score->0)
        &&& forall|pick: Seq<Option<SectionOptionView>>| #[trigger]
            go_together(requirements, calendar, pick) && scores(pick, s.score->0)
                && !s.alternatives_truncated ==> exists|a: int|
                0 <= a < s.alternatives.len() && #[trigger] listed(
                    requirements,
                    s.alternatives[a],
                    pick,
                )
    }
}

proof fn lemma_listed(
    requirements: Seq<RequirementView>,
    calendar: Option<TermCalendarView>,
    choices: Seq<TimeChoiceView>,
    pick: Seq<Option<SectionOptionView>>,
)
    requires
        problem_fault(requirements, calendar) is None,
    ensures
        holds_pick(requirements, choices, pick) <==> one_for_each(requirements, pick) && listed(
            requirements,
            choices,
            pick,
        ),
{
    lemma_meetings_valid(requirements, calendar);
    if pick.len() == requirements.len() {
        assert forall|i: int| 0 <= i < pick.len() implies has_place(requirements[i]) == can_be_met(
            requirements[i],
        ) && (#[trigger] pick[i] is Some || pick[i] is None) by {
            lemma_can_be_met(requirements, i);
        }
        assert forall|i: int| 0 <= i < pick.len() && (#[trigger] pick[i]) is Some implies held(
            choices,
            requirements[i].id,
            pick[i]->0,
        ) == (exists|c: int|
            0 <= c < choices.len() && (#[trigger] choices[c]).requirement_id == requirements[i].id
                && choices[c].members.contains(pick[i]->0)) by {}
    }
}

pub(crate) proof fn lemma_solution_is_best(
    requirements: Seq<RequirementView>,
    calendar: Option<TermCalendarView>,
)
    requires
        problem_fault(requirements, calendar) is None,
    ensures
        is_best(requirements, calendar, solved(requirements, calendar)->Ok_0),
{
    let s = solved(requirements, calendar)->Ok_0;
    law_solution_is_exact_over_sections(requirements, calendar);
    law_solution_is_optimal(problem_of(requirements, calendar), search_notices(requirements));
    assert forall|pick: Seq<Option<SectionOptionView>>| #[trigger]
        go_together(requirements, calendar, pick) <==> is_pick(requirements, calendar, pick) by {
        law_picks_go_together(requirements, calendar, pick);
    }
    assert forall|pick: Seq<Option<SectionOptionView>>| #[trigger]
        go_together(requirements, calendar, pick) implies scores(pick, pick_score(pick)) by {
        lemma_attended(requirements, calendar, pick);
    }
    if s.status is Infeasible {
        assert forall|pick: Seq<Option<SectionOptionView>>| !#[trigger]
            go_together(requirements, calendar, pick) by {
            assert(!is_pick(requirements, calendar, pick));
        }
    }
    if forall|pick: Seq<Option<SectionOptionView>>| !#[trigger]
        go_together(requirements, calendar, pick) {
        assert forall|pick: Seq<Option<SectionOptionView>>| !#[trigger]
            is_pick(requirements, calendar, pick) by {
            law_picks_go_together(requirements, calendar, pick);
        }
    }
    if s.status is OptimalKnown {
        let best = choose|pick: Seq<Option<SectionOptionView>>| #[trigger]
            is_pick(requirements, calendar, pick) && pick_score(pick) == s.score->0 && holds_pick(
                requirements,
                s.choices,
                pick,
            );
        law_picks_go_together(requirements, calendar, best);
        lemma_listed(requirements, calendar, s.choices, best);
        assert(go_together(requirements, calendar, best));
        assert forall|a: int| 0 <= a < s.alternatives.len() implies in_turn(
            #[trigger] s.alternatives[a],
        ) by {
            let t = choose|t: Seq<TimeChoiceView>| #[trigger]
                feasible(problem_of(requirements, calendar), t) && timetable_score(t) == s.score->0
                    && arranged(t) == s.alternatives[a];
            lemma_in_turn(t);
        }
        assert forall|a: int, pick: Seq<Option<SectionOptionView>>|
            0 <= a < s.alternatives.len() && one_for_each(requirements, pick) && #[trigger] listed(
                requirements,
                s.alternatives[a],
                pick,
            ) implies go_together(requirements, calendar, pick) && scores(pick, s.score->0) by {
            lemma_listed(requirements, calendar, s.alternatives[a], pick);
            law_alternatives_are_exact_over_sections(requirements, calendar, pick);
            law_picks_go_together(requirements, calendar, pick);
        }
        assert forall|pick: Seq<Option<SectionOptionView>>| #[trigger]
            go_together(requirements, calendar, pick) && scores(pick, s.score->0)
                && !s.alternatives_truncated implies exists|a: int|
            0 <= a < s.alternatives.len() && #[trigger] listed(
                requirements,
                s.alternatives[a],
                pick,
            ) by {
            law_alternatives_are_exact_over_sections(requirements, calendar, pick);
            let a = choose|a: int|
                0 <= a < s.alternatives.len() && holds_pick(
                    requirements,
                    #[trigger] s.alternatives[a],
                    pick,
                );
            lemma_listed(requirements, calendar, s.alternatives[a], pick);
            assert(listed(requirements, s.alternatives[a], pick));
        }
    }
}

/// What an answer says besides does not matter to it.
pub(crate) proof fn lemma_still_best(
    requirements: Seq<RequirementView>,
    calendar: Option<TermCalendarView>,
    s: SolutionView,
    unresolved: Seq<Seq<char>>,
)
    requires
        is_best(requirements, calendar, s),
    ensures
        is_best(requirements, calendar, (SolutionView { unresolved, ..s })),
{
    let t = SolutionView { unresolved, ..s };
    assert(t.alternatives == s.alternatives && t.choices == s.choices);
    assert forall|a: int| 0 <= a < t.alternatives.len() && s.status is OptimalKnown implies in_turn(
        #[trigger] t.alternatives[a],
    ) by {
        assert(in_turn(s.alternatives[a]));
    }
    if s.status is OptimalKnown {
        let pick = choose|pick: Seq<Option<SectionOptionView>>| #[trigger]
            go_together(requirements, calendar, pick) && scores(pick, s.score->0) && listed(
                requirements,
                s.choices,
                pick,
            );
        assert(go_together(requirements, calendar, pick));
        assert forall|pick: Seq<Option<SectionOptionView>>| #[trigger]
            go_together(requirements, calendar, pick) && scores(pick, t.score->0)
                && !t.alternatives_truncated implies exists|a: int|
            0 <= a < t.alternatives.len() && #[trigger] listed(
                requirements,
                t.alternatives[a],
                pick,
            ) by {
            let a = choose|a: int|
                0 <= a < s.alternatives.len() && #[trigger] listed(
                    requirements,
                    s.alternatives[a],
                    pick,
                );
            assert(listed(requirements, t.alternatives[a], pick));
        }
    }
}

/// A search without a calendar that is not told to stop answers with the best timetable.
pub proof fn law_best_timetable(
    requirements: &[Requirement],
    cancel: Option<&AtomicBool>,
    r: Result<Solution, Error>,
)
    requires
        call_ensures(solve, (requirements, cancel), r),
        cancel is None,
        r is Ok,
    ensures
        is_best(requirements.deep_view(), None, (r->Ok_0).deep_view()),
{
    lemma_solution_is_best(requirements.deep_view(), None);
}

/// A search with a calendar that is not told to stop answers with the best timetable.
pub proof fn law_best_timetable_of_a_term(
    requirements: &[Requirement],
    calendar: &TermCalendar,
    cancel: Option<&AtomicBool>,
    r: Result<Solution, Error>,
)
    requires
        call_ensures(solve_with_calendar, (requirements, calendar, cancel), r),
        cancel is None,
        r is Ok,
    ensures
        is_best(requirements.deep_view(), Some(calendar.deep_view()), (r->Ok_0).deep_view()),
{
    lemma_solution_is_best(requirements.deep_view(), Some(calendar.deep_view()));
}

/// No feasible timetable has fewer days than the reported score, and none that has as many waits
/// less.
pub proof fn law_no_feasible_timetable_is_better(
    requirements: Seq<RequirementView>,
    calendar: Option<TermCalendarView>,
    t: Seq<TimeChoiceView>,
)
    requires
        problem_fault(requirements, calendar) is None,
        feasible(problem_of(requirements, calendar), t),
    ensures
        ({
            let s = solved(requirements, calendar)->Ok_0;
            &&& s.status is OptimalKnown
            &&& s.score is Some
            &&& s.score->0.occupied_days <= timetable_score(t).occupied_days
            &&& s.score->0.occupied_days == timetable_score(t).occupied_days
                ==> s.score->0.gap_minutes <= timetable_score(t).gap_minutes
        }),
{
    law_solution_is_optimal(problem_of(requirements, calendar), search_notices(requirements));
}

} // verus!
