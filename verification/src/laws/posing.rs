//! Which problems are answered, and how sections at the same time are taken together.
use std::sync::atomic::{AtomicBool, Ordering};
use vstd::prelude::*;
use crate::determinism::{faultless, lemma_searchable, lemma_sound, sound};
use crate::error::{outcome, Error};
use crate::laws::catalog::{by_id, lemma_by_id};
use crate::laws::lemma_no_fault;
use crate::laws::timetable::{collide, dates_clear, lemma_collide, lemma_placeable, placeable};
use crate::model::{
    any_pair, calendar_overlap, internal_calendar_overlap, internal_natural_overlap, meeting_fault,
    meeting_valid, natural_overlap, Meeting, Requirement, RequirementView, SectionOptionView,
    Solution, TermCalendar, TermCalendarView, TimeChoice, TimeChoiceView,
};
use crate::optimizer::{
    canonical, check_calendar, classes, group, group_classes, group_key, group_of, grouped, id_le,
    lemma_class_shrinks, lemma_sorted_elements, meeting_le, meetings_clash, member_le,
    option_searchable, pattern, pattern_members, patterns, problem_fault, requirement_ids,
    searchable_options, self_overlapping, solve, solve_with_calendar, Located, PatternKey,
};
use crate::order::{distinct_ascending, lemma_distinct_ascending, lemma_filtered, stable_sorted};
use crate::text::trimmed;

verus! {

/// No two meetings of a section get in each other's way.
pub open spec fn fits_itself(
    calendar: Option<TermCalendarView>,
    option: SectionOptionView,
) -> bool {
    let meetings = canonical(option.meetings);
    forall|k: int, l: int|
        #![trigger meetings[k], meetings[l]]
        0 <= k < l < meetings.len() ==> !collide(calendar, true, meetings[k], meetings[l])
}

/// A section is in order: it has an id, its meetings are valid, and where it can be placed they do
/// not get in each other's way.
pub open spec fn section_in_order(
    kind: Seq<char>,
    calendar: Option<TermCalendarView>,
    option: SectionOptionView,
) -> bool {
    &&& trimmed(option.id).len() > 0
    &&& forall|k: int|
        0 <= k < option.meetings.len() ==> meeting_valid(#[trigger] option.meetings[k])
    &&& placeable(kind, option) ==> fits_itself(calendar, option)
}

/// A problem is well posed: all requirements and sections have ids, no two the same, and all
/// sections are in order.
pub open spec fn well_posed(
    requirements: Seq<RequirementView>,
    calendar: Option<TermCalendarView>,
) -> bool {
    &&& forall|i: int|
        0 <= i < requirements.len() ==> trimmed((#[trigger] requirements[i]).id).len() > 0
    &&& forall|i: int, j: int|
        #![trigger requirements[i], requirements[j]]
        0 <= i < j < requirements.len() ==> requirements[i].id != requirements[j].id
    &&& forall|i: int, k: int|
        0 <= i < requirements.len() && 0 <= k < requirements[i].options.len() ==> section_in_order(
            requirements[i].kind,
            calendar,
            #[trigger] requirements[i].options[k],
        )
    &&& forall|i: int, k: int, j: int, l: int|
        #![trigger requirements[i].options[k], requirements[j].options[l]]
        0 <= i < requirements.len() && 0 <= k < requirements[i].options.len() && 0 <= j
            < requirements.len() && 0 <= l < requirements[j].options.len()
            && requirements[i].options[k].id == requirements[j].options[l].id ==> i == j && k == l
}

proof fn lemma_fits_itself(
    kind: Seq<char>,
    calendar: Option<TermCalendarView>,
    option: SectionOptionView,
)
    requires
        placeable(kind, option),
        forall|k: int|
            0 <= k < option.meetings.len() ==> meeting_valid(#[trigger] option.meetings[k]),
    ensures
        self_overlapping(calendar, canonical(option.meetings)) <==> !fits_itself(calendar, option),
{
    let all = option.meetings;
    let meetings = canonical(all);
    lemma_sorted_elements(all, meeting_le());
    let natural = |left: Meeting, right: Meeting| natural_overlap(left, right);
    let by_term = |left: Meeting, right: Meeting| calendar_overlap(calendar->0, left, right);
    assert forall|k: int, l: int|
        #![trigger meetings[k], meetings[l]]
        0 <= k < l < meetings.len() implies (meetings_clash(calendar, true, meetings[k], meetings[l])
        <==> collide(calendar, true, meetings[k], meetings[l])) by {
        lemma_clear(kind, option, k);
        lemma_clear(kind, option, l);
        lemma_collide(calendar, true, meetings[k], meetings[l]);
    }
    match calendar {
        Some(term) => {
            assert(internal_calendar_overlap(term, meetings) == any_pair(meetings, by_term));
            if any_pair(meetings, by_term) {
                let (k, l) = choose|k: int, l: int|
                    0 <= k < l < meetings.len() && #[trigger] by_term(meetings[k], meetings[l]);
                assert(meetings_clash(calendar, true, meetings[k], meetings[l]));
            }
            if !fits_itself(calendar, option) {
                let (k, l) = choose|k: int, l: int|
                    #![trigger meetings[k], meetings[l]]
                    0 <= k < l < meetings.len() && collide(
                        calendar,
                        true,
                        meetings[k],
                        meetings[l],
                    );
                assert(by_term(meetings[k], meetings[l]));
            }
        },
        None => {
            assert(internal_natural_overlap(meetings) == any_pair(meetings, natural));
            if any_pair(meetings, natural) {
                let (k, l) = choose|k: int, l: int|
                    0 <= k < l < meetings.len() && #[trigger] natural(meetings[k], meetings[l]);
                assert(meetings_clash(calendar, true, meetings[k], meetings[l]));
            }
            if !fits_itself(calendar, option) {
                let (k, l) = choose|k: int, l: int|
                    #![trigger meetings[k], meetings[l]]
                    0 <= k < l < meetings.len() && collide(
                        calendar,
                        true,
                        meetings[k],
                        meetings[l],
                    );
                assert(natural(meetings[k], meetings[l]));
            }
        },
    }
}

proof fn lemma_clear(kind: Seq<char>, option: SectionOptionView, k: int)
    requires
        placeable(kind, option),
        forall|k: int|
            0 <= k < option.meetings.len() ==> meeting_valid(#[trigger] option.meetings[k]),
        0 <= k < canonical(option.meetings).len(),
    ensures
        meeting_valid(canonical(option.meetings)[k]),
        dates_clear(canonical(option.meetings)[k]),
{
    let all = option.meetings;
    let meetings = canonical(all);
    lemma_sorted_elements(all, meeting_le());
    assert(meetings.contains(meetings[k]));
    assert(all.contains(meetings[k]));
    let j = choose|j: int| 0 <= j < all.len() && all[j] == meetings[k];
    assert(meeting_valid(all[j]));
    assert(all[j].start_date is None && all[j].end_date is None
        || crate::laws::export::has_both_dates(all[j]));
}

pub(crate) proof fn lemma_section_in_order(
    kind: Seq<char>,
    calendar: Option<TermCalendarView>,
    option: SectionOptionView,
)
    ensures
        faultless(kind, option, calendar) <==> section_in_order(kind, calendar, option),
{
    let all = option.meetings;
    lemma_no_fault(all);
    assert forall|k: int| 0 <= k < all.len() implies (meeting_valid(#[trigger] all[k])
        <==> meeting_fault(all[k]) is None) by {}
    if forall|k: int| 0 <= k < all.len() ==> meeting_valid(#[trigger] all[k]) {
        assert forall|k: int| 0 <= k < all.len() implies meeting_fault(#[trigger] all[k]) is None by {
            assert(meeting_valid(all[k]));
        }
        lemma_placeable(kind, option);
        if placeable(kind, option) {
            lemma_fits_itself(kind, calendar, option);
        }
    }
}

proof fn lemma_well_posed(
    requirements: Seq<RequirementView>,
    calendar: Option<TermCalendarView>,
)
    ensures
        problem_fault(requirements, calendar) is None <==> well_posed(requirements, calendar),
{
    lemma_sound(requirements, calendar);
    let ids = requirement_ids(requirements);
    assert forall|i: int, k: int|
        0 <= i < requirements.len() && 0 <= k < requirements[i].options.len() implies (faultless(
        requirements[i].kind,
        #[trigger] requirements[i].options[k],
        calendar,
    ) <==> section_in_order(requirements[i].kind, calendar, requirements[i].options[k])) by {
        lemma_section_in_order(requirements[i].kind, calendar, requirements[i].options[k]);
    }
    if sound(requirements, calendar) {
        assert forall|i: int, j: int|
            #![trigger requirements[i], requirements[j]]
            0 <= i < j < requirements.len() implies requirements[i].id != requirements[j].id by {
            assert(ids[i] != ids[j]);
        }
    }
    if well_posed(requirements, calendar) {
        assert forall|i: int, j: int|
            0 <= i < ids.len() && 0 <= j < ids.len() && i != j implies ids[i] != ids[j] by {
            if i < j {
                assert(requirements[i].id != requirements[j].id);
            } else {
                assert(requirements[j].id != requirements[i].id);
            }
        }
        assert(ids.no_duplicates());
    }
}

/// A calendar can be used: it does not end before it begins, and every day that follows another
/// weekday follows one of the seven.
pub open spec fn usable(calendar: TermCalendarView) -> bool {
    &&& calendar.start <= calendar.end
    &&& forall|k: int|
        0 <= k < calendar.alternate_days.len() ==> (#[trigger] calendar.alternate_days[k]).1 < 7
}

/// A calendar passes exactly if it can be used.
pub proof fn law_usable_calendars_pass(calendar: &TermCalendar, r: Result<(), Error>)
    requires
        call_ensures(check_calendar, (calendar,), r),
    ensures
        r is Ok <==> usable(calendar.deep_view()),
{
}

/// A search that is not told to stop answers exactly the problems that are well posed.
pub proof fn law_well_posed_problems_are_answered(
    requirements: &[Requirement],
    cancel: Option<&AtomicBool>,
    r: Result<Solution, Error>,
)
    requires
        call_ensures(solve, (requirements, cancel), r),
        cancel is None,
    ensures
        r is Ok <==> well_posed(requirements.deep_view(), None),
{
    lemma_well_posed(requirements.deep_view(), None);
}

/// A search over a term that is not told to stop answers exactly the problems that are well posed,
/// over a calendar that can be used.
pub proof fn law_well_posed_problems_of_a_term_are_answered(
    requirements: &[Requirement],
    calendar: &TermCalendar,
    cancel: Option<&AtomicBool>,
    r: Result<Solution, Error>,
)
    requires
        call_ensures(solve_with_calendar, (requirements, calendar, cancel), r),
        cancel is None,
    ensures
        r is Ok <==> usable(calendar.deep_view()) && well_posed(
            requirements.deep_view(),
            Some(calendar.deep_view()),
        ),
{
    lemma_well_posed(requirements.deep_view(), Some(calendar.deep_view()));
}

/// A search that is told to stop whenever it asks claims no timetable.
pub proof fn law_stopped_search_claims_nothing(
    requirements: &[Requirement],
    flag: &AtomicBool,
    r: Result<Solution, Error>,
)
    requires
        call_ensures(solve, (requirements, Some(flag)), r),
        !call_ensures(AtomicBool::load, (flag, Ordering::Relaxed), false),
    ensures
        r is Ok,
        ({
            let s = (r->Ok_0).deep_view();
            &&& s.status is Cancelled
            &&& s.score is None
            &&& s.choices.len() == 0
            &&& s.alternatives.len() == 0
        }),
{
    assert(outcome(r) is Ok);
}

/// A section is a member of a choice.
pub open spec fn taken_by(choice: TimeChoiceView, option: SectionOptionView) -> bool {
    choice.members.contains(option)
}

proof fn lemma_pattern_members(
    options: Seq<SectionOptionView>,
    key: (Seq<Meeting>, Seq<Seq<char>>),
    option: SectionOptionView,
)
    ensures
        pattern_members(options, key).contains(option) <==> options.contains(option) && pattern(
            option,
        ) == key,
{
    let own = options.filter(|option: SectionOptionView| pattern(option) == key);
    lemma_filtered(options, |option: SectionOptionView| pattern(option) == key, option);
    lemma_sorted_elements(own, member_le());
}

/// Grouping the sections of a requirement takes those together that meet at the same times and
/// exclude the same sections: every section that can be placed is a member of one choice, of no
/// other, and no section is that cannot be placed.
pub proof fn law_sections_at_the_same_time_are_taken_together(
    requirement: &Requirement,
    r: Result<Vec<TimeChoice>, Error>,
    option: SectionOptionView,
)
    requires
        call_ensures(group, (requirement,), r),
        r is Ok,
    ensures
        ({
            let choices = (r->Ok_0).deep_view();
            let view = requirement.deep_view();
            &&& (view.options.contains(option) && option_searchable(view.kind, option))
                <==> exists|c: int| 0 <= c < choices.len() && taken_by(#[trigger] choices[c], option)
            &&& forall|c: int, d: int|
                #![trigger choices[c], choices[d]]
                0 <= c < d < choices.len() ==> !(taken_by(choices[c], option) && taken_by(
                    choices[d],
                    option,
                ))
            &&& forall|c: int|
                #![trigger choices[c]]
                0 <= c < choices.len() ==> choices[c].requirement_id == view.id && (taken_by(
                    choices[c],
                    option,
                ) ==> canonical(option.meetings) == choices[c].meetings)
        }),
{
    let view = requirement.deep_view();
    let choices = grouped(view);
    let options = searchable_options(view);
    let all = patterns(options);
    let keys = distinct_ascending::<PatternKey>(all);
    assert((r->Ok_0).deep_view() == choices);
    lemma_searchable(view, option);
    lemma_distinct_ascending::<PatternKey>(all);
    assert forall|c: int| 0 <= c < choices.len() implies (taken_by(#[trigger] choices[c], option)
        <==> options.contains(option) && pattern(option) == keys[c]) by {
        lemma_pattern_members(options, keys[c], option);
    }
    if options.contains(option) {
        let k = choose|k: int| 0 <= k < options.len() && options[k] == option;
        assert(all[k] == pattern(option));
        assert(all.contains(pattern(option)));
        assert(keys.contains(pattern(option)));
        let c = choose|c: int| 0 <= c < keys.len() && keys[c] == pattern(option);
        assert(taken_by(choices[c], option));
    }
    assert forall|c: int, d: int|
        #![trigger choices[c], choices[d]]
        0 <= c < d < choices.len() implies !(taken_by(choices[c], option) && taken_by(
        choices[d],
        option,
    )) by {
        if taken_by(choices[c], option) && taken_by(choices[d], option) {
            assert(<PatternKey as crate::order::Rank>::before(keys[c], keys[d]));
            <PatternKey as crate::order::Rank>::before_irreflexive(keys[c]);
        }
    }
}

proof fn lemma_filter_in_order<T>(
    s: Seq<T>,
    le: spec_fn(T, T) -> bool,
    pred: spec_fn(T) -> bool,
)
    requires
        forall|i: int, j: int| #![trigger s[i], s[j]] 0 <= i < j < s.len() ==> le(s[i], s[j]),
    ensures
        forall|i: int, j: int|
            #![trigger s.filter(pred)[i], s.filter(pred)[j]]
            0 <= i < j < s.filter(pred).len() ==> le(s.filter(pred)[i], s.filter(pred)[j]),
    decreases s.len(),
{
    reveal(Seq::filter);
    if s.len() > 0 {
        let rest = s.drop_last();
        let last = s.last();
        assert forall|i: int, j: int| #![trigger rest[i], rest[j]] 0 <= i < j < rest.len() implies le(
            rest[i],
            rest[j],
        ) by {
            assert(rest[i] == s[i] && rest[j] == s[j]);
        }
        lemma_filter_in_order(rest, le, pred);
        let kept = rest.filter(pred);
        let out = s.filter(pred);
        assert forall|i: int, j: int| #![trigger out[i], out[j]] 0 <= i < j < out.len() implies le(
            out[i],
            out[j],
        ) by {
            assert(out[i] == kept[i]);
            if j < kept.len() {
                assert(out[j] == kept[j]);
            } else {
                assert(kept.contains(kept[i]));
                lemma_filtered(rest, pred, kept[i]);
                let k = choose|k: int| 0 <= k < rest.len() && rest[k] == kept[i];
                assert(s[k] == kept[i] && s[s.len() - 1] == last);
            }
        }
    }
}

proof fn lemma_classes_in_order<T, K>(
    s: Seq<T>,
    le: spec_fn(T, T) -> bool,
    key: spec_fn(T) -> K,
    c: int,
)
    requires
        forall|i: int, j: int| #![trigger s[i], s[j]] 0 <= i < j < s.len() ==> le(s[i], s[j]),
        0 <= c < classes(s, key).len(),
    ensures
        classes(s, key)[c].len() > 0,
        forall|i: int, j: int|
            #![trigger classes(s, key)[c][i], classes(s, key)[c][j]]
            0 <= i < j < classes(s, key)[c].len() ==> le(
                classes(s, key)[c][i],
                classes(s, key)[c][j],
            ),
    decreases s.len(),
{
    if s.len() > 0 {
        lemma_class_shrinks(s, key);
        let same = |x: T| key(x) == key(s[0]);
        let other = |x: T| key(x) != key(s[0]);
        lemma_filter_in_order(s, le, same);
        lemma_filter_in_order(s, le, other);
        if c == 0 {
            assert(s.contains(s[0]));
            lemma_filtered(s, same, s[0]);
            assert(s.filter(same).contains(s[0]));
        } else {
            lemma_classes_in_order(s.filter(other), le, key, c - 1);
        }
    }
}

/// The sections of a choice come in the order of their ids, and the choice is named after the first.
pub proof fn law_choices_are_named_after_their_first_section(
    all: Seq<Located>,
    requirement: RequirementView,
    c: int,
)
    requires
        0 <= c < group_of(all, requirement).choices.len(),
    ensures
        ({
            let choice = group_of(all, requirement).choices[c];
            &&& choice.members.len() > 0
            &&& choice.id == choice.members[0].id
            &&& choice.requirement_id == requirement.id
            &&& by_id(choice.members)
        }),
{
    let key = |option: SectionOptionView| group_key(all, requirement.id, option);
    let sorted = stable_sorted(searchable_options(requirement), id_le());
    lemma_by_id(searchable_options(requirement));
    assert forall|i: int, j: int|
        #![trigger sorted[i], sorted[j]]
        0 <= i < j < sorted.len() implies id_le()(sorted[i], sorted[j]) by {}
    assert(group_classes(all, requirement) == classes(sorted, key));
    lemma_classes_in_order(sorted, id_le(), key, c);
    let members = group_classes(all, requirement)[c];
    assert forall|i: int, j: int|
        #![trigger members[i], members[j]]
        0 <= i < j < members.len() implies !crate::text::text_before(members[j].id, members[i].id) by {
        assert(id_le()(members[i], members[j]));
    }
}

} // verus!
