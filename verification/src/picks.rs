//! The search over single sections: merging sections that meet alike loses no timetable and adds
//! none.
use vstd::prelude::*;
use crate::determinism::{
    lemma_alike, lemma_notice_has_colon, lemma_search_groups, lemma_searchable, lemma_sum_contains,
};
use crate::laws::law_members_are_interchangeable;
use crate::model::{
    any_date_limited, bounded_pe, date_limited, law_overlap_is_symmetric, pe_kind, Meeting,
    RequirementView, Score, SectionOptionView, SolveStatus, TermCalendarView, TimeChoiceView,
};
use crate::optimizer::{
    arranged, better, canonical, choice_le, choices_clash, chooses_bounded_pe, compatible,
    date_sensitive, feasible, final_notices, group_key, group_of, law_alternatives_are_complete,
    law_grouping_keeps_sections, law_solution_is_optimal, lemma_members_alike,
    lemma_sorted_elements, located, meeting_le, meetings_clash, members_compatible, occupied,
    optima, pe_notice, problem_fault, problem_of, search_groups, search_notices, searchable_options,
    solution_of, solved, timetable_score, timetables, truncated_notice, GroupView,
};
use crate::order::lemma_distinct_ascending;
use crate::week_bits::{any_covers, covers, week_score};

verus! {

/// Some section of a requirement can be placed.
pub open spec fn has_place(requirement: RequirementView) -> bool {
    searchable_options(requirement).len() > 0
}

/// Some section that can be placed meets on certain dates only.
pub open spec fn dates_matter(requirements: Seq<RequirementView>) -> bool {
    exists|i: int, k: int|
        0 <= i < requirements.len() && 0 <= k < searchable_options(requirements[i]).len()
            && any_date_limited((#[trigger] searchable_options(requirements[i])[k]).meetings)
}

/// Some meetings of two sections get in each other's way.
pub open spec fn sections_clash(
    calendar: Option<TermCalendarView>,
    dated: bool,
    left: SectionOptionView,
    right: SectionOptionView,
) -> bool {
    exists|i: int, j: int|
        0 <= i < left.meetings.len() && 0 <= j < right.meetings.len() && #[trigger] meetings_clash(
            calendar,
            dated,
            left.meetings[i],
            right.meetings[j],
        )
}

/// There is a section for each requirement that has one to place, and for no other.
pub open spec fn one_each(
    requirements: Seq<RequirementView>,
    pick: Seq<Option<SectionOptionView>>,
) -> bool {
    &&& pick.len() == requirements.len()
    &&& forall|i: int|
        0 <= i < pick.len() ==> ((#[trigger] pick[i]) is Some <==> has_place(requirements[i]))
}

/// One section for each requirement that has one to place, no two of them in each other's way or
/// excluding each other.
pub open spec fn is_pick(
    requirements: Seq<RequirementView>,
    calendar: Option<TermCalendarView>,
    pick: Seq<Option<SectionOptionView>>,
) -> bool {
    &&& one_each(requirements, pick)
    &&& forall|i: int|
        0 <= i < pick.len() && (#[trigger] pick[i]) is Some ==> searchable_options(
            requirements[i],
        ).contains(pick[i]->0)
    &&& forall|i: int, j: int|
        #![trigger pick[i], pick[j]]
        0 <= i < j < pick.len() && pick[i] is Some && pick[j] is Some ==> !sections_clash(
            calendar,
            dates_matter(requirements),
            pick[i]->0,
            pick[j]->0,
        ) && members_compatible(pick[i]->0, pick[j]->0)
}

/// Some meeting of the picked sections is under way at a minute of the week.
pub open spec fn pick_occupies(pick: Seq<Option<SectionOptionView>>, at: int) -> bool {
    exists|i: int|
        0 <= i < pick.len() && (#[trigger] pick[i]) is Some && any_covers(
            (pick[i]->0).meetings,
            at,
        )
}

/// The score of the picked sections.
pub open spec fn pick_score(pick: Seq<Option<SectionOptionView>>) -> Score {
    week_score(|at: int| pick_occupies(pick, at))
}

/// A choice for the requirement has the section among its members.
pub open spec fn held(
    timetable: Seq<TimeChoiceView>,
    requirement_id: Seq<char>,
    option: SectionOptionView,
) -> bool {
    exists|c: int|
        0 <= c < timetable.len() && (#[trigger] timetable[c]).requirement_id == requirement_id
            && timetable[c].members.contains(option)
}

/// All picked sections are among the members of a timetable.
pub open spec fn holds_pick(
    requirements: Seq<RequirementView>,
    timetable: Seq<TimeChoiceView>,
    pick: Seq<Option<SectionOptionView>>,
) -> bool {
    &&& one_each(requirements, pick)
    &&& forall|i: int|
        0 <= i < pick.len() && (#[trigger] pick[i]) is Some ==> held(
            timetable,
            requirements[i].id,
            pick[i]->0,
        )
}

proof fn lemma_clash_is_symmetric(
    calendar: Option<TermCalendarView>,
    dated: bool,
    left: Meeting,
    right: Meeting,
)
    ensures
        meetings_clash(calendar, dated, left, right) == meetings_clash(
            calendar,
            dated,
            right,
            left,
        ),
{
    let some = match calendar {
        Some(view) => view,
        None => arbitrary(),
    };
    law_overlap_is_symmetric(some, left, right);
}

/// Choices clash exactly if members of them do.
proof fn lemma_members_clash(
    calendar: Option<TermCalendarView>,
    dated: bool,
    a: TimeChoiceView,
    b: TimeChoiceView,
    x: SectionOptionView,
    y: SectionOptionView,
)
    requires
        a.meetings == canonical(x.meetings),
        b.meetings == canonical(y.meetings),
    ensures
        choices_clash(calendar, dated, a, b) == sections_clash(calendar, dated, x, y),
        choices_clash(calendar, dated, a, b) == sections_clash(calendar, dated, y, x),
{
    lemma_sorted_elements(x.meetings, meeting_le());
    lemma_sorted_elements(y.meetings, meeting_le());
    if choices_clash(calendar, dated, a, b) {
        let (i, j) = choose|i: int, j: int|
            0 <= i < a.meetings.len() && 0 <= j < b.meetings.len() && #[trigger] meetings_clash(
                calendar,
                dated,
                a.meetings[i],
                b.meetings[j],
            );
        assert(a.meetings.contains(a.meetings[i]));
        assert(b.meetings.contains(b.meetings[j]));
        let k = choose|k: int| 0 <= k < x.meetings.len() && x.meetings[k] == a.meetings[i];
        let l = choose|l: int| 0 <= l < y.meetings.len() && y.meetings[l] == b.meetings[j];
        assert(meetings_clash(calendar, dated, x.meetings[k], y.meetings[l]));
        lemma_clash_is_symmetric(calendar, dated, x.meetings[k], y.meetings[l]);
        assert(meetings_clash(calendar, dated, y.meetings[l], x.meetings[k]));
    }
    if sections_clash(calendar, dated, y, x) {
        let (l, k) = choose|l: int, k: int|
            0 <= l < y.meetings.len() && 0 <= k < x.meetings.len() && #[trigger] meetings_clash(
                calendar,
                dated,
                y.meetings[l],
                x.meetings[k],
            );
        lemma_clash_is_symmetric(calendar, dated, y.meetings[l], x.meetings[k]);
        assert(meetings_clash(calendar, dated, x.meetings[k], y.meetings[l]));
    }
    if sections_clash(calendar, dated, x, y) {
        let (k, l) = choose|k: int, l: int|
            0 <= k < x.meetings.len() && 0 <= l < y.meetings.len() && #[trigger] meetings_clash(
                calendar,
                dated,
                x.meetings[k],
                y.meetings[l],
            );
        assert(x.meetings.contains(x.meetings[k]));
        assert(y.meetings.contains(y.meetings[l]));
        assert(a.meetings.contains(x.meetings[k]));
        assert(b.meetings.contains(y.meetings[l]));
        let i = choose|i: int| 0 <= i < a.meetings.len() && a.meetings[i] == x.meetings[k];
        let j = choose|j: int| 0 <= j < b.meetings.len() && b.meetings[j] == y.meetings[l];
        assert(meetings_clash(calendar, dated, a.meetings[i], b.meetings[j]));
    }
}

/// Meetings in order cover the same minutes and are limited to dates alike.
proof fn lemma_canonical(meetings: Seq<Meeting>, at: int)
    ensures
        any_covers(canonical(meetings), at) == any_covers(meetings, at),
        any_date_limited(canonical(meetings)) == any_date_limited(meetings),
{
    let sorted = canonical(meetings);
    lemma_sorted_elements(meetings, meeting_le());
    if any_covers(sorted, at) {
        let i = choose|i: int| 0 <= i < sorted.len() && covers(#[trigger] sorted[i], at);
        assert(sorted.contains(sorted[i]));
        let k = choose|k: int| 0 <= k < meetings.len() && meetings[k] == sorted[i];
        assert(covers(meetings[k], at));
    }
    if any_covers(meetings, at) {
        let i = choose|i: int| 0 <= i < meetings.len() && covers(#[trigger] meetings[i], at);
        assert(meetings.contains(meetings[i]));
        assert(sorted.contains(meetings[i]));
        let k = choose|k: int| 0 <= k < sorted.len() && sorted[k] == meetings[i];
        assert(covers(sorted[k], at));
    }
    if any_date_limited(sorted) {
        let i = choose|i: int| 0 <= i < sorted.len() && date_limited(#[trigger] sorted[i]);
        assert(sorted.contains(sorted[i]));
        let k = choose|k: int| 0 <= k < meetings.len() && meetings[k] == sorted[i];
        assert(date_limited(meetings[k]));
    }
    if any_date_limited(meetings) {
        let i = choose|i: int| 0 <= i < meetings.len() && date_limited(#[trigger] meetings[i]);
        assert(meetings.contains(meetings[i]));
        assert(sorted.contains(meetings[i]));
        let k = choose|k: int| 0 <= k < sorted.len() && sorted[k] == meetings[i];
        assert(date_limited(sorted[k]));
    }
}

/// The group that the search has for a requirement with a section to place.
proof fn lemma_group_for(
    requirements: Seq<RequirementView>,
    calendar: Option<TermCalendarView>,
    i: int,
) -> (g: int)
    requires
        problem_fault(requirements, calendar) is None,
        0 <= i < requirements.len(),
        has_place(requirements[i]),
    ensures
        0 <= g < search_groups(requirements).len(),
        search_groups(requirements)[g] == group_of(located(requirements), requirements[i]),
{
    let groups = search_groups(requirements);
    let group = group_of(located(requirements), requirements[i]);
    lemma_search_groups(requirements, calendar);
    assert(searchable_options(requirements[i]).len() > 0);
    assert(groups.contains(group));
    choose|g: int| 0 <= g < groups.len() && groups[g] == group
}

/// The requirement that a group of the search is for.
proof fn lemma_requirement_of(
    requirements: Seq<RequirementView>,
    calendar: Option<TermCalendarView>,
    g: int,
) -> (i: int)
    requires
        problem_fault(requirements, calendar) is None,
        0 <= g < search_groups(requirements).len(),
    ensures
        0 <= i < requirements.len(),
        has_place(requirements[i]),
        search_groups(requirements)[g] == group_of(located(requirements), requirements[i]),
{
    let groups = search_groups(requirements);
    lemma_search_groups(requirements, calendar);
    assert(groups.contains(groups[g]));
    choose|i: int|
        0 <= i < requirements.len() && searchable_options(#[trigger] requirements[i]).len() > 0
            && groups[g] == group_of(located(requirements), requirements[i])
}

/// What a feasible timetable has for a group: a choice of the requirement with its members.
proof fn lemma_choice_of_group(
    requirements: Seq<RequirementView>,
    calendar: Option<TermCalendarView>,
    timetable: Seq<TimeChoiceView>,
    g: int,
    option: SectionOptionView,
) -> (i: int)
    requires
        problem_fault(requirements, calendar) is None,
        feasible(problem_of(requirements, calendar), timetable),
        0 <= g < timetable.len(),
    ensures
        0 <= i < requirements.len(),
        has_place(requirements[i]),
        search_groups(requirements)[g] == group_of(located(requirements), requirements[i]),
        timetable[g].requirement_id == requirements[i].id,
        timetable[g].members.len() > 0,
        timetable[g].members.contains(option) ==> searchable_options(requirements[i]).contains(
            option,
        ) && canonical(option.meetings) == timetable[g].meetings,
{
    let all = located(requirements);
    let i = lemma_requirement_of(requirements, calendar, g);
    let choices = group_of(all, requirements[i]).choices;
    assert(choices.contains(timetable[g]));
    let c = choose|c: int| 0 <= c < choices.len() && choices[c] == timetable[g];
    lemma_members_alike(all, requirements[i], c, option);
    law_grouping_keeps_sections(all, requirements[i], option);
    if timetable[g].members.contains(option) {
        assert(choices[c].members.contains(option));
    }
    i
}

/// The search heeds dates exactly if a section that can be placed has some.
proof fn lemma_dates_matter(
    requirements: Seq<RequirementView>,
    calendar: Option<TermCalendarView>,
)
    requires
        problem_fault(requirements, calendar) is None,
    ensures
        date_sensitive(search_groups(requirements)) == dates_matter(requirements),
{
    let all = located(requirements);
    let groups = search_groups(requirements);
    if date_sensitive(groups) {
        let (g, c) = choose|g: int, c: int|
            0 <= g < groups.len() && 0 <= c < groups[g].choices.len() && any_date_limited(
                (#[trigger] groups[g].choices[c]).meetings,
            );
        let i = lemma_requirement_of(requirements, calendar, g);
        let choice = groups[g].choices[c];
        lemma_members_alike(all, requirements[i], c, choice.members[0]);
        let option = choice.members[0];
        law_grouping_keeps_sections(all, requirements[i], option);
        assert(choice.members.contains(option));
        assert(group_of(all, requirements[i]).choices[c].members.contains(option));
        lemma_canonical(option.meetings, 0);
        let options = searchable_options(requirements[i]);
        let k = choose|k: int| 0 <= k < options.len() && options[k] == option;
        assert(any_date_limited(searchable_options(requirements[i])[k].meetings));
    }
    if dates_matter(requirements) {
        let (i, k) = choose|i: int, k: int|
            0 <= i < requirements.len() && 0 <= k < searchable_options(requirements[i]).len()
                && any_date_limited((#[trigger] searchable_options(requirements[i])[k]).meetings);
        let option = searchable_options(requirements[i])[k];
        assert(searchable_options(requirements[i]).contains(option));
        let g = lemma_group_for(requirements, calendar, i);
        law_grouping_keeps_sections(all, requirements[i], option);
        let group = group_of(all, requirements[i]);
        let c = choose|c: int|
            0 <= c < group.choices.len() && (#[trigger] group.choices[c]).members.contains(option);
        lemma_canonical(option.meetings, 0);
        assert(any_date_limited(groups[g].choices[c].meetings));
    }
}

/// What one section of a requirement does not exclude, none that is grouped with it excludes.
proof fn lemma_exclusion(
    requirements: Seq<RequirementView>,
    calendar: Option<TermCalendarView>,
    i: int,
    j: int,
    a: SectionOptionView,
    x: SectionOptionView,
    b: SectionOptionView,
    y: SectionOptionView,
)
    requires
        problem_fault(requirements, calendar) is None,
        0 <= i < requirements.len(),
        0 <= j < requirements.len(),
        requirements[i].id != requirements[j].id,
        searchable_options(requirements[i]).contains(a),
        searchable_options(requirements[i]).contains(x),
        searchable_options(requirements[j]).contains(b),
        searchable_options(requirements[j]).contains(y),
        group_key(located(requirements), requirements[i].id, a) == group_key(
            located(requirements),
            requirements[i].id,
            x,
        ),
        group_key(located(requirements), requirements[j].id, b) == group_key(
            located(requirements),
            requirements[j].id,
            y,
        ),
        members_compatible(a, b),
    ensures
        members_compatible(x, y),
{
    lemma_alike(requirements, calendar, requirements[i].id, a, x, j, b);
    lemma_alike(requirements, calendar, requirements[j].id, b, y, i, x);
}

/// The section that is picked for a requirement with an id.
spec fn picked_for(
    requirements: Seq<RequirementView>,
    pick: Seq<Option<SectionOptionView>>,
    id: Seq<char>,
) -> SectionOptionView {
    pick[choose|i: int| 0 <= i < requirements.len() && (#[trigger] requirements[i]).id == id]->0
}

/// A choice of a group that has a section among its members.
spec fn choice_with(group: GroupView, option: SectionOptionView) -> TimeChoiceView {
    group.choices[choose|c: int|
        0 <= c < group.choices.len() && (#[trigger] group.choices[c]).members.contains(option)]
}

/// The choices that hold the picked sections, in the order of the search.
spec fn timetable_with(
    requirements: Seq<RequirementView>,
    pick: Seq<Option<SectionOptionView>>,
) -> Seq<TimeChoiceView> {
    let groups = search_groups(requirements);
    Seq::new(
        groups.len(),
        |g: int|
            choice_with(groups[g], picked_for(requirements, pick, groups[g].requirement_id)),
    )
}

/// The choice that holds the picked section of a group.
proof fn lemma_timetable_with(
    requirements: Seq<RequirementView>,
    calendar: Option<TermCalendarView>,
    pick: Seq<Option<SectionOptionView>>,
    g: int,
) -> (r: (int, int))
    requires
        problem_fault(requirements, calendar) is None,
        is_pick(requirements, calendar, pick),
        0 <= g < search_groups(requirements).len(),
    ensures
        0 <= r.0 < requirements.len(),
        search_groups(requirements)[g] == group_of(located(requirements), requirements[r.0]),
        pick[r.0] is Some,
        searchable_options(requirements[r.0]).contains(pick[r.0]->0),
        0 <= r.1 < search_groups(requirements)[g].choices.len(),
        timetable_with(requirements, pick)[g] == search_groups(requirements)[g].choices[r.1],
        timetable_with(requirements, pick)[g].members.contains(pick[r.0]->0),
        timetable_with(requirements, pick)[g].meetings == canonical((pick[r.0]->0).meetings),
        timetable_with(requirements, pick)[g].requirement_id == requirements[r.0].id,
{
    let all = located(requirements);
    let groups = search_groups(requirements);
    let i = lemma_requirement_of(requirements, calendar, g);
    lemma_search_groups(requirements, calendar);
    let id = groups[g].requirement_id;
    assert(id == requirements[i].id);
    let k = choose|k: int| 0 <= k < requirements.len() && (#[trigger] requirements[k]).id == id;
    assert(k == i);
    let option = pick[i]->0;
    assert(pick[i] is Some);
    assert(picked_for(requirements, pick, id) == option);
    law_grouping_keeps_sections(all, requirements[i], option);
    let group = groups[g];
    let c = choose|c: int|
        0 <= c < group.choices.len() && (#[trigger] group.choices[c]).members.contains(option);
    assert(timetable_with(requirements, pick)[g] == group.choices[c]);
    lemma_members_alike(all, requirements[i], c, option);
    (i, c)
}

/// Two choices that hold picked sections go together.
proof fn lemma_pair_with(
    requirements: Seq<RequirementView>,
    calendar: Option<TermCalendarView>,
    pick: Seq<Option<SectionOptionView>>,
    g: int,
    h: int,
)
    requires
        problem_fault(requirements, calendar) is None,
        is_pick(requirements, calendar, pick),
        0 <= g < h < search_groups(requirements).len(),
    ensures
        !choices_clash(
            calendar,
            dates_matter(requirements),
            timetable_with(requirements, pick)[g],
            timetable_with(requirements, pick)[h],
        ),
        compatible(
            timetable_with(requirements, pick)[g],
            timetable_with(requirements, pick)[h],
        ),
{
    let all = located(requirements);
    let t = timetable_with(requirements, pick);
    let dated = dates_matter(requirements);
    let (i, c) = lemma_timetable_with(requirements, calendar, pick, g);
    let (j, d) = lemma_timetable_with(requirements, calendar, pick, h);
    lemma_search_groups(requirements, calendar);
    let groups = search_groups(requirements);
    assert(groups[g].requirement_id != groups[h].requirement_id);
    let a = pick[i]->0;
    let b = pick[j]->0;
    lemma_members_clash(calendar, dated, t[g], t[h], a, b);
    if i < j {
        assert(!sections_clash(calendar, dated, a, b) && members_compatible(a, b));
    } else {
        assert(!sections_clash(calendar, dated, b, a) && members_compatible(b, a));
    }
    assert forall|k: int, l: int|
        0 <= k < t[g].members.len() && 0 <= l < t[h].members.len() implies #[trigger]
        members_compatible(t[g].members[k], t[h].members[l]) by {
        let x = t[g].members[k];
        let y = t[h].members[l];
        assert(t[g].members.contains(x) && t[h].members.contains(y));
        lemma_members_alike(all, requirements[i], c, x);
        lemma_members_alike(all, requirements[i], c, a);
        lemma_members_alike(all, requirements[j], d, y);
        lemma_members_alike(all, requirements[j], d, b);
        law_grouping_keeps_sections(all, requirements[i], x);
        law_grouping_keeps_sections(all, requirements[j], y);
        assert(group_of(all, requirements[i]).choices[c].members.contains(x));
        assert(group_of(all, requirements[j]).choices[d].members.contains(y));
        lemma_exclusion(requirements, calendar, i, j, a, x, b, y);
    }
}

/// Every pick of sections that go together is part of a timetable that the search finds feasible:
/// each picked section is a member of the choice for its requirement, and the timetable has the
/// score of the pick.
pub proof fn law_every_pick_has_a_timetable(
    requirements: Seq<RequirementView>,
    calendar: Option<TermCalendarView>,
    pick: Seq<Option<SectionOptionView>>,
) -> (timetable: Seq<TimeChoiceView>)
    requires
        problem_fault(requirements, calendar) is None,
        is_pick(requirements, calendar, pick),
    ensures
        feasible(problem_of(requirements, calendar), timetable),
        holds_pick(requirements, timetable, pick),
        timetable_score(timetable) == pick_score(pick),
{
    let p = problem_of(requirements, calendar);
    let t = timetable_with(requirements, pick);
    lemma_dates_matter(requirements, calendar);
    assert forall|g: int| 0 <= g < t.len() implies p.groups[g].choices.contains(#[trigger] t[g]) by {
        let (i, c) = lemma_timetable_with(requirements, calendar, pick, g);
        assert(p.groups[g].choices[c] == t[g]);
    }
    assert forall|g: int, h: int|
        #![trigger t[g], t[h]]
        0 <= g < h < t.len() implies !choices_clash(p.calendar, p.dated, t[g], t[h]) && compatible(
        t[g],
        t[h],
    ) by {
        lemma_pair_with(requirements, calendar, pick, g, h);
    }
    assert forall|i: int| 0 <= i < pick.len() && (#[trigger] pick[i]) is Some implies held(
        t,
        requirements[i].id,
        pick[i]->0,
    ) by {
        let g = lemma_group_for(requirements, calendar, i);
        let (j, c) = lemma_timetable_with(requirements, calendar, pick, g);
        lemma_search_groups(requirements, calendar);
        assert(requirements[j].id == requirements[i].id);
        assert(j == i);
        assert(t[g].requirement_id == requirements[i].id);
    }
    assert(feasible(p, t));
    law_members_are_a_pick(requirements, calendar, t, pick);
    t
}

/// Whichever members are taken of the choices of a feasible timetable, they are a pick of sections
/// that go together, and it has the score of the timetable.
pub proof fn law_members_are_a_pick(
    requirements: Seq<RequirementView>,
    calendar: Option<TermCalendarView>,
    timetable: Seq<TimeChoiceView>,
    pick: Seq<Option<SectionOptionView>>,
)
    requires
        problem_fault(requirements, calendar) is None,
        feasible(problem_of(requirements, calendar), timetable),
        holds_pick(requirements, timetable, pick),
    ensures
        is_pick(requirements, calendar, pick),
        pick_score(pick) == timetable_score(timetable),
{
    let p = problem_of(requirements, calendar);
    let t = timetable;
    let dated = dates_matter(requirements);
    lemma_dates_matter(requirements, calendar);
    assert forall|i: int| 0 <= i < pick.len() && (#[trigger] pick[i]) is Some implies
        searchable_options(requirements[i]).contains(pick[i]->0) by {
        let c = lemma_held(requirements, calendar, t, pick, i);
    }
    assert forall|i: int, j: int|
        #![trigger pick[i], pick[j]]
        0 <= i < j < pick.len() && pick[i] is Some && pick[j] is Some implies !sections_clash(
        calendar,
        dated,
        pick[i]->0,
        pick[j]->0,
    ) && members_compatible(pick[i]->0, pick[j]->0) by {
        let c = lemma_held(requirements, calendar, t, pick, i);
        let d = lemma_held(requirements, calendar, t, pick, j);
        lemma_search_groups(requirements, calendar);
        assert(requirements[i].id != requirements[j].id);
        assert(c != d);
        law_members_are_interchangeable(p, t, c, d, pick[i]->0, pick[j]->0);
        if c < d {
            assert(!choices_clash(p.calendar, p.dated, t[c], t[d]));
            lemma_members_clash(calendar, dated, t[c], t[d], pick[i]->0, pick[j]->0);
        } else {
            assert(!choices_clash(p.calendar, p.dated, t[d], t[c]));
            lemma_members_clash(calendar, dated, t[d], t[c], pick[j]->0, pick[i]->0);
        }
    }
    assert forall|at: int| #[trigger] pick_occupies(pick, at) == occupied(t, at) by {
        lemma_same_minutes(requirements, calendar, t, pick, at);
    }
    assert((|at: int| pick_occupies(pick, at)) =~= (|at: int| occupied(t, at)));
}

/// The choice that holds a picked section.
proof fn lemma_held(
    requirements: Seq<RequirementView>,
    calendar: Option<TermCalendarView>,
    timetable: Seq<TimeChoiceView>,
    pick: Seq<Option<SectionOptionView>>,
    i: int,
) -> (c: int)
    requires
        problem_fault(requirements, calendar) is None,
        feasible(problem_of(requirements, calendar), timetable),
        holds_pick(requirements, timetable, pick),
        0 <= i < pick.len(),
        pick[i] is Some,
    ensures
        0 <= c < timetable.len(),
        timetable[c].requirement_id == requirements[i].id,
        timetable[c].members.contains(pick[i]->0),
        timetable[c].meetings == canonical((pick[i]->0).meetings),
        searchable_options(requirements[i]).contains(pick[i]->0),
{
    let t = timetable;
    let option = pick[i]->0;
    assert(held(t, requirements[i].id, option));
    let c = choose|c: int|
        0 <= c < t.len() && (#[trigger] t[c]).requirement_id == requirements[i].id
            && t[c].members.contains(option);
    let j = lemma_choice_of_group(requirements, calendar, t, c, option);
    lemma_search_groups(requirements, calendar);
    assert(requirements[j].id == requirements[i].id);
    assert(j == i);
    c
}

/// A timetable and its members take up the same minutes.
proof fn lemma_same_minutes(
    requirements: Seq<RequirementView>,
    calendar: Option<TermCalendarView>,
    timetable: Seq<TimeChoiceView>,
    pick: Seq<Option<SectionOptionView>>,
    at: int,
)
    requires
        problem_fault(requirements, calendar) is None,
        feasible(problem_of(requirements, calendar), timetable),
        holds_pick(requirements, timetable, pick),
    ensures
        pick_occupies(pick, at) == occupied(timetable, at),
{
    let t = timetable;
    if pick_occupies(pick, at) {
        let i = choose|i: int|
            0 <= i < pick.len() && (#[trigger] pick[i]) is Some && any_covers(
                (pick[i]->0).meetings,
                at,
            );
        let c = lemma_held(requirements, calendar, t, pick, i);
        lemma_canonical((pick[i]->0).meetings, at);
        assert(any_covers(t[c].meetings, at));
    }
    if occupied(t, at) {
        let c = choose|c: int| 0 <= c < t.len() && any_covers((#[trigger] t[c]).meetings, at);
        let i = lemma_choice_of_group(requirements, calendar, t, c, t[c].members[0]);
        assert(pick[i] is Some);
        let d = lemma_held(requirements, calendar, t, pick, i);
        let j = lemma_choice_of_group(requirements, calendar, t, d, t[d].members[0]);
        lemma_search_groups(requirements, calendar);
        let groups = search_groups(requirements);
        assert(groups[c].requirement_id == requirements[i].id);
        assert(groups[d].requirement_id == requirements[j].id);
        assert(c == d);
        lemma_canonical((pick[i]->0).meetings, at);
        assert(any_covers((pick[i]->0).meetings, at));
    }
}

/// A feasible timetable has members to pick.
proof fn lemma_some_pick(
    requirements: Seq<RequirementView>,
    calendar: Option<TermCalendarView>,
    timetable: Seq<TimeChoiceView>,
) -> (pick: Seq<Option<SectionOptionView>>)
    requires
        problem_fault(requirements, calendar) is None,
        feasible(problem_of(requirements, calendar), timetable),
    ensures
        holds_pick(requirements, timetable, pick),
{
    let t = timetable;
    let pick = Seq::new(
        requirements.len(),
        |i: int|
            if has_place(requirements[i]) {
                Some(
                    choose|option: SectionOptionView| #[trigger]
                        held(t, requirements[i].id, option),
                )
            } else {
                None::<SectionOptionView>
            },
    );
    assert forall|i: int| 0 <= i < pick.len() && (#[trigger] pick[i]) is Some implies held(
        t,
        requirements[i].id,
        pick[i]->0,
    ) by {
        let g = lemma_group_for(requirements, calendar, i);
        let j = lemma_choice_of_group(requirements, calendar, t, g, t[g].members[0]);
        assert(t[g].requirement_id == requirements[i].id);
        assert(t[g].members.contains(t[g].members[0]));
        assert(held(t, requirements[i].id, t[g].members[0]));
    }
    pick
}

/// The answer of an uninterrupted search is exact over single sections: it is infeasible exactly
/// if no sections can be picked that go together. Otherwise it has the score of some pick, and no
/// pick scores better.
pub proof fn law_solution_is_exact_over_sections(
    requirements: Seq<RequirementView>,
    calendar: Option<TermCalendarView>,
)
    requires
        problem_fault(requirements, calendar) is None,
    ensures
        ({
            let s = solved(requirements, calendar)->Ok_0;
            &&& s.status == SolveStatus::Infeasible || s.status == SolveStatus::OptimalKnown
            &&& s.status == SolveStatus::Infeasible <==> forall|pick: Seq<
                Option<SectionOptionView>,
            >| !#[trigger] is_pick(requirements, calendar, pick)
            &&& s.status == SolveStatus::OptimalKnown ==> {
                &&& s.score is Some
                &&& forall|pick: Seq<Option<SectionOptionView>>| #[trigger]
                    is_pick(requirements, calendar, pick) ==> !better(
                        pick_score(pick),
                        s.score->0,
                    )
                &&& exists|pick: Seq<Option<SectionOptionView>>| #[trigger]
                    is_pick(requirements, calendar, pick) && pick_score(pick) == s.score->0
                        && holds_pick(requirements, s.choices, pick)
            }
        }),
{
    let p = problem_of(requirements, calendar);
    let notices = search_notices(requirements);
    let s = solution_of(p, notices);
    law_solution_is_optimal(p, notices);
    assert forall|pick: Seq<Option<SectionOptionView>>| #[trigger]
        is_pick(requirements, calendar, pick) implies s.status == SolveStatus::OptimalKnown
        && !better(pick_score(pick), s.score->0) by {
        let t = law_every_pick_has_a_timetable(requirements, calendar, pick);
        assert(feasible(p, t));
    }
    if s.status == SolveStatus::OptimalKnown {
        let t = choose|t: Seq<TimeChoiceView>| #[trigger]
            feasible(p, t) && timetable_score(t) == s.score->0 && arranged(t) == s.alternatives[0];
        let pick = lemma_some_pick(requirements, calendar, t);
        law_members_are_a_pick(requirements, calendar, t, pick);
        lemma_arranged_holds(requirements, t, pick);
        assert(is_pick(requirements, calendar, pick));
    }
}

/// The order of its choices does not matter to what a timetable holds.
proof fn lemma_arranged_holds(
    requirements: Seq<RequirementView>,
    timetable: Seq<TimeChoiceView>,
    pick: Seq<Option<SectionOptionView>>,
)
    ensures
        holds_pick(requirements, timetable, pick) <==> holds_pick(
            requirements,
            arranged(timetable),
            pick,
        ),
{
    let t = timetable;
    let u = arranged(timetable);
    lemma_sorted_elements(t, choice_le());
    assert forall|id: Seq<char>, option: SectionOptionView| #[trigger]
        held(t, id, option) <==> held(u, id, option) by {
        if held(t, id, option) {
            let c = choose|c: int|
                0 <= c < t.len() && (#[trigger] t[c]).requirement_id == id
                    && t[c].members.contains(option);
            assert(t.contains(t[c]));
            assert(u.contains(t[c]));
            let d = choose|d: int| 0 <= d < u.len() && u[d] == t[c];
            assert(u[d].members.contains(option));
        }
        if held(u, id, option) {
            let c = choose|c: int|
                0 <= c < u.len() && (#[trigger] u[c]).requirement_id == id
                    && u[c].members.contains(option);
            assert(u.contains(u[c]));
            assert(t.contains(u[c]));
            let d = choose|d: int| 0 <= d < t.len() && t[d] == u[c];
            assert(t[d].members.contains(option));
        }
    }
    if holds_pick(requirements, u, pick) {
        assert forall|i: int| 0 <= i < pick.len() && (#[trigger] pick[i]) is Some implies held(
            t,
            requirements[i].id,
            pick[i]->0,
        ) by {
            assert(held(u, requirements[i].id, pick[i]->0));
        }
    }
}

/// The alternatives list the best picks of sections: whichever members are taken of an alternative,
/// they are a pick with the best score, and unless alternatives were left out, every such pick is
/// among the members of one.
pub proof fn law_alternatives_are_exact_over_sections(
    requirements: Seq<RequirementView>,
    calendar: Option<TermCalendarView>,
    pick: Seq<Option<SectionOptionView>>,
)
    requires
        problem_fault(requirements, calendar) is None,
        solved(requirements, calendar)->Ok_0.status == SolveStatus::OptimalKnown,
    ensures
        ({
            let s = solved(requirements, calendar)->Ok_0;
            let listed = exists|a: int|
                0 <= a < s.alternatives.len() && holds_pick(
                    requirements,
                    #[trigger] s.alternatives[a],
                    pick,
                );
            let best = is_pick(requirements, calendar, pick) && pick_score(pick) == s.score->0;
            &&& listed ==> best
            &&& best && !s.alternatives_truncated ==> listed
        }),
{
    let p = problem_of(requirements, calendar);
    let notices = search_notices(requirements);
    let s = solution_of(p, notices);
    law_solution_is_optimal(p, notices);
    if exists|a: int|
        0 <= a < s.alternatives.len() && holds_pick(
            requirements,
            #[trigger] s.alternatives[a],
            pick,
        ) {
        let a = choose|a: int|
            0 <= a < s.alternatives.len() && holds_pick(
                requirements,
                #[trigger] s.alternatives[a],
                pick,
            );
        let t = choose|t: Seq<TimeChoiceView>| #[trigger]
            feasible(p, t) && timetable_score(t) == s.score->0 && arranged(t) == s.alternatives[a];
        lemma_arranged_holds(requirements, t, pick);
        law_members_are_a_pick(requirements, calendar, t, pick);
    }
    if is_pick(requirements, calendar, pick) && pick_score(pick) == s.score->0
        && !s.alternatives_truncated {
        let t = law_every_pick_has_a_timetable(requirements, calendar, pick);
        law_alternatives_are_complete(p, notices, t);
        lemma_arranged_holds(requirements, t, pick);
        let a = choose|a: int| 0 <= a < s.alternatives.len() && s.alternatives[a] == arranged(t);
        assert(holds_pick(requirements, s.alternatives[a], pick));
    }
}

/// The notices of a solution tell those of the search from the two that it adds itself.
proof fn lemma_final_notices(requirements: Seq<RequirementView>, pe: bool, truncated: bool)
    ensures
        final_notices(search_notices(requirements), pe, truncated).contains(pe_notice()) <==> pe,
        final_notices(search_notices(requirements), pe, truncated).contains(truncated_notice())
            <==> truncated,
{
    reveal_strlit(
        "selected bounded PE meetings use a combined weekly template for score, and date bounds constrain conflicts and calendar export",
    );
    reveal_strlit(
        "only the first 1000 equally optimal timetables are listed; the others are omitted",
    );
    let notices = search_notices(requirements);
    if notices.contains(pe_notice()) {
        lemma_notice_has_colon(requirements, pe_notice());
    }
    if notices.contains(truncated_notice()) {
        lemma_notice_has_colon(requirements, truncated_notice());
    }
    assert(pe_notice()[0] != truncated_notice()[0]);
    let first = if pe {
        seq![pe_notice()]
    } else {
        Seq::empty()
    };
    let second = if truncated {
        seq![truncated_notice()]
    } else {
        Seq::empty()
    };
    if pe {
        assert(first[0] == pe_notice());
    }
    if truncated {
        assert(second[0] == truncated_notice());
    }
    let more = first + second;
    lemma_distinct_ascending::<String>(notices + more);
    lemma_sum_contains(notices, more, pe_notice());
    lemma_sum_contains(notices, more, truncated_notice());
    lemma_sum_contains(first, second, pe_notice());
    lemma_sum_contains(first, second, truncated_notice());
}

/// A solution mentions physical education exactly if it has chosen a section of such a requirement.
pub proof fn law_pe_notice(
    requirements: Seq<RequirementView>,
    calendar: Option<TermCalendarView>,
)
    requires
        problem_fault(requirements, calendar) is None,
    ensures
        ({
            let s = solved(requirements, calendar)->Ok_0;
            s.unresolved.contains(pe_notice()) <==> exists|i: int, c: int|
                0 <= i < requirements.len() && 0 <= c < s.choices.len() && pe_kind(
                    (#[trigger] requirements[i]).kind,
                ) && (#[trigger] s.choices[c]).requirement_id == requirements[i].id
        }),
{
    let p = problem_of(requirements, calendar);
    let notices = search_notices(requirements);
    let s = solution_of(p, notices);
    let pe = chooses_bounded_pe(p.groups, s.choices);
    law_solution_is_optimal(p, notices);
    lemma_final_notices(requirements, pe, s.alternatives_truncated);
    lemma_final_notices(requirements, false, false);
    if s.status == SolveStatus::OptimalKnown {
        let t = choose|t: Seq<TimeChoiceView>| #[trigger]
            feasible(p, t) && timetable_score(t) == s.score->0 && arranged(t) == s.alternatives[0];
        lemma_sorted_elements(t, choice_le());
        lemma_search_groups(requirements, calendar);
        if pe {
            let (c, g) = choose|c: int, g: int|
                0 <= c < s.choices.len() && 0 <= g < p.groups.len() && (
                #[trigger] p.groups[g]).requirement_id == (#[trigger] s.choices[c]).requirement_id
                    && bounded_pe(p.groups[g].kind, s.choices[c].meetings);
            let i = lemma_requirement_of(requirements, calendar, g);
            assert(pe_kind(requirements[i].kind));
        }
        if exists|i: int, c: int|
            0 <= i < requirements.len() && 0 <= c < s.choices.len() && pe_kind(
                (#[trigger] requirements[i]).kind,
            ) && (#[trigger] s.choices[c]).requirement_id == requirements[i].id {
            let (i, c) = choose|i: int, c: int|
                0 <= i < requirements.len() && 0 <= c < s.choices.len() && pe_kind(
                    (#[trigger] requirements[i]).kind,
                ) && (#[trigger] s.choices[c]).requirement_id == requirements[i].id;
            let choice = s.choices[c];
            assert(s.choices.contains(choice));
            assert(t.contains(choice));
            let g = choose|g: int| 0 <= g < t.len() && t[g] == choice;
            let option = choice.members[0];
            let j = lemma_choice_of_group(requirements, calendar, t, g, option);
            assert(requirements[i].id == requirements[j].id);
            assert(i == j);
            assert(choice.members.contains(option));
            lemma_searchable(requirements[j], option);
            assert(bounded_pe(requirements[j].kind, choice.meetings));
            assert(p.groups[g].requirement_id == choice.requirement_id);
        }
    }
}

/// A solution mentions timetables that it does not list exactly if there are some: it lists fewer
/// than have the best score.
pub proof fn law_truncation_notice(
    requirements: Seq<RequirementView>,
    calendar: Option<TermCalendarView>,
)
    requires
        problem_fault(requirements, calendar) is None,
    ensures
        ({
            let s = solved(requirements, calendar)->Ok_0;
            let best = optima(timetables(problem_of(requirements, calendar)));
            &&& s.unresolved.contains(truncated_notice()) <==> s.alternatives_truncated
            &&& s.alternatives_truncated <==> s.alternatives.len() < best.len()
        }),
{
    let p = problem_of(requirements, calendar);
    let s = solution_of(p, search_notices(requirements));
    let pe = chooses_bounded_pe(p.groups, s.choices);
    lemma_final_notices(requirements, pe, s.alternatives_truncated);
    lemma_final_notices(requirements, false, false);
}

} // verus!
