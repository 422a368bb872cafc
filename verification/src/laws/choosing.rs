//! What is searched for the selected subjects, and which sections a timetable stands for.
use std::sync::atomic::AtomicBool;
use vstd::prelude::*;
use crate::app::{
    actual_sections, agree, chosen_for, chosen_for_all, course_notices, exclusion, filled,
    first_unfilled, gathered, member_with, optimize, owner_of, prefixed, requirement_with,
    search_answer, section_for, timestamped_export_path,
};
use crate::determinism::lemma_sum_contains;
use crate::error::Error;
use crate::laws::notices::{lemma_tells_all, tells_all};
use crate::laws::timetable::{is_best, lemma_solution_is_best, lemma_still_best};
use crate::model::{
    ChosenSection, ChosenSectionView, CourseView, Dataset, DatasetView, RequirementView,
    SectionOptionView, Solution, SolutionView, TimeChoiceView,
};
use crate::order::{
    distinct_ascending, keys_of, lemma_distinct_ascending, lemma_lookup, lookup, OrderedMap,
};
use crate::text::decimal;

verus! {

/// A subject of a dataset has a requirement.
pub open spec fn asks_for(dataset: DatasetView, id: Seq<char>, requirement: RequirementView) -> bool {
    lookup(dataset.courses, id) is Some && lookup(dataset.courses, id)->0.requirements.contains(
        requirement,
    )
}

/// What is said of a subject: each notice of its course, under its id, and that it has no
/// components where it has none.
pub open spec fn is_said(dataset: DatasetView, id: Seq<char>, notice: Seq<char>) -> bool {
    match lookup(dataset.courses, id) {
        None => false,
        Some(course) => {
            ||| exists|k: int|
                0 <= k < course.notices.len() && notice == id + ": "@ + #[trigger] course.notices[k]
            ||| course.requirements.len() == 0 && notice == id + ": no known meeting components"@
        },
    }
}

/// Something is said of one of some subjects.
pub open spec fn is_said_of_any(
    dataset: DatasetView,
    ids: Seq<Seq<char>>,
    notice: Seq<char>,
) -> bool {
    exists|id: Seq<char>| #[trigger] ids.contains(id) && is_said(dataset, id, notice)
}

proof fn lemma_course_notices(id: Seq<char>, course: CourseView, notice: Seq<char>)
    ensures
        course_notices(id, course).contains(notice) <==> {
            ||| exists|k: int|
                0 <= k < course.notices.len() && notice == id + ": "@ + #[trigger] course.notices[k]
            ||| course.requirements.len() == 0 && notice == id + ": no known meeting components"@
        },
{
    let own = prefixed(id, course.notices);
    let more: Seq<Seq<char>> = if course.requirements.len() == 0 {
        seq![id + ": no known meeting components"@]
    } else {
        Seq::empty()
    };
    lemma_sum_contains(own, more, notice);
    if own.contains(notice) {
        let k = choose|k: int| 0 <= k < own.len() && own[k] == notice;
        assert(notice == id + ": "@ + course.notices[k]);
    }
    if exists|k: int|
        0 <= k < course.notices.len() && notice == id + ": "@ + #[trigger] course.notices[k] {
        let k = choose|k: int|
            0 <= k < course.notices.len() && notice == id + ": "@ + #[trigger] course.notices[k];
        assert(own[k] == notice);
    }
    if course.requirements.len() == 0 {
        assert(more[0] == id + ": no known meeting components"@);
        if more.contains(notice) {
            let k = choose|k: int| 0 <= k < more.len() && more[k] == notice;
            assert(k == 0);
        }
    }
}

proof fn lemma_gathered(dataset: DatasetView, ids: Seq<Seq<char>>)
    ensures
        gathered(dataset, ids) is Ok <==> forall|k: int|
            0 <= k < ids.len() ==> lookup(dataset.courses, #[trigger] ids[k]) is Some,
    decreases ids.len(),
{
    if ids.len() > 0 {
        let rest = ids.drop_last();
        lemma_gathered(dataset, rest);
        assert(ids[ids.len() - 1] == ids.last());
        assert(forall|k: int| 0 <= k < rest.len() ==> #[trigger] rest[k] == ids[k]);
        if gathered(dataset, ids) is Ok {
            assert forall|k: int| 0 <= k < ids.len() implies lookup(
                dataset.courses,
                #[trigger] ids[k],
            ) is Some by {
                if k < rest.len() {
                    assert(lookup(dataset.courses, rest[k]) is Some);
                }
            }
        }
        if forall|k: int|
            0 <= k < ids.len() ==> lookup(dataset.courses, #[trigger] ids[k]) is Some {
            assert forall|k: int| 0 <= k < rest.len() implies lookup(
                dataset.courses,
                #[trigger] rest[k],
            ) is Some by {
                assert(lookup(dataset.courses, ids[k]) is Some);
            }
            assert(lookup(dataset.courses, ids[ids.len() - 1]) is Some);
        }
    }
}

proof fn lemma_gathered_requirements(
    dataset: DatasetView,
    ids: Seq<Seq<char>>,
    requirement: RequirementView,
)
    requires
        gathered(dataset, ids) is Ok,
    ensures
        (gathered(dataset, ids)->Ok_0).0.contains(requirement) <==> exists|k: int|
            0 <= k < ids.len() && asks_for(dataset, #[trigger] ids[k], requirement),
    decreases ids.len(),
{
    if ids.len() > 0 {
        let rest = ids.drop_last();
        let at = ids.len() - 1;
        lemma_gathered_requirements(dataset, rest, requirement);
        let known = (gathered(dataset, rest)->Ok_0).0;
        let own = lookup(dataset.courses, ids.last())->0.requirements;
        lemma_sum_contains(known, own, requirement);
        assert(ids[at] == ids.last());
        assert(forall|k: int| 0 <= k < rest.len() ==> #[trigger] rest[k] == ids[k]);
        if known.contains(requirement) {
            let k = choose|k: int|
                0 <= k < rest.len() && asks_for(dataset, #[trigger] rest[k], requirement);
            assert(asks_for(dataset, ids[k], requirement));
        }
        if own.contains(requirement) {
            assert(asks_for(dataset, ids[at], requirement));
        }
        if exists|k: int| 0 <= k < ids.len() && asks_for(dataset, #[trigger] ids[k], requirement) {
            let k = choose|k: int|
                0 <= k < ids.len() && asks_for(dataset, #[trigger] ids[k], requirement);
            if k < at {
                assert(asks_for(dataset, rest[k], requirement));
            }
        }
    }
}

proof fn lemma_gathered_notices(dataset: DatasetView, ids: Seq<Seq<char>>, notice: Seq<char>)
    requires
        gathered(dataset, ids) is Ok,
    ensures
        (gathered(dataset, ids)->Ok_0).1.contains(notice) <==> dataset.notices.contains(notice)
            || exists|k: int| 0 <= k < ids.len() && is_said(dataset, #[trigger] ids[k], notice),
    decreases ids.len(),
{
    if ids.len() > 0 {
        let rest = ids.drop_last();
        let at = ids.len() - 1;
        lemma_gathered_notices(dataset, rest, notice);
        let known = (gathered(dataset, rest)->Ok_0).1;
        let course = lookup(dataset.courses, ids.last())->0;
        let own = course_notices(ids.last(), course);
        lemma_course_notices(ids.last(), course, notice);
        lemma_sum_contains(known, own, notice);
        assert(ids[at] == ids.last());
        assert(forall|k: int| 0 <= k < rest.len() ==> #[trigger] rest[k] == ids[k]);
        if exists|k: int| 0 <= k < rest.len() && is_said(dataset, #[trigger] rest[k], notice) {
            let k = choose|k: int|
                0 <= k < rest.len() && is_said(dataset, #[trigger] rest[k], notice);
            assert(is_said(dataset, ids[k], notice));
        }
        if own.contains(notice) {
            assert(is_said(dataset, ids[at], notice));
        }
        if exists|k: int| 0 <= k < ids.len() && is_said(dataset, #[trigger] ids[k], notice) {
            let k = choose|k: int| 0 <= k < ids.len() && is_said(dataset, #[trigger] ids[k], notice);
            if k < at {
                assert(is_said(dataset, rest[k], notice));
            }
        }
    }
}

/// The answer for the selected subjects is the best timetable for all their requirements and no
/// others. It repeats what the catalog and the courses of these subjects say.
pub proof fn law_selected_subjects_are_searched(
    dataset: &Dataset,
    selected: &[String],
    cancel: Option<&AtomicBool>,
    r: Result<Solution, Error>,
) -> (requirements: Seq<RequirementView>)
    requires
        call_ensures(optimize, (dataset, selected, cancel), r),
        cancel is None,
        r is Ok,
    ensures
        forall|id: Seq<char>| #[trigger]
            selected.deep_view().contains(id) ==> lookup(dataset.deep_view().courses, id) is Some,
        forall|requirement: RequirementView| #[trigger]
            requirements.contains(requirement) <==> exists|id: Seq<char>| #[trigger]
                selected.deep_view().contains(id) && asks_for(dataset.deep_view(), id, requirement),
        is_best(requirements, dataset.deep_view().calendar, (r->Ok_0).deep_view()),
        forall|notice: Seq<char>|
            dataset.deep_view().notices.contains(notice) || (exists|id: Seq<char>| #[trigger]
                selected.deep_view().contains(id) && is_said(dataset.deep_view(), id, notice))
                ==> #[trigger] (r->Ok_0).deep_view().unresolved.contains(notice),
        exists|found: SolutionView| #[trigger]
            tells_all(requirements, found) && forall|notice: Seq<char>| #[trigger]
                (r->Ok_0).deep_view().unresolved.contains(notice) <==> (
                found.unresolved.contains(notice) || dataset.deep_view().notices.contains(notice)
                    || is_said_of_any(dataset.deep_view(), selected.deep_view(), notice)),
{
    let view = dataset.deep_view();
    let ids = distinct_ascending::<String>(selected.deep_view());
    let (requirements, notices) = gathered(view, ids)->Ok_0;
    let solution = search_answer(requirements, view.calendar)->Ok_0;
    lemma_distinct_ascending::<String>(selected.deep_view());
    lemma_gathered(view, ids);
    assert forall|id: Seq<char>| #[trigger] selected.deep_view().contains(id) implies lookup(
        view.courses,
        id,
    ) is Some by {
        assert(ids.contains(id));
        let k = choose|k: int| 0 <= k < ids.len() && ids[k] == id;
        assert(lookup(view.courses, ids[k]) is Some);
    }
    assert forall|requirement: RequirementView| #[trigger]
        requirements.contains(requirement) <==> exists|id: Seq<char>| #[trigger]
            selected.deep_view().contains(id) && asks_for(view, id, requirement) by {
        lemma_gathered_requirements(view, ids, requirement);
        if requirements.contains(requirement) {
            let k = choose|k: int|
                0 <= k < ids.len() && asks_for(view, #[trigger] ids[k], requirement);
            assert(ids.contains(ids[k]));
            assert(selected.deep_view().contains(ids[k]));
        }
        if exists|id: Seq<char>| #[trigger]
            selected.deep_view().contains(id) && asks_for(view, id, requirement) {
            let id = choose|id: Seq<char>| #[trigger]
                selected.deep_view().contains(id) && asks_for(view, id, requirement);
            assert(ids.contains(id));
            let k = choose|k: int| 0 <= k < ids.len() && ids[k] == id;
            assert(asks_for(view, ids[k], requirement));
        }
    }
    lemma_solution_is_best(requirements, view.calendar);
    let all = solution.unresolved + notices;
    lemma_still_best(requirements, view.calendar, solution, distinct_ascending::<String>(all));
    lemma_distinct_ascending::<String>(all);
    assert forall|notice: Seq<char>|
        dataset.deep_view().notices.contains(notice) || (exists|id: Seq<char>| #[trigger]
            selected.deep_view().contains(id) && is_said(view, id, notice)) implies #[trigger] (
    r->Ok_0).deep_view().unresolved.contains(notice) by {
        lemma_gathered_notices(view, ids, notice);
        lemma_sum_contains(solution.unresolved, notices, notice);
        if exists|id: Seq<char>| #[trigger]
            selected.deep_view().contains(id) && is_said(view, id, notice) {
            let id = choose|id: Seq<char>| #[trigger]
                selected.deep_view().contains(id) && is_said(view, id, notice);
            assert(ids.contains(id));
            let k = choose|k: int| 0 <= k < ids.len() && ids[k] == id;
            assert(is_said(view, ids[k], notice));
        }
        assert(all.contains(notice));
    }
    lemma_tells_all(requirements, view.calendar);
    assert(tells_all(requirements, solution));
    assert forall|notice: Seq<char>| #[trigger]
        (r->Ok_0).deep_view().unresolved.contains(notice) <==> (solution.unresolved.contains(notice)
            || view.notices.contains(notice) || is_said_of_any(
            view,
            selected.deep_view(),
            notice,
        )) by {
        lemma_gathered_notices(view, ids, notice);
        lemma_sum_contains(solution.unresolved, notices, notice);
        if exists|k: int| 0 <= k < ids.len() && is_said(view, #[trigger] ids[k], notice) {
            let k = choose|k: int| 0 <= k < ids.len() && is_said(view, #[trigger] ids[k], notice);
            assert(ids.contains(ids[k]));
            assert(selected.deep_view().contains(ids[k]));
        }
        if is_said_of_any(view, selected.deep_view(), notice) {
            let id = choose|id: Seq<char>| #[trigger]
                selected.deep_view().contains(id) && is_said(view, id, notice);
            assert(ids.contains(id));
            let k = choose|k: int| 0 <= k < ids.len() && ids[k] == id;
            assert(is_said(view, ids[k], notice));
        }
        assert(all.contains(notice) <==> (r->Ok_0).deep_view().unresolved.contains(notice));
    }
    requirements
}

/// A section is the one that stands for a choice: the member with the wanted id, or the first where
/// none is wanted.
pub open spec fn is_wanted(
    choice: TimeChoiceView,
    members: Seq<(Seq<char>, Seq<char>)>,
    section: SectionOptionView,
) -> bool {
    &&& choice.members.contains(section)
    &&& match lookup(members, choice.requirement_id) {
        Some(id) => section.id == id,
        None => section == choice.members[0],
    }
}

/// A course has a requirement of an id and a kind.
pub open spec fn is_owner(
    courses: Seq<(Seq<char>, CourseView)>,
    requirement_id: Seq<char>,
    course_id: Seq<char>,
    title: Seq<char>,
    kind: Seq<char>,
) -> bool {
    exists|c: int, k: int|
        0 <= c < courses.len() && 0 <= k < courses[c].1.requirements.len() && courses[c].1.id
            == course_id && courses[c].1.title == title && (
        #[trigger] courses[c].1.requirements[k]).id == requirement_id
            && courses[c].1.requirements[k].kind == kind
}

proof fn lemma_member_with(members: Seq<SectionOptionView>, id: Seq<char>)
    ensures
        member_with(members, id) is Some ==> members.contains(member_with(members, id)->0)
            && member_with(members, id)->0.id == id,
        member_with(members, id) is None <==> forall|k: int|
            0 <= k < members.len() ==> (#[trigger] members[k]).id != id,
    decreases members.len(),
{
    if members.len() > 0 {
        let rest = members.drop_first();
        lemma_member_with(rest, id);
        assert(forall|k: int| 0 <= k < rest.len() ==> #[trigger] rest[k] == members[k + 1]);
        if members[0].id == id {
            assert(members.contains(members[0]));
        } else if member_with(members, id) is Some {
            let k = choose|k: int| 0 <= k < rest.len() && rest[k] == member_with(members, id)->0;
            assert(members[k + 1] == member_with(members, id)->0);
        } else {
            assert forall|k: int| 0 <= k < members.len() implies (#[trigger] members[k]).id != id by {
                if k > 0 {
                    assert(rest[k - 1].id != id);
                }
            }
        }
        if forall|k: int| 0 <= k < members.len() ==> (#[trigger] members[k]).id != id {
            assert(members[0].id != id);
            assert forall|k: int| 0 <= k < rest.len() implies (#[trigger] rest[k]).id != id by {
                assert(members[k + 1].id != id);
            }
        }
    }
}

proof fn lemma_requirement_with(requirements: Seq<RequirementView>, id: Seq<char>)
    requires
        requirement_with(requirements, id) is Some,
    ensures
        requirement_with(requirements, id)->0.id == id,
        exists|k: int|
            0 <= k < requirements.len() && #[trigger] requirements[k] == requirement_with(
                requirements,
                id,
            )->0,
    decreases requirements.len(),
{
    if requirements[0].id == id {
        assert(requirements[0] == requirement_with(requirements, id)->0);
    } else {
        let rest = requirements.drop_first();
        lemma_requirement_with(rest, id);
        let k = choose|k: int|
            0 <= k < rest.len() && #[trigger] rest[k] == requirement_with(rest, id)->0;
        assert(requirements[k + 1] == rest[k]);
    }
}

proof fn lemma_owner(courses: Seq<(Seq<char>, CourseView)>, id: Seq<char>)
    requires
        owner_of(courses, id) is Some,
    ensures
        is_owner(
            courses,
            id,
            (owner_of(courses, id)->0).0.id,
            (owner_of(courses, id)->0).0.title,
            (owner_of(courses, id)->0).1.kind,
        ),
    decreases courses.len(),
{
    let (course, requirement) = owner_of(courses, id)->0;
    match requirement_with(courses[0].1.requirements, id) {
        Some(found) => {
            let own = courses[0].1.requirements;
            lemma_requirement_with(own, id);
            let k = choose|k: int|
                0 <= k < own.len() && #[trigger] own[k] == requirement_with(own, id)->0;
            assert(courses[0].1.requirements[k].id == id);
        },
        None => {
            let rest = courses.drop_first();
            lemma_owner(rest, id);
            let (c, k) = choose|c: int, k: int|
                0 <= c < rest.len() && 0 <= k < rest[c].1.requirements.len() && rest[c].1.id
                    == course.id && rest[c].1.title == course.title && (
                #[trigger] rest[c].1.requirements[k]).id == id && rest[c].1.requirements[k].kind
                    == requirement.kind;
            assert(courses[c + 1] == rest[c]);
            assert(courses[c + 1].1.requirements[k].id == id);
        },
    }
}

pub(crate) proof fn lemma_chosen_for_all(
    courses: Seq<(Seq<char>, CourseView)>,
    choices: Seq<TimeChoiceView>,
    members: Seq<(Seq<char>, Seq<char>)>,
)
    requires
        chosen_for_all(courses, choices, members) is Ok,
    ensures
        ({
            let chosen = chosen_for_all(courses, choices, members)->Ok_0;
            &&& chosen.len() == choices.len()
            &&& forall|i: int|
                0 <= i < choices.len() ==> stands_for_choice(
                    courses,
                    members,
                    #[trigger] choices[i],
                    chosen[i],
                )
        }),
    decreases choices.len(),
{
    if choices.len() > 0 {
        let rest = choices.drop_last();
        let choice = choices.last();
        lemma_chosen_for_all(courses, rest, members);
        let section = section_for(choice, members)->Ok_0;
        lemma_owner(courses, choice.requirement_id);
        match lookup(members, choice.requirement_id) {
            Some(id) => {
                lemma_member_with(choice.members, id);
            },
            None => {
                assert(choice.members.contains(choice.members[0]));
            },
        }
        assert(is_wanted(choice, members, section));
        let chosen = chosen_for_all(courses, choices, members)->Ok_0;
        let known = chosen_for_all(courses, rest, members)->Ok_0;
        assert forall|i: int| 0 <= i < choices.len() implies stands_for_choice(
            courses,
            members,
            #[trigger] choices[i],
            chosen[i],
        ) by {
            if i < rest.len() {
                assert(rest[i] == choices[i]);
                assert(known[i] == chosen[i]);
            }
        }
    }
}

/// A chosen section is the one that stands for a choice, with its course and its kind.
pub open spec fn stands_for_choice(
    courses: Seq<(Seq<char>, CourseView)>,
    members: Seq<(Seq<char>, Seq<char>)>,
    choice: TimeChoiceView,
    chosen: ChosenSectionView,
) -> bool {
    &&& is_wanted(choice, members, chosen.section)
    &&& is_owner(
        courses,
        choice.requirement_id,
        chosen.course_id,
        chosen.course_title,
        chosen.kind,
    )
}

proof fn lemma_exclusion(chosen: Seq<ChosenSectionView>, i: int, j: int)
    requires
        0 <= i < j,
    ensures
        exclusion(chosen, i, j) is None <==> forall|a: int, b: int|
            #![trigger chosen[a], chosen[b]]
            (i < a < b < chosen.len() || (i == a && j <= b < chosen.len())) ==> agree(
                chosen[a],
                chosen[b],
            ),
    decreases chosen.len() - i, chosen.len() - j,
{
    if i >= chosen.len() {
    } else if j >= chosen.len() {
        lemma_exclusion(chosen, i + 1, i + 2);
    } else if !agree(chosen[i], chosen[j]) {
    } else {
        lemma_exclusion(chosen, i, j + 1);
    }
}

proof fn lemma_first_unfilled(choices: Seq<TimeChoiceView>, ids: Seq<Seq<char>>)
    ensures
        first_unfilled(choices, ids) is None <==> forall|k: int|
            0 <= k < ids.len() ==> filled(choices).contains(#[trigger] ids[k]),
    decreases ids.len(),
{
    if ids.len() > 0 {
        let rest = ids.drop_first();
        lemma_first_unfilled(choices, rest);
        assert(forall|k: int| 0 <= k < rest.len() ==> #[trigger] rest[k] == ids[k + 1]);
        if first_unfilled(choices, ids) is None {
            assert forall|k: int| 0 <= k < ids.len() implies filled(choices).contains(
                #[trigger] ids[k],
            ) by {
                if k > 0 {
                    assert(filled(choices).contains(rest[k - 1]));
                }
            }
        }
        if forall|k: int| 0 <= k < ids.len() ==> filled(choices).contains(#[trigger] ids[k]) {
            assert(filled(choices).contains(ids[0]));
            assert forall|k: int| 0 <= k < rest.len() implies filled(choices).contains(
                #[trigger] rest[k],
            ) by {
                assert(filled(choices).contains(ids[k + 1]));
            }
        }
    }
}

/// The sections of a timetable stand for its choices one by one: the wanted members where members
/// are wanted, each of a requirement that was chosen, and no two that exclude each other. There are
/// none of what is no timetable.
pub proof fn law_sections_stand_for_choices(
    dataset: &Dataset,
    solution: &Solution,
    members: &OrderedMap<String, String>,
    r: Result<Vec<ChosenSection>, Error>,
)
    requires
        call_ensures(actual_sections, (dataset, solution, members), r),
        r is Ok,
    ensures
        ({
            let chosen = (r->Ok_0).deep_view();
            let choices = solution.deep_view().choices;
            &&& solution.deep_view().status is OptimalKnown
            &&& chosen.len() == choices.len()
            &&& forall|i: int|
                0 <= i < choices.len() ==> stands_for_choice(
                    dataset.deep_view().courses,
                    members.deep_view(),
                    #[trigger] choices[i],
                    chosen[i],
                )
            &&& forall|i: int, j: int|
                #![trigger chosen[i], chosen[j]]
                0 <= i < j < chosen.len() ==> !chosen[i].section.incompatible_with.contains(
                    chosen[j].section.id,
                ) && !chosen[j].section.incompatible_with.contains(chosen[i].section.id)
            &&& forall|id: Seq<char>|
                #![trigger lookup(members.deep_view(), id)]
                lookup(members.deep_view(), id) is Some ==> exists|i: int|
                    0 <= i < choices.len() && (#[trigger] choices[i]).requirement_id == id
        }),
{
    let chosen = (r->Ok_0).deep_view();
    let choices = solution.deep_view().choices;
    let wanted = members.deep_view();
    lemma_chosen_for_all(dataset.deep_view().courses, choices, wanted);
    lemma_exclusion(chosen, 0, 1);
    lemma_first_unfilled(choices, keys_of(wanted));
    assert forall|i: int, j: int|
        #![trigger chosen[i], chosen[j]]
        0 <= i < j < chosen.len() implies agree(chosen[i], chosen[j]) by {}
    assert forall|id: Seq<char>|
        #![trigger lookup(wanted, id)]
        lookup(wanted, id) is Some implies exists|i: int|
        0 <= i < choices.len() && (#[trigger] choices[i]).requirement_id == id by {
        lemma_lookup(wanted, id);
        let k = choose|k: int| 0 <= k < wanted.len() && keys_of(wanted)[k] == id;
        assert(filled(choices).contains(keys_of(wanted)[k]));
        let i = choose|i: int| 0 <= i < choices.len() && filled(choices)[i] == id;
        assert(choices[i].requirement_id == id);
    }
}

/// A section can stand for a choice: a member has the wanted id, or there is a member where none is
/// wanted, and some course has its requirement.
pub open spec fn can_stand(
    courses: Seq<(Seq<char>, CourseView)>,
    members: Seq<(Seq<char>, Seq<char>)>,
    choice: TimeChoiceView,
) -> bool {
    &&& match lookup(members, choice.requirement_id) {
        Some(id) => exists|k: int|
            0 <= k < choice.members.len() && (#[trigger] choice.members[k]).id == id,
        None => choice.members.len() > 0,
    }
    &&& exists|c: int| 0 <= c < courses.len() && asks(#[trigger] courses[c], choice.requirement_id)
}

/// A course has a requirement of an id.
pub open spec fn asks(course: (Seq<char>, CourseView), id: Seq<char>) -> bool {
    exists|k: int|
        0 <= k < course.1.requirements.len() && (#[trigger] course.1.requirements[k]).id == id
}

proof fn lemma_requirement_found(requirements: Seq<RequirementView>, id: Seq<char>)
    ensures
        requirement_with(requirements, id) is Some <==> exists|k: int|
            0 <= k < requirements.len() && (#[trigger] requirements[k]).id == id,
    decreases requirements.len(),
{
    if requirements.len() > 0 && requirements[0].id != id {
        let rest = requirements.drop_first();
        lemma_requirement_found(rest, id);
        if exists|k: int| 0 <= k < rest.len() && (#[trigger] rest[k]).id == id {
            let k = choose|k: int| 0 <= k < rest.len() && (#[trigger] rest[k]).id == id;
            assert(requirements[k + 1].id == id);
        }
        if exists|k: int| 0 <= k < requirements.len() && (#[trigger] requirements[k]).id == id {
            let k = choose|k: int|
                0 <= k < requirements.len() && (#[trigger] requirements[k]).id == id;
            assert(rest[k - 1].id == id);
        }
    } else if requirements.len() > 0 {
        assert(requirements[0].id == id);
    }
}

proof fn lemma_owner_found(courses: Seq<(Seq<char>, CourseView)>, id: Seq<char>)
    ensures
        owner_of(courses, id) is Some <==> exists|c: int|
            0 <= c < courses.len() && asks(#[trigger] courses[c], id),
    decreases courses.len(),
{
    if courses.len() > 0 {
        let rest = courses.drop_first();
        lemma_owner_found(rest, id);
        lemma_requirement_found(courses[0].1.requirements, id);
        if asks(courses[0], id) {
            assert(asks(courses[0], id));
        }
        if exists|c: int| 0 <= c < rest.len() && asks(#[trigger] rest[c], id) {
            let c = choose|c: int| 0 <= c < rest.len() && asks(#[trigger] rest[c], id);
            assert(courses[c + 1] == rest[c]);
        }
        if exists|c: int| 0 <= c < courses.len() && asks(#[trigger] courses[c], id) {
            let c = choose|c: int| 0 <= c < courses.len() && asks(#[trigger] courses[c], id);
            if c > 0 {
                assert(rest[c - 1] == courses[c]);
            }
        }
    }
}

proof fn lemma_all_stand(
    courses: Seq<(Seq<char>, CourseView)>,
    choices: Seq<TimeChoiceView>,
    members: Seq<(Seq<char>, Seq<char>)>,
)
    ensures
        chosen_for_all(courses, choices, members) is Ok <==> forall|i: int|
            0 <= i < choices.len() ==> can_stand(courses, members, #[trigger] choices[i]),
    decreases choices.len(),
{
    if choices.len() > 0 {
        let rest = choices.drop_last();
        let last = choices.last();
        let at = choices.len() - 1;
        lemma_all_stand(courses, rest, members);
        lemma_owner_found(courses, last.requirement_id);
        match lookup(members, last.requirement_id) {
            Some(id) => {
                lemma_member_with(last.members, id);
            },
            None => {},
        }
        assert(can_stand(courses, members, last) <==> chosen_for(courses, last, members) is Ok);
        assert(choices[at] == last);
        assert(forall|i: int| 0 <= i < rest.len() ==> #[trigger] rest[i] == choices[i]);
        if chosen_for_all(courses, choices, members) is Ok {
            assert forall|i: int| 0 <= i < choices.len() implies can_stand(
                courses,
                members,
                #[trigger] choices[i],
            ) by {
                if i < at {
                    assert(can_stand(courses, members, rest[i]));
                }
            }
        }
        if forall|i: int|
            0 <= i < choices.len() ==> can_stand(courses, members, #[trigger] choices[i]) {
            assert forall|i: int| 0 <= i < rest.len() implies can_stand(
                courses,
                members,
                #[trigger] rest[i],
            ) by {
                assert(can_stand(courses, members, choices[i]));
            }
            assert(can_stand(courses, members, choices[at]));
        }
    }
}

/// A timetable has sections wherever each of its choices has one that can stand for it, unless a
/// member is wanted for what was not chosen or two of the sections exclude each other.
pub proof fn law_sections_stand_where_they_can(
    dataset: &Dataset,
    solution: &Solution,
    members: &OrderedMap<String, String>,
    r: Result<Vec<ChosenSection>, Error>,
)
    requires
        call_ensures(actual_sections, (dataset, solution, members), r),
        solution.deep_view().status is OptimalKnown,
        forall|i: int|
            0 <= i < solution.deep_view().choices.len() ==> can_stand(
                dataset.deep_view().courses,
                members.deep_view(),
                #[trigger] solution.deep_view().choices[i],
            ),
        forall|k: int|
            0 <= k < members.deep_view().len() ==> filled(solution.deep_view().choices).contains(
                #[trigger] keys_of(members.deep_view())[k],
            ),
    ensures
        r is Err ==> exists|i: int, j: int|
            0 <= i < j < solution.deep_view().choices.len() && #[trigger] excludes(
                chosen_for_all(
                    dataset.deep_view().courses,
                    solution.deep_view().choices,
                    members.deep_view(),
                )->Ok_0,
                i,
                j,
            ),
{
    let courses = dataset.deep_view().courses;
    let choices = solution.deep_view().choices;
    let wanted = members.deep_view();
    lemma_all_stand(courses, choices, wanted);
    lemma_first_unfilled(choices, keys_of(wanted));
    lemma_chosen_for_all(courses, choices, wanted);
    let chosen = chosen_for_all(courses, choices, wanted)->Ok_0;
    lemma_exclusion(chosen, 0, 1);
    if r is Err {
        let (a, b) = choose|a: int, b: int|
            #![trigger chosen[a], chosen[b]]
            (0 < a < b < chosen.len() || (0 == a && 1 <= b < chosen.len())) && !agree(
                chosen[a],
                chosen[b],
            );
        assert(excludes(chosen, a, b));
    }
}

/// One of two sections excludes the other.
pub open spec fn excludes(chosen: Seq<ChosenSectionView>, i: int, j: int) -> bool {
    ||| chosen[i].section.incompatible_with.contains(chosen[j].section.id)
    ||| chosen[j].section.incompatible_with.contains(chosen[i].section.id)
}

/// An export goes to the directory of its hint, under the name of the hint with a dash and the time
/// before its extension; what the hint leaves out is filled in.
pub proof fn law_export_path_keeps_the_hint(
    parent: Option<&str>,
    stem: Option<&str>,
    extension: Option<&str>,
    stamp: u64,
    r: (String, String),
)
    requires
        call_ensures(timestamped_export_path, (parent, stem, extension, stamp), r),
    ensures
        parent is Some && (parent->0)@.len() > 0 ==> r.0@ == (parent->0)@,
        parent is None || (parent->0)@.len() == 0 ==> r.0@ == "."@,
        stem is Some && (stem->0)@.len() > 0 && extension is Some && (extension->0)@.len() > 0
            ==> r.1@ == (stem->0)@ + "-"@ + decimal(stamp as nat) + "."@ + (extension->0)@,
        stem is Some && (stem->0)@.len() > 0 && extension is None ==> r.1@ == (stem->0)@ + "-"@
            + decimal(stamp as nat) + "."@ + "ics"@,
        stem is None && extension is None ==> r.1@ == "schedule"@ + "-"@ + decimal(stamp as nat)
            + "."@ + "ics"@,
{
    assert(r.deep_view().0 == r.0@ && r.deep_view().1 == r.1@);
}

} // verus!
