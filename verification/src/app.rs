//! Application operations shared by the command line and the terminal interface.
use std::sync::atomic::AtomicBool;
use vstd::prelude::*;
use crate::adapter::{meetings_json, meetings_json_text};
use crate::calendar::{
    digest_hex, export_ics, exported, hex_digit, sha256_hex, ExportReport,
    ExportReportView,
};
use crate::error::{outcome, Error};
use crate::json::{json_quoted, json_string};
use crate::model::{
    any_date_limited, bounded_pe, bounded_pe_meetings, internal_calendar_overlap,
    internal_natural_overlap, internal_window_overlap, is_pe_kind, meetings_have_date_limits,
    meetings_have_internal_calendar_overlap, meetings_have_internal_date_window_overlap,
    meetings_have_internal_natural_overlap, pe_kind, ChosenSection, ChosenSectionView, Course,
    CourseView, Dataset, DatasetView, ManualEntry, ManualEntryView, Meeting, Requirement,
    RequirementView, SectionOption, SectionOptionView, Solution, SolutionView, SolveStatus, Source,
    TermCalendar, TermCalendarView, TimeChoice, TimeChoiceView,
};
use crate::optimizer::{
    answers, calendar_fault, first_meeting_fault, flag_reads, lemma_meetings_view, solve,
    solve_with_calendar, solved,
};
use crate::order::{
    distinct_ascending, duplicate_all, keys_of, lookup, Duplicate, OrderedMap, OrderedSet,
};
use crate::laws::{
    lemma_known_component, lemma_new_meetings, lemma_trimmed_lowered, lemma_trimmed_twice,
};
use crate::storage::{entry_fault, known_component, validate_meetings};
use crate::text::{
    any_char, ascii, begins_with, decimal, decimal_text, lower_case, lowercase, same_text,
    starts_with, trim, trimmed, whitespace,
};

verus! {

/// Texts, each after `<prefix>: `.
pub open spec fn prefixed(prefix: Seq<char>, texts: Seq<Seq<char>>) -> Seq<Seq<char>> {
    Seq::new(texts.len(), |i: int| prefix + ": "@ + texts[i])
}

/// What a course adds to the notices of a search.
pub open spec fn course_notices(id: Seq<char>, course: CourseView) -> Seq<Seq<char>> {
    prefixed(id, course.notices) + (if course.requirements.len() == 0 {
        seq![id + ": no known meeting components"@]
    } else {
        Seq::empty()
    })
}

/// The requirements and notices of the given subjects.
pub open spec fn gathered(dataset: DatasetView, ids: Seq<Seq<char>>) -> Result<
    (Seq<RequirementView>, Seq<Seq<char>>),
    Seq<char>,
>
    decreases ids.len(),
{
    if ids.len() == 0 {
        Ok((Seq::empty(), dataset.notices))
    } else {
        match gathered(dataset, ids.drop_last()) {
            Err(fault) => Err(fault),
            Ok((requirements, notices)) => match lookup(dataset.courses, ids.last()) {
                None => Err("unknown subject "@ + ids.last()),
                Some(course) => Ok(
                    (
                        requirements + course.requirements,
                        notices + course_notices(ids.last(), course),
                    ),
                ),
            },
        }
    }
}

/// What an uninterrupted search answers, with the calendar where there is one.
pub open spec fn search_answer(
    requirements: Seq<RequirementView>,
    calendar: Option<TermCalendarView>,
) -> Result<SolutionView, Seq<char>> {
    match calendar {
        Some(view) => match calendar_fault(view) {
            Some(fault) => Err(fault),
            None => solved(requirements, Some(view)),
        },
        None => solved(requirements, None),
    }
}

/// An answer with more notices.
pub open spec fn annotated(
    answer: Result<SolutionView, Seq<char>>,
    notices: Seq<Seq<char>>,
) -> Result<SolutionView, Seq<char>> {
    match answer {
        Err(fault) => Err(fault),
        Ok(solution) => Ok(
            SolutionView {
                unresolved: distinct_ascending::<String>(solution.unresolved + notices),
                ..solution
            },
        ),
    }
}

/// The best timetable for the selected subjects.
pub open spec fn optimum(dataset: DatasetView, selected: Seq<Seq<char>>) -> Result<
    SolutionView,
    Seq<char>,
> {
    match gathered(dataset, distinct_ascending::<String>(selected)) {
        Err(fault) => Err(fault),
        Ok((requirements, notices)) => annotated(
            search_answer(requirements, dataset.calendar),
            notices,
        ),
    }
}

/// What a search for the selected subjects may answer that asks on the way whether to stop:
/// `stops` if it can be told so, `goes_on` if it can be told to go on.
pub open spec fn optimum_answers(
    dataset: DatasetView,
    selected: Seq<Seq<char>>,
    stops: bool,
    goes_on: bool,
    r: Result<SolutionView, Seq<char>>,
) -> bool {
    match gathered(dataset, distinct_ascending::<String>(selected)) {
        Err(fault) => r == Err::<SolutionView, Seq<char>>(fault),
        Ok((requirements, notices)) => if dataset.calendar is Some && calendar_fault(
            dataset.calendar->0,
        ) is Some {
            r == Err::<SolutionView, Seq<char>>(calendar_fault(dataset.calendar->0)->0)
        } else {
            exists|answer: Result<SolutionView, Seq<char>>| #[trigger]
                answers(requirements, dataset.calendar, stops, goes_on, answer) && r == annotated(
                    answer,
                    notices,
                )
        },
    }
}

fn push_course(
    id: &String,
    course: &Course,
    requirements: &mut Vec<Requirement>,
    notices: &mut Vec<String>,
)
    ensures
        final(requirements).deep_view() == old(requirements).deep_view()
            + course.deep_view().requirements,
        final(notices).deep_view() == old(notices).deep_view() + course_notices(
            id@,
            course.deep_view(),
        ),
{
    let ghost known = requirements.deep_view();
    let ghost said = notices.deep_view();
    let mut copies = duplicate_all(&course.requirements);
    let ghost added = copies@;
    let ghost before = requirements@;
    proof {
        assert(copies.deep_view().len() == copies@.len());
        assert forall|i: int| 0 <= i < added.len() implies #[trigger] added[i].deep_view()
            == course.requirements.deep_view()[i] by {
            assert(copies.deep_view()[i] == added[i].deep_view());
        }
    }
    requirements.append(&mut copies);
    proof {
        assert(requirements@ == before + added);
        assert(requirements.deep_view() =~= known + course.requirements.deep_view());
    }
    let ghost lines = prefixed(id@, course.notices.deep_view());
    let mut index: usize = 0;
    assert(notices.deep_view() =~= said + lines.take(0));
    while index < course.notices.len()
        invariant
            index <= course.notices@.len(),
            lines == prefixed(id@, course.notices.deep_view()),
            notices.deep_view() == said + lines.take(index as int),
        decreases course.notices@.len() - index,
    {
        let ghost so_far = notices.deep_view();
        let mut notice = id.clone();
        notice.append(": ");
        notice.append(course.notices[index].as_str());
        let ghost text = notice@;
        notices.push(notice);
        assert(notices.deep_view() =~= so_far.push(text));
        assert(text == lines[index as int]);
        assert(notices.deep_view() =~= said + lines.take(index + 1));
        index += 1;
    }
    assert(lines.take(index as int) =~= lines);
    let ghost so_far = notices.deep_view();
    if course.requirements.len() == 0 {
        let mut notice = id.clone();
        notice.append(": no known meeting components");
        let ghost text = notice@;
        notices.push(notice);
        assert(notices.deep_view() =~= so_far.push(text));
    }
    assert(notices.deep_view() =~= said + course_notices(id@, course.deep_view()));
}

fn gather(dataset: &Dataset, ids: &Vec<String>) -> (r: Result<
    (Vec<Requirement>, Vec<String>),
    Error,
>)
    ensures
        outcome(r) == gathered(dataset.deep_view(), ids.deep_view()),
{
    let ghost view = dataset.deep_view();
    let ghost all = ids.deep_view();
    let mut requirements: Vec<Requirement> = Vec::new();
    let mut notices = duplicate_all(&dataset.notices);
    let mut failure: Option<Error> = None;
    let mut index: usize = 0;
    proof {
        assert(all.take(0) =~= Seq::empty());
        assert(requirements.deep_view() =~= Seq::empty());
    }
    while index < ids.len()
        invariant
            index <= ids@.len(),
            view == dataset.deep_view(),
            all == ids.deep_view(),
            match gathered(view, all.take(index as int)) {
                Err(fault) => failure is Some && (failure->0).deep_view() == fault,
                Ok((known, said)) => failure is None && requirements.deep_view() == known
                    && notices.deep_view() == said,
            },
        decreases ids@.len() - index,
    {
        assert(all.take(index + 1).drop_last() =~= all.take(index as int));
        assert(all.take(index + 1).last() == ids@[index as int]@);
        if failure.is_none() {
            let id = &ids[index];
            match dataset.courses.get(id) {
                Some(course) => push_course(id, course, &mut requirements, &mut notices),
                None => {
                    let mut message = "unknown subject ".to_owned();
                    message.append(id.as_str());
                    failure = Some(Error { message });
                },
            }
        }
        index += 1;
    }
    assert(all.take(index as int) =~= all);
    match failure {
        Some(error) => Err(error),
        None => Ok((requirements, notices)),
    }
}

/// Appends texts to texts.
fn joined(first: &Vec<String>, second: Vec<String>) -> (r: Vec<String>)
    ensures
        r.deep_view() == first.deep_view() + second.deep_view(),
{
    let mut out = duplicate_all(first);
    let ghost before = out@;
    let ghost added = second@;
    let ghost head = out.deep_view();
    let ghost tail = second.deep_view();
    let mut second = second;
    out.append(&mut second);
    proof {
        assert(out@ == before + added);
        assert(out.deep_view() =~= head + tail) by {
            assert forall|i: int| 0 <= i < out@.len() implies #[trigger] out.deep_view()[i] == (head
                + tail)[i] by {
                if i < before.len() {
                    assert(head[i] == before[i]@);
                } else {
                    assert(tail[i - before.len()] == added[i - before.len()]@);
                }
            }
        }
    }
    out
}

/// Finds the best timetable for the selected subjects.
pub fn optimize(dataset: &Dataset, selected: &[String], cancel: Option<&AtomicBool>) -> (r: Result<
    Solution,
    Error,
>)
    ensures
        optimum_answers(
            dataset.deep_view(),
            selected.deep_view(),
            flag_reads(cancel, true),
            flag_reads(cancel, false),
            outcome(r),
        ),
        !flag_reads(cancel, true) ==> outcome(r) == optimum(
            dataset.deep_view(),
            selected.deep_view(),
        ),
{
    let ids = sorted_ids(selected);
    let (requirements, notices) = match gather(dataset, &ids) {
        Ok(gathered) => gathered,
        Err(error) => {
            return Err(error);
        },
    };
    proof {
        vec_slice_view(requirements);
    }
    let answer = match &dataset.calendar {
        Some(calendar) => solve_with_calendar(requirements.as_slice(), calendar, cancel),
        None => solve(requirements.as_slice(), cancel),
    };
    let ghost said = notices.deep_view();
    let ghost found = outcome(answer);
    match answer {
        Ok(solution) => {
            let mut solution = solution;
            let all = joined(&solution.unresolved, notices);
            solution.unresolved = OrderedSet::from_vec(all).into_vec();
            assert(solution.deep_view() =~= annotated(found, said)->Ok_0);
            Ok(solution)
        },
        Err(error) => Err(error),
    }
}

/// A vector and its slice hold the same values.
proof fn vec_slice_view(items: Vec<Requirement>)
    ensures
        forall|s: &[Requirement]| s@ == items@ ==> #[trigger] s.deep_view() == items.deep_view(),
{
    assert forall|s: &[Requirement]| s@ == items@ implies #[trigger] s.deep_view()
        == items.deep_view() by {
        assert(s.deep_view() =~= items.deep_view());
    }
}

/// The texts in order, without repetitions.
fn sorted_ids(texts: &[String]) -> (r: Vec<String>)
    ensures
        r.deep_view() == distinct_ascending::<String>(texts.deep_view()),
{
    let mut copies: Vec<String> = Vec::new();
    let mut index: usize = 0;
    assert(copies.deep_view() =~= texts.deep_view().take(0));
    while index < texts.len()
        invariant
            index <= texts@.len(),
            copies.deep_view() == texts.deep_view().take(index as int),
        decreases texts@.len() - index,
    {
        let ghost so_far = copies.deep_view();
        copies.push(texts[index].clone());
        assert(copies.deep_view() =~= so_far.push(texts.deep_view()[index as int]));
        assert(copies.deep_view() =~= texts.deep_view().take(index + 1));
        index += 1;
    }
    assert(texts.deep_view().take(index as int) =~= texts.deep_view());
    OrderedSet::from_vec(copies).into_vec()
}

/// The ids of the requirements that choices fill.
pub open spec fn filled(choices: Seq<TimeChoiceView>) -> Seq<Seq<char>> {
    Seq::new(choices.len(), |i: int| choices[i].requirement_id)
}

/// The first of the given ids that no choice fills.
pub open spec fn first_unfilled(choices: Seq<TimeChoiceView>, ids: Seq<Seq<char>>) -> Option<
    Seq<char>,
>
    decreases ids.len(),
{
    if ids.len() == 0 {
        None
    } else if !filled(choices).contains(ids[0]) {
        Some(ids[0])
    } else {
        first_unfilled(choices, ids.drop_first())
    }
}

/// The first member with an id.
pub open spec fn member_with(members: Seq<SectionOptionView>, id: Seq<char>) -> Option<
    SectionOptionView,
>
    decreases members.len(),
{
    if members.len() == 0 {
        None
    } else if members[0].id == id {
        Some(members[0])
    } else {
        member_with(members.drop_first(), id)
    }
}

/// The first requirement with an id.
pub open spec fn requirement_with(requirements: Seq<RequirementView>, id: Seq<char>) -> Option<
    RequirementView,
>
    decreases requirements.len(),
{
    if requirements.len() == 0 {
        None
    } else if requirements[0].id == id {
        Some(requirements[0])
    } else {
        requirement_with(requirements.drop_first(), id)
    }
}

/// The first course with a requirement with an id, and that requirement.
pub open spec fn owner_of(courses: Seq<(Seq<char>, CourseView)>, id: Seq<char>) -> Option<
    (CourseView, RequirementView),
>
    decreases courses.len(),
{
    if courses.len() == 0 {
        None
    } else {
        match requirement_with(courses[0].1.requirements, id) {
            Some(requirement) => Some((courses[0].1, requirement)),
            None => owner_of(courses.drop_first(), id),
        }
    }
}

/// The section that stands for a choice: the wanted member, or the first.
pub open spec fn section_for(
    choice: TimeChoiceView,
    members: Seq<(Seq<char>, Seq<char>)>,
) -> Result<SectionOptionView, Seq<char>> {
    match lookup(members, choice.requirement_id) {
        Some(id) => match member_with(choice.members, id) {
            Some(section) => Ok(section),
            None => Err(
                id + " is not a same-time member of "@ + choice.requirement_id,
            ),
        },
        None => if choice.members.len() > 0 {
            Ok(choice.members[0])
        } else {
            Err("optimizer returned an empty member group"@)
        },
    }
}

/// The section chosen for a choice, with its course.
pub open spec fn chosen_for(
    courses: Seq<(Seq<char>, CourseView)>,
    choice: TimeChoiceView,
    members: Seq<(Seq<char>, Seq<char>)>,
) -> Result<ChosenSectionView, Seq<char>> {
    match section_for(choice, members) {
        Err(fault) => Err(fault),
        Ok(section) => match owner_of(courses, choice.requirement_id) {
            None => Err("unknown chosen requirement "@ + choice.requirement_id),
            Some((course, requirement)) => Ok(
                ChosenSectionView {
                    course_id: course.id,
                    course_title: course.title,
                    kind: requirement.kind,
                    section,
                },
            ),
        },
    }
}

/// The sections chosen for the choices, in order.
pub open spec fn chosen_for_all(
    courses: Seq<(Seq<char>, CourseView)>,
    choices: Seq<TimeChoiceView>,
    members: Seq<(Seq<char>, Seq<char>)>,
) -> Result<Seq<ChosenSectionView>, Seq<char>>
    decreases choices.len(),
{
    if choices.len() == 0 {
        Ok(Seq::empty())
    } else {
        match chosen_for_all(courses, choices.drop_last(), members) {
            Err(fault) => Err(fault),
            Ok(chosen) => match chosen_for(courses, choices.last(), members) {
                Err(fault) => Err(fault),
                Ok(section) => Ok(chosen.push(section)),
            },
        }
    }
}

/// Neither section excludes the other.
pub open spec fn agree(left: ChosenSectionView, right: ChosenSectionView) -> bool {
    !left.section.incompatible_with.contains(right.section.id)
        && !right.section.incompatible_with.contains(left.section.id)
}

/// The course, kind and id of a section.
pub open spec fn section_path(section: ChosenSectionView) -> Seq<char> {
    section.course_id + "/"@ + section.kind + " "@ + section.section.id
}

/// The first pair of sections from `i` and `j` on that exclude each other.
pub open spec fn exclusion(chosen: Seq<ChosenSectionView>, i: int, j: int) -> Option<Seq<char>>
    decreases chosen.len() - i, chosen.len() - j,
{
    if i < 0 || i >= chosen.len() {
        None
    } else if j >= chosen.len() {
        exclusion(chosen, i + 1, i + 2)
    } else if !agree(chosen[i], chosen[j]) {
        Some(
            "incompatible actual sections: "@ + section_path(chosen[i]) + " and "@ + section_path(
                chosen[j],
            ),
        )
    } else {
        exclusion(chosen, i, j + 1)
    }
}

/// The sections that a solution stands for, with the wanted members.
pub open spec fn sections_chosen(
    dataset: DatasetView,
    solution: SolutionView,
    members: Seq<(Seq<char>, Seq<char>)>,
) -> Result<Seq<ChosenSectionView>, Seq<char>> {
    if solution.status != SolveStatus::OptimalKnown {
        Err("only a completed feasible optimization has selected sections"@)
    } else {
        match first_unfilled(solution.choices, keys_of(members)) {
            Some(id) => Err("no chosen requirement "@ + id),
            None => match chosen_for_all(dataset.courses, solution.choices, members) {
                Err(fault) => Err(fault),
                Ok(chosen) => match exclusion(chosen, 0, 1) {
                    Some(fault) => Err(fault),
                    None => Ok(chosen),
                },
            },
        }
    }
}

fn is_filled(choices: &Vec<TimeChoice>, id: &String) -> (r: bool)
    ensures
        r == filled(choices.deep_view()).contains(id@),
{
    let ghost ids = filled(choices.deep_view());
    let mut index: usize = 0;
    while index < choices.len()
        invariant
            index <= choices@.len(),
            ids == filled(choices.deep_view()),
            forall|i: int| 0 <= i < index ==> #[trigger] ids[i] != id@,
        decreases choices@.len() - index,
    {
        assert(ids[index as int] == choices@[index as int].requirement_id@);
        if choices[index].requirement_id == *id {
            return true;
        }
        index += 1;
    }
    false
}

fn find_unfilled(choices: &Vec<TimeChoice>, ids: &Vec<String>) -> (r: Option<String>)
    ensures
        r.deep_view() == first_unfilled(choices.deep_view(), ids.deep_view()),
{
    let ghost all = ids.deep_view();
    let mut index: usize = 0;
    assert(all.skip(0) =~= all);
    while index < ids.len()
        invariant
            index <= ids@.len(),
            all == ids.deep_view(),
            first_unfilled(choices.deep_view(), all) == first_unfilled(
                choices.deep_view(),
                all.skip(index as int),
            ),
        decreases ids@.len() - index,
    {
        assert(all.skip(index as int)[0] == ids@[index as int]@);
        assert(all.skip(index as int).drop_first() =~= all.skip(index + 1));
        if !is_filled(choices, &ids[index]) {
            return Some(ids[index].clone());
        }
        index += 1;
    }
    None
}

fn find_member<'a>(members: &'a Vec<SectionOption>, id: &String) -> (r: Option<&'a SectionOption>)
    ensures
        r.deep_view() == member_with(members.deep_view(), id@),
{
    let ghost all = members.deep_view();
    let mut index: usize = 0;
    assert(all.skip(0) =~= all);
    while index < members.len()
        invariant
            index <= members@.len(),
            all == members.deep_view(),
            member_with(all, id@) == member_with(all.skip(index as int), id@),
        decreases members@.len() - index,
    {
        assert(all.skip(index as int)[0] == members@[index as int].deep_view());
        assert(all.skip(index as int).drop_first() =~= all.skip(index + 1));
        if members[index].id == *id {
            return Some(&members[index]);
        }
        index += 1;
    }
    None
}

pub(crate) fn find_requirement<'a>(requirements: &'a Vec<Requirement>, id: &String) -> (r: Option<
    &'a Requirement,
>)
    ensures
        r.deep_view() == requirement_with(requirements.deep_view(), id@),
{
    let ghost all = requirements.deep_view();
    let mut index: usize = 0;
    assert(all.skip(0) =~= all);
    while index < requirements.len()
        invariant
            index <= requirements@.len(),
            all == requirements.deep_view(),
            requirement_with(all, id@) == requirement_with(all.skip(index as int), id@),
        decreases requirements@.len() - index,
    {
        assert(all.skip(index as int)[0] == requirements@[index as int].deep_view());
        assert(all.skip(index as int).drop_first() =~= all.skip(index + 1));
        if requirements[index].id == *id {
            return Some(&requirements[index]);
        }
        index += 1;
    }
    None
}

fn find_owner<'a>(courses: &'a OrderedMap<String, Course>, id: &String) -> (r: Option<
    (&'a Course, &'a Requirement),
>)
    ensures
        r.deep_view() == owner_of(courses.deep_view(), id@),
{
    let values = courses.values();
    let ghost all = courses.deep_view();
    let mut index: usize = 0;
    assert(all.skip(0) =~= all);
    while index < values.len()
        invariant
            index <= values@.len(),
            all == courses.deep_view(),
            values@.len() == all.len(),
            forall|i: int|
                0 <= i < values@.len() ==> (#[trigger] values@[i]).deep_view() == all[i].1,
            owner_of(all, id@) == owner_of(all.skip(index as int), id@),
        decreases values@.len() - index,
    {
        let course = &values[index];
        assert(course.deep_view() == all[index as int].1);
        assert(all.skip(index as int)[0] == all[index as int]);
        assert(all.skip(index as int).drop_first() =~= all.skip(index + 1));
        if let Some(requirement) = find_requirement(&course.requirements, id) {
            return Some((course, requirement));
        }
        index += 1;
    }
    None
}

fn choose_section(
    dataset: &Dataset,
    choice: &TimeChoice,
    members: &OrderedMap<String, String>,
) -> (r: Result<ChosenSection, Error>)
    ensures
        outcome(r) == chosen_for(
            dataset.deep_view().courses,
            choice.deep_view(),
            members.deep_view(),
        ),
{
    let section = match members.get(&choice.requirement_id) {
        Some(id) => match find_member(&choice.members, id) {
            Some(section) => section,
            None => {
                let mut message = id.clone();
                message.append(" is not a same-time member of ");
                message.append(choice.requirement_id.as_str());
                return Err(Error { message });
            },
        },
        None => {
            assert(choice.members.deep_view().len() == choice.members@.len());
            if choice.members.len() == 0 {
                return Err(Error::new("optimizer returned an empty member group"));
            }
            assert(choice.members.deep_view()[0] == choice.members@[0].deep_view());
            &choice.members[0]
        },
    };
    match find_owner(&dataset.courses, &choice.requirement_id) {
        Some((course, requirement)) => Ok(
            ChosenSection {
                course_id: course.id.clone(),
                course_title: course.title.clone(),
                kind: requirement.kind.clone(),
                section: section.duplicate(),
            },
        ),
        None => {
            let mut message = "unknown chosen requirement ".to_owned();
            message.append(choice.requirement_id.as_str());
            Err(Error { message })
        },
    }
}

fn choose_sections(
    dataset: &Dataset,
    choices: &Vec<TimeChoice>,
    members: &OrderedMap<String, String>,
) -> (r: Result<Vec<ChosenSection>, Error>)
    ensures
        outcome(r) == chosen_for_all(
            dataset.deep_view().courses,
            choices.deep_view(),
            members.deep_view(),
        ),
{
    let ghost courses = dataset.deep_view().courses;
    let ghost all = choices.deep_view();
    let ghost wanted = members.deep_view();
    let mut chosen: Vec<ChosenSection> = Vec::new();
    let mut failure: Option<Error> = None;
    let mut index: usize = 0;
    proof {
        assert(all.take(0) =~= Seq::empty());
        assert(chosen.deep_view() =~= Seq::empty());
    }
    while index < choices.len()
        invariant
            index <= choices@.len(),
            courses == dataset.deep_view().courses,
            all == choices.deep_view(),
            wanted == members.deep_view(),
            match chosen_for_all(courses, all.take(index as int), wanted) {
                Err(fault) => failure is Some && (failure->0).deep_view() == fault,
                Ok(known) => failure is None && chosen.deep_view() == known,
            },
        decreases choices@.len() - index,
    {
        assert(all.take(index + 1).drop_last() =~= all.take(index as int));
        assert(all.take(index + 1).last() == choices@[index as int].deep_view());
        if failure.is_none() {
            match choose_section(dataset, &choices[index], members) {
                Ok(section) => {
                    let ghost known = chosen.deep_view();
                    chosen.push(section);
                    assert(chosen.deep_view() =~= known.push(section.deep_view()));
                },
                Err(error) => {
                    failure = Some(error);
                },
            }
        }
        index += 1;
    }
    assert(all.take(index as int) =~= all);
    match failure {
        Some(error) => Err(error),
        None => Ok(chosen),
    }
}

fn push_section_path(text: &mut String, section: &ChosenSection)
    ensures
        final(text)@ == old(text)@ + section_path(section.deep_view()),
{
    let ghost before = text@;
    text.append(section.course_id.as_str());
    text.append("/");
    text.append(section.kind.as_str());
    text.append(" ");
    text.append(section.section.id.as_str());
    assert(text@ =~= before + section_path(section.deep_view()));
}

fn find_exclusion(chosen: &Vec<ChosenSection>) -> (r: Option<String>)
    ensures
        r.deep_view() == exclusion(chosen.deep_view(), 0, 1),
{
    let ghost all = chosen.deep_view();
    let mut i: usize = 0;
    while i < chosen.len()
        invariant
            i <= chosen@.len(),
            all == chosen.deep_view(),
            exclusion(all, 0, 1) == exclusion(all, i as int, i + 1),
        decreases chosen@.len() - i,
    {
        let mut j: usize = i + 1;
        while j < chosen.len()
            invariant
                i < j <= chosen@.len(),
                all == chosen.deep_view(),
                exclusion(all, 0, 1) == exclusion(all, i as int, j as int),
            decreases chosen@.len() - j,
        {
            let left = &chosen[i];
            let right = &chosen[j];
            assert(all[i as int] == left.deep_view() && all[j as int] == right.deep_view());
            if left.section.incompatible_with.contains(&right.section.id)
                || right.section.incompatible_with.contains(&left.section.id) {
                let mut message = "incompatible actual sections: ".to_owned();
                push_section_path(&mut message, left);
                message.append(" and ");
                push_section_path(&mut message, right);
                return Some(message);
            }
            j += 1;
        }
        i += 1;
    }
    None
}

/// The sections that a solution stands for. `members` picks among the members of a choice; the
/// first stands for a choice where nothing is picked.
pub fn actual_sections(
    dataset: &Dataset,
    solution: &Solution,
    members: &OrderedMap<String, String>,
) -> (r: Result<Vec<ChosenSection>, Error>)
    ensures
        outcome(r) == sections_chosen(
            dataset.deep_view(),
            solution.deep_view(),
            members.deep_view(),
        ),
{
    if solution.status != SolveStatus::OptimalKnown {
        return Err(Error::new("only a completed feasible optimization has selected sections"));
    }
    match find_unfilled(&solution.choices, members.keys()) {
        Some(id) => {
            let mut message = "no chosen requirement ".to_owned();
            message.append(id.as_str());
            return Err(Error { message });
        },
        None => {},
    }
    match choose_sections(dataset, &solution.choices, members) {
        Ok(chosen) => match find_exclusion(&chosen) {
            Some(message) => Err(Error { message }),
            None => Ok(chosen),
        },
        Err(error) => Err(error),
    }
}

/// Where an export goes: the directory of the hint, and its name with a suffix.
pub open spec fn export_target(
    parent: Option<Seq<char>>,
    stem: Option<Seq<char>>,
    extension: Option<Seq<char>>,
    suffix: Seq<char>,
) -> (Seq<char>, Seq<char>) {
    let directory = if parent is Some && (parent->0).len() > 0 {
        parent->0
    } else {
        "."@
    };
    let name = if stem is Some && (stem->0).len() > 0 {
        stem->0
    } else {
        "schedule"@
    };
    let kind = if extension is Some && (extension->0).len() > 0 {
        extension->0
    } else {
        "ics"@
    };
    (directory, name + "-"@ + suffix + "."@ + kind)
}

/// A text unless it is missing or empty, else the fallback.
fn or_fallback(text: Option<&str>, fallback: &str) -> (r: String)
    ensures
        r@ == (if text is Some && (text->0)@.len() > 0 {
            (text->0)@
        } else {
            fallback@
        }),
{
    match text {
        Some(text) => if text.is_empty() {
            fallback.to_owned()
        } else {
            text.to_owned()
        },
        None => fallback.to_owned(),
    }
}

fn timestamped_export_path_with_suffix(
    parent: Option<&str>,
    stem: Option<&str>,
    extension: Option<&str>,
    suffix: &str,
) -> (r: (String, String))
    ensures
        r.deep_view() == export_target(
            parent.deep_view(),
            stem.deep_view(),
            extension.deep_view(),
            suffix@,
        ),
{
    let directory = or_fallback(parent, ".");
    let mut name = or_fallback(stem, "schedule");
    name.append("-");
    name.append(suffix);
    name.append(".");
    name.append(or_fallback(extension, "ics").as_str());
    (directory, name)
}

/// The directory and file name of an export at a Unix time, given the parts of the hint.
pub fn timestamped_export_path(
    parent: Option<&str>,
    stem: Option<&str>,
    extension: Option<&str>,
    stamp: u64,
) -> (r: (String, String))
    ensures
        r.deep_view() == export_target(
            parent.deep_view(),
            stem.deep_view(),
            extension.deep_view(),
            decimal(stamp as nat),
        ),
{
    timestamped_export_path_with_suffix(
        parent,
        stem,
        extension,
        decimal_text(stamp).as_str(),
    )
}

/// A try to create the file of an export.
#[derive(Clone, Copy, Debug, PartialEq, Eq, Structural)]
pub struct ExportAttempt {
    pub stamp: u64,
    /// Whether the name of this second was taken.
    pub retry: bool,
}

/// The suffix of a try: the Unix time, and a counter where the name was taken.
pub open spec fn attempt_suffix(attempt: ExportAttempt) -> Seq<char> {
    if attempt.retry {
        decimal(attempt.stamp as nat) + "-1"@
    } else {
        decimal(attempt.stamp as nat)
    }
}

impl ExportAttempt {
    /// The directory and file name of this try.
    pub fn target(&self, parent: Option<&str>, stem: Option<&str>, extension: Option<&str>) -> (r: (
        String,
        String,
    ))
        ensures
            r.deep_view() == export_target(
                parent.deep_view(),
                stem.deep_view(),
                extension.deep_view(),
                attempt_suffix(*self),
            ),
    {
        let mut suffix = decimal_text(self.stamp);
        if self.retry {
            suffix.append("-1");
        }
        timestamped_export_path_with_suffix(parent, stem, extension, suffix.as_str())
    }

    /// The try after one whose name was taken: the same second once more, then the next.
    pub fn next(&self) -> (r: ExportAttempt)
        ensures
            r == (if !self.retry {
                ExportAttempt { stamp: self.stamp, retry: true }
            } else if self.stamp < u64::MAX {
                ExportAttempt { stamp: (self.stamp + 1) as u64, retry: false }
            } else {
                ExportAttempt { stamp: self.stamp, retry: false }
            }),
    {
        if !self.retry {
            ExportAttempt { stamp: self.stamp, retry: true }
        } else if self.stamp < 0xffff_ffff_ffff_ffff {
            ExportAttempt { stamp: self.stamp + 1, retry: false }
        } else {
            ExportAttempt { stamp: self.stamp, retry: false }
        }
    }
}

/// The calendar file for a solution, with everything that is left out of it.
pub open spec fn calendar_export(
    dataset: DatasetView,
    solution: SolutionView,
    members: Seq<(Seq<char>, Seq<char>)>,
) -> Result<ExportReportView, Seq<char>> {
    match sections_chosen(dataset, solution, members) {
        Err(fault) => Err(fault),
        Ok(chosen) => match dataset.calendar {
            None => Err(
                "term calendar is unavailable; cannot export without reliable semester dates"@,
            ),
            Some(calendar) => match exported(calendar, chosen) {
                Err(fault) => Err(fault),
                Ok(report) => Ok(
                    ExportReportView {
                        notices: distinct_ascending::<String>(report.notices + solution.unresolved),
                        ..report
                    },
                ),
            },
        },
    }
}

/// Makes the calendar file for a solution; nothing is written yet.
pub fn calendar_report(
    dataset: &Dataset,
    solution: &Solution,
    members: &OrderedMap<String, String>,
) -> (r: Result<ExportReport, Error>)
    ensures
        outcome(r) == calendar_export(
            dataset.deep_view(),
            solution.deep_view(),
            members.deep_view(),
        ),
{
    let chosen = match actual_sections(dataset, solution, members) {
        Ok(chosen) => chosen,
        Err(error) => {
            return Err(error);
        },
    };
    let term = match &dataset.calendar {
        Some(term) => term,
        None => {
            return Err(
                Error::new(
                    "term calendar is unavailable; cannot export without reliable semester dates",
                ),
            );
        },
    };
    let slice = chosen.as_slice();
    assert(slice.deep_view() =~= chosen.deep_view());
    match export_ics(term, slice) {
        Ok(report) => {
            let ghost view = report.deep_view();
            let mut report = report;
            let all = joined(&report.notices, duplicate_all(&solution.unresolved));
            report.notices = OrderedSet::from_vec(all).into_vec();
            assert(report.deep_view() =~= ExportReportView {
                notices: distinct_ascending::<String>(
                    view.notices + solution.deep_view().unresolved,
                ),
                ..view
            });
            Ok(report)
        },
        Err(error) => Err(error),
    }
}

/// The kinds that a manual section may have in a course.
pub open spec fn kind_allowed(course: CourseView, kind: Seq<char>) -> bool {
    known_component(kind) || exists|i: int|
        0 <= i < course.requirements.len() && (#[trigger] course.requirements[i]).kind == kind
}

/// What identifies a new manual section, as a JSON array.
pub open spec fn manual_source(
    term_id: Seq<char>,
    course_id: Seq<char>,
    kind: Seq<char>,
    label: Seq<char>,
    room: Seq<char>,
    meetings: Seq<Meeting>,
) -> Seq<char> {
    "["@ + json_quoted(term_id) + ","@ + json_quoted(course_id) + ","@ + json_quoted(kind) + ","@
        + json_quoted(label) + ","@ + json_quoted(room) + ",["@ + meetings_json(meetings) + "]]"@
}

/// What is wrong with the meetings of a new manual section, if anything.
pub open spec fn manual_meetings_fault(
    kind: Seq<char>,
    meetings: Seq<Meeting>,
    calendar: Option<TermCalendarView>,
) -> Option<Seq<char>> {
    if pe_kind(kind) {
        if !bounded_pe(kind, meetings) {
            Some("PE manual section needs complete start/end date bounds"@)
        } else if internal_window_overlap(meetings) || (calendar is Some
            && internal_calendar_overlap(calendar->0, meetings)) {
            Some("meetings within one manual section overlap"@)
        } else {
            None
        }
    } else if !any_date_limited(meetings) && internal_natural_overlap(meetings) {
        Some("meetings within one manual section overlap"@)
    } else {
        None
    }
}

/// A manual section for a course.
pub open spec fn entry_of(
    base: DatasetView,
    course_id: Seq<char>,
    kind: Seq<char>,
    label: Seq<char>,
    room: Seq<char>,
    meetings: Seq<Meeting>,
    id: Option<Seq<char>>,
) -> Result<ManualEntryView, Seq<char>> {
    let kind = lower_case(trimmed(kind));
    let sorted = distinct_ascending::<Meeting>(meetings);
    match lookup(base.courses, course_id) {
        None => Err("unknown subject "@ + course_id),
        Some(course) => if !kind_allowed(course, kind) {
            Err(
                "component must be published for this subject, or lecture, recitation, lab, design, or pe"@,
            )
        } else if trimmed(label).len() == 0 {
            Err("manual section needs a label"@)
        } else if meetings.len() == 0 {
            Err("manual section needs at least one meeting"@)
        } else if first_meeting_fault(meetings) is Some {
            Err(first_meeting_fault(meetings)->0)
        } else if manual_meetings_fault(kind, sorted, base.calendar) is Some {
            Err(manual_meetings_fault(kind, sorted, base.calendar)->0)
        } else if id is Some && !begins_with(id->0, "manual-"@) {
            Err("not a manual section ID"@)
        } else {
            Ok(
                ManualEntryView {
                    term_id: base.term_id,
                    course_id,
                    kind,
                    enabled: true,
                    option: SectionOptionView {
                        id: match id {
                            Some(id) => id,
                            None => "manual-"@ + sha256_hex(
                                manual_source(
                                    base.term_id,
                                    course_id,
                                    kind,
                                    trimmed(label),
                                    trimmed(room),
                                    sorted,
                                ),
                            ),
                        },
                        label: trimmed(label),
                        room: trimmed(room),
                        source: Source::Manual,
                        meetings: sorted,
                        incompatible_with: Seq::empty(),
                        unsupported_reason: if !pe_kind(kind) && any_date_limited(sorted) {
                            Some(
                                "date-limited manual section: partial-term optimization is not supported"@,
                            )
                        } else {
                            None
                        },
                    },
                },
            )
        },
    }
}

fn is_kind_allowed(course: &Course, kind: &String) -> (r: bool)
    ensures
        r == kind_allowed(course.deep_view(), kind@),
{
    let name = kind.as_str();
    if same_text(name, "lecture") || same_text(name, "recitation") || same_text(name, "lab")
        || same_text(name, "design") || same_text(name, "pe") {
        return true;
    }
    let ghost all = course.deep_view().requirements;
    let mut index: usize = 0;
    while index < course.requirements.len()
        invariant
            index <= course.requirements@.len(),
            all == course.deep_view().requirements,
            !crate::storage::known_component(kind@),
            forall|i: int| 0 <= i < index ==> (#[trigger] all[i]).kind != kind@,
        decreases course.requirements@.len() - index,
    {
        assert(all[index as int] == course.requirements@[index as int].deep_view());
        if course.requirements[index].kind == *kind {
            return true;
        }
        index += 1;
    }
    false
}

fn check_manual_meetings(
    kind: &str,
    meetings: &Vec<Meeting>,
    calendar: &Option<TermCalendar>,
) -> (r: Result<(), Error>)
    ensures
        outcome(r) == (match manual_meetings_fault(kind@, meetings@, calendar.deep_view()) {
            Some(fault) => Err::<(), _>(fault),
            None => Ok(()),
        }),
{
    let slice = meetings.as_slice();
    if is_pe_kind(kind) {
        if !bounded_pe_meetings(kind, slice) {
            return Err(Error::new("PE manual section needs complete start/end date bounds"));
        }
        let overlap = meetings_have_internal_date_window_overlap(slice) || match calendar {
            Some(calendar) => meetings_have_internal_calendar_overlap(calendar, slice),
            None => false,
        };
        if overlap {
            return Err(Error::new("meetings within one manual section overlap"));
        }
    } else if !meetings_have_date_limits(slice) && meetings_have_internal_natural_overlap(slice) {
        return Err(Error::new("meetings within one manual section overlap"));
    }
    Ok(())
}

/// An id with more than the mark of a manual section, and no white space.
pub open spec fn plain_id(id: Seq<char>) -> bool {
    id.len() > "manual-"@.len() && !any_char(id, |c: char| whitespace(c))
}

proof fn lemma_new_id(digest: Seq<char>)
    requires
        digest.len() == 64,
        forall|i: int| 0 <= i < 64 ==> hex_digit(#[trigger] digest[i]),
    ensures
        plain_id("manual-"@ + digest),
        begins_with("manual-"@ + digest, "manual-"@),
{
    reveal_strlit("manual-");
    let id = "manual-"@ + digest;
    assert(id.take(7) =~= "manual-"@);
    assert forall|i: int| 0 <= i < id.len() implies !whitespace(#[trigger] id[i]) by {
        if i >= 7 {
            assert(id[i] == digest[i - 7]);
        }
    }
}

/// A kind that is visible, trimmed and in lower case: lowering it once more changes nothing.
pub open spec fn settled(kind: Seq<char>) -> bool {
    trimmed(kind).len() > 0 && lower_case(trimmed(kind)) == kind
}

/// All published kinds of a course are settled.
pub open spec fn kinds_settled(course: CourseView) -> bool {
    forall|i: int|
        0 <= i < course.requirements.len() ==> settled((#[trigger] course.requirements[i]).kind)
}

/// Makes a manual section for a course; its id is new unless one is given. With a plain id it can
/// be stored exactly if its kind is settled: every kind in ASCII is, every kind that any course may
/// have, and every kind in a course whose published kinds are.
pub fn manual_entry(
    base: &Dataset,
    course_id: &str,
    kind: &str,
    label: &str,
    room: &str,
    meetings: Vec<Meeting>,
    id: Option<&str>,
) -> (r: Result<ManualEntry, Error>)
    ensures
        outcome(r) == entry_of(
            base.deep_view(),
            course_id@,
            kind@,
            label@,
            room@,
            meetings@,
            id.deep_view(),
        ),
        r is Ok && trimmed(base.term_id@).len() > 0 && trimmed(course_id@).len() > 0 && (id is Some
            ==> plain_id((id->0)@)) ==> (entry_fault((r->Ok_0).deep_view()) is None <==> settled(
            (r->Ok_0).kind@,
        )),
        r is Ok && (known_component((r->Ok_0).kind@) || (ascii(kind@) && trimmed(kind@).len() > 0))
            ==> settled((r->Ok_0).kind@),
        r is Ok && kinds_settled(lookup(base.deep_view().courses, course_id@)->0) ==> settled(
            (r->Ok_0).kind@,
        ),
{
    let ghost given = meetings@;
    proof {
        lemma_trimmed_twice(label@);
        if ascii(kind@) {
            lemma_trimmed_lowered(kind@);
        }
        let lower = lower_case(trimmed(kind@));
        if known_component(lower) {
            lemma_known_component(lower);
        }
    }
    let course_key = course_id.to_owned();
    let course = match base.courses.get(&course_key) {
        Some(course) => course,
        None => {
            let mut message = "unknown subject ".to_owned();
            message.append(course_id);
            return Err(Error { message });
        },
    };
    let kind = lowercase(trim(kind).as_str());
    if !is_kind_allowed(course, &kind) {
        return Err(
            Error::new(
                "component must be published for this subject, or lecture, recitation, lab, design, or pe",
            ),
        );
    }
    let label = trim(label);
    let room = trim(room);
    if label.as_str().is_empty() {
        return Err(Error::new("manual section needs a label"));
    }
    if meetings.len() == 0 {
        return Err(Error::new("manual section needs at least one meeting"));
    }
    match validate_meetings(&meetings) {
        Ok(_) => {},
        Err(error) => {
            return Err(error);
        },
    }
    proof {
        lemma_meetings_view(meetings);
    }
    let meetings = OrderedSet::from_vec(meetings).into_vec();
    proof {
        lemma_meetings_view(meetings);
    }
    match check_manual_meetings(kind.as_str(), &meetings, &base.calendar) {
        Ok(_) => {},
        Err(error) => {
            return Err(error);
        },
    }
    let id = match id {
        Some(id) => {
            if !starts_with(id, "manual-") {
                return Err(Error::new("not a manual section ID"));
            }
            id.to_owned()
        },
        None => {
            let mut source = "[".to_owned();
            source.append(json_string(base.term_id.as_str()).as_str());
            source.append(",");
            source.append(json_string(course_id).as_str());
            source.append(",");
            source.append(json_string(kind.as_str()).as_str());
            source.append(",");
            source.append(json_string(label.as_str()).as_str());
            source.append(",");
            source.append(json_string(room.as_str()).as_str());
            source.append(",[");
            source.append(meetings_json_text(&meetings).as_str());
            source.append("]]");
            let mut id = "manual-".to_owned();
            let digest = digest_hex(source.as_str());
            proof {
                lemma_new_id(digest@);
            }
            id.append(digest.as_str());
            id
        },
    };
    let unsupported_reason = if !is_pe_kind(kind.as_str()) && meetings_have_date_limits(
        meetings.as_slice(),
    ) {
        Some("date-limited manual section: partial-term optimization is not supported".to_owned())
    } else {
        None
    };
    proof {
        lemma_new_meetings(given);
    }
    Ok(
        ManualEntry {
            term_id: base.term_id.clone(),
            course_id: course_key,
            kind,
            enabled: true,
            option: SectionOption {
                id,
                label,
                room,
                source: Source::Manual,
                meetings,
                incompatible_with: OrderedSet::new(),
                unsupported_reason,
            },
        },
    )
}

} // verus!
