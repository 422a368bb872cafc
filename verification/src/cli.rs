//! What the commands of the command line do, apart from reading and writing.
use vstd::prelude::*;
use crate::app::{actual_sections, entry_of, manual_entry, optimize, optimum, sections_chosen};
use crate::date::Date;
use crate::error::{outcome, Error};
use crate::model::{
    meeting_text, ChosenSection, ChosenSectionView, Course, CourseView, Dataset, DatasetView,
    ManualEntry, ManualEntryView, ManualStore, ManualStoreView, Meeting, Score, Solution,
    SolutionView, SolveStatus, TimeChoiceView,
};
use crate::optimizer::lemma_meetings_view;
use crate::order::{
    duplicate_all, lookup, map_insert, sort_by, stable_sorted, Duplicate, OrderedMap, Rank,
};
use crate::storage::{
    apply_manual, entry_position, entry_with, find_entry, parse_meetings, read_meetings,
    upsert_entry, with_entry, with_manual,
};
use crate::text::{
    contains_part, decimal, decimal_text, holds, lower_case, lowercase, split_first,
    split_once_text, text_before,
};
use crate::tui::state::{dated_meetings, with_dates};

verus! {

/// Checks that a refresh may use the network.
pub fn check_refresh(offline: bool, catalog: bool) -> (r: Result<(), Error>)
    ensures
        outcome(r) == (if offline || catalog {
            Err::<(), Seq<char>>("refresh requires the network, without --offline or --catalog"@)
        } else {
            Ok(())
        }),
{
    if offline || catalog {
        return Err(Error::new("refresh requires the network, without --offline or --catalog"));
    }
    Ok(())
}

/// The subjects that the terminal interface starts with. A reload leaves those that were asked for
/// to the stored selection, unless selections are not stored.
pub fn initial_subjects(select: Vec<String>, reload: bool, no_restore: bool) -> (r: Vec<String>)
    ensures
        r.deep_view() == (if reload && !no_restore {
            Seq::empty()
        } else {
            select.deep_view()
        }),
{
    if reload && !no_restore {
        let none: Vec<String> = Vec::new();
        assert(none.deep_view() =~= Seq::empty());
        none
    } else {
        select
    }
}

/// What a refresh reports.
pub fn refresh_line(base: &Dataset) -> (r: String)
    ensures
        r@ == base.term_id@ + ": "@ + decimal(base.deep_view().courses.len()) + " subjects, source updated "@
            + base.last_updated@,
{
    let mut line = base.term_id.clone();
    line.append(": ");
    let values = base.courses.values();
    line.append(decimal_text(values.len() as u64).as_str());
    line.append(" subjects, source updated ");
    line.append(base.last_updated.as_str());
    line
}

/// Whether a lower-cased query occurs in the id or the title of a course.
pub open spec fn course_found(query: Seq<char>, course: CourseView) -> bool {
    holds(lower_case(course.id), query) || holds(lower_case(course.title), query)
}

/// The positions of the courses in which a query occurs, whatever the case.
pub open spec fn found_courses(courses: Seq<(Seq<char>, CourseView)>, query: Seq<char>) -> Seq<int>
    decreases courses.len(),
{
    if courses.len() == 0 {
        Seq::empty()
    } else {
        let rest = found_courses(courses.drop_last(), query);
        if course_found(lower_case(query), courses.last().1) {
            rest.push(courses.len() - 1)
        } else {
            rest
        }
    }
}

/// Searches the courses by number and title; gives their positions in the catalog.
pub fn search(base: &Dataset, query: &str) -> (r: Vec<usize>)
    ensures
        r@.len() == found_courses(base.deep_view().courses, query@).len(),
        forall|i: int|
            0 <= i < r@.len() ==> #[trigger] r@[i] == found_courses(
                base.deep_view().courses,
                query@,
            )[i] && r@[i] < base.deep_view().courses.len(),
{
    let ghost courses = base.deep_view().courses;
    let values = base.courses.values();
    let wanted = lowercase(query);
    let mut found: Vec<usize> = Vec::new();
    let mut index: usize = 0;
    assert(courses.take(0) =~= Seq::empty());
    while index < values.len()
        invariant
            index <= values@.len(),
            courses == base.deep_view().courses,
            values@.len() == courses.len(),
            forall|i: int|
                0 <= i < courses.len() ==> (#[trigger] values@[i]).deep_view() == courses[i].1,
            wanted@ == lower_case(query@),
            found@.len() == found_courses(courses.take(index as int), query@).len(),
            forall|i: int|
                0 <= i < found@.len() ==> #[trigger] found@[i] == found_courses(
                    courses.take(index as int),
                    query@,
                )[i] && found@[i] < index,
        decreases values@.len() - index,
    {
        assert(courses.take(index + 1).drop_last() =~= courses.take(index as int));
        let course = &values[index];
        if contains_part(lowercase(course.id.as_str()).as_str(), wanted.as_str()) || contains_part(
            lowercase(course.title.as_str()).as_str(),
            wanted.as_str(),
        ) {
            found.push(index);
        }
        index += 1;
    }
    assert(courses.take(index as int) =~= courses);
    found
}

/// A course in the answer of a search.
pub fn course_line(course: &Course) -> (r: String)
    ensures
        r@ == course.id@ + "  "@ + course.title@,
{
    let mut line = course.id.clone();
    line.append("  ");
    line.append(course.title.as_str());
    line
}

/// The members that are picked for requirements, each written `requirement_id=option_id`.
pub open spec fn read_members(members: Seq<Seq<char>>) -> Result<
    Seq<(Seq<char>, Seq<char>)>,
    Seq<char>,
>
    decreases members.len(),
{
    if members.len() == 0 {
        Ok(Seq::empty())
    } else {
        match read_members(members.drop_last()) {
            Err(fault) => Err(fault),
            Ok(choices) => match split_first(members.last(), '=') {
                None => Err("--member must be requirement_id=option_id"@),
                Some((requirement, id)) => if requirement.len() == 0 || id.len() == 0 {
                    Err("--member must be requirement_id=option_id"@)
                } else if lookup(choices, requirement) is Some {
                    Err("duplicate --member for "@ + requirement)
                } else {
                    Ok(map_insert::<String, Seq<char>>(choices, requirement, id))
                },
            },
        }
    }
}

fn add_member(choices: OrderedMap<String, String>, member: &String) -> (r: Result<
    OrderedMap<String, String>,
    Error,
>)
    ensures
        outcome(r) == (match split_first(member@, '=') {
            None => Err("--member must be requirement_id=option_id"@),
            Some((requirement, id)) => if requirement.len() == 0 || id.len() == 0 {
                Err("--member must be requirement_id=option_id"@)
            } else if lookup(choices.deep_view(), requirement) is Some {
                Err("duplicate --member for "@ + requirement)
            } else {
                Ok(map_insert::<String, Seq<char>>(choices.deep_view(), requirement, id))
            },
        }),
{
    let mut choices = choices;
    match split_once_text(member.as_str(), '=') {
        None => Err(Error::new("--member must be requirement_id=option_id")),
        Some((requirement, id)) => {
            if requirement.as_str().is_empty() || id.as_str().is_empty() {
                return Err(Error::new("--member must be requirement_id=option_id"));
            }
            if choices.get(&requirement).is_some() {
                let mut message = "duplicate --member for ".to_owned();
                message.append(requirement.as_str());
                return Err(Error { message });
            }
            choices.insert(requirement, id);
            Ok(choices)
        },
    }
}

/// Reads the members that are picked for requirements.
pub fn parse_members(members: &Vec<String>) -> (r: Result<OrderedMap<String, String>, Error>)
    ensures
        outcome(r) == read_members(members.deep_view()),
{
    let ghost all = members.deep_view();
    let mut result: Result<OrderedMap<String, String>, Error> = Ok(OrderedMap::new());
    let mut index: usize = 0;
    assert(all.take(0) =~= Seq::empty());
    assert(outcome(result) =~= read_members(all.take(0)));
    while index < members.len()
        invariant
            index <= members@.len(),
            all == members.deep_view(),
            all.len() == members@.len(),
            outcome(result) == read_members(all.take(index as int)),
        decreases members@.len() - index,
    {
        assert(all.take(index + 1).drop_last() =~= all.take(index as int));
        assert(all[index as int] == members@[index as int]@);
        result = match result {
            Ok(choices) => add_member(choices, &members[index]),
            Err(error) => Err(error),
        };
        index += 1;
    }
    assert(all.take(index as int) =~= all);
    result
}

/// What an optimization found.
pub struct Optimized {
    /// The catalog with manual sections.
    pub dataset: Dataset,
    pub solution: Solution,
    /// The members that were picked.
    pub members: OrderedMap<String, String>,
    pub sections: Vec<ChosenSection>,
}

#[verifier::ext_equal]
pub struct OptimizedView {
    pub dataset: DatasetView,
    pub solution: SolutionView,
    pub members: Seq<(Seq<char>, Seq<char>)>,
    pub sections: Seq<ChosenSectionView>,
}

impl DeepView for Optimized {
    type V = OptimizedView;

    open spec fn deep_view(&self) -> OptimizedView {
        OptimizedView {
            dataset: self.dataset.deep_view(),
            solution: self.solution.deep_view(),
            members: self.members.deep_view(),
            sections: self.sections.deep_view(),
        }
    }
}

/// The best timetable for some subjects, with the picked members. One that is not feasible has no
/// sections.
pub open spec fn optimized(
    base: DatasetView,
    manual: ManualStoreView,
    subjects: Seq<Seq<char>>,
    members: Seq<Seq<char>>,
) -> Result<OptimizedView, Seq<char>> {
    match with_manual(base, manual) {
        Err(fault) => Err(fault),
        Ok(dataset) => match optimum(dataset, subjects) {
            Err(fault) => Err(fault),
            Ok(solution) => match read_members(members) {
                Err(fault) => Err(fault),
                Ok(members) => if solution.status == SolveStatus::OptimalKnown {
                    match sections_chosen(dataset, solution, members) {
                        Err(fault) => Err(fault),
                        Ok(sections) => Ok(OptimizedView { dataset, solution, members, sections }),
                    }
                } else {
                    Ok(OptimizedView { dataset, solution, members, sections: Seq::empty() })
                },
            },
        },
    }
}

/// Finds the best timetable for some subjects.
pub fn optimize_subjects(
    base: &Dataset,
    manual: &ManualStore,
    subjects: &[String],
    members: &Vec<String>,
) -> (r: Result<Optimized, Error>)
    ensures
        outcome(r) == optimized(
            base.deep_view(),
            manual.deep_view(),
            subjects.deep_view(),
            members.deep_view(),
        ),
{
    let dataset = match apply_manual(base, manual) {
        Ok(dataset) => dataset,
        Err(error) => {
            return Err(error);
        },
    };
    let solution = match optimize(&dataset, subjects, None) {
        Ok(solution) => solution,
        Err(error) => {
            return Err(error);
        },
    };
    let members = match parse_members(members) {
        Ok(members) => members,
        Err(error) => {
            return Err(error);
        },
    };
    let sections = if solution.status == SolveStatus::OptimalKnown {
        match actual_sections(&dataset, &solution, &members) {
            Ok(sections) => sections,
            Err(error) => {
                return Err(error);
            },
        }
    } else {
        let none: Vec<ChosenSection> = Vec::new();
        assert(none.deep_view() =~= Seq::empty());
        none
    };
    Ok(Optimized { dataset, solution, members, sections })
}

/// Whether a calendar is written: only where that was asked for and there is a timetable.
pub fn exports(export: bool, status: SolveStatus) -> (r: bool)
    ensures
        r == (export && status == SolveStatus::OptimalKnown),
{
    export && status == SolveStatus::OptimalKnown
}

/// The exit status of an optimization.
pub fn exit_code(status: SolveStatus) -> (r: u8)
    ensures
        r == (if status == SolveStatus::Infeasible {
            2int
        } else {
            0int
        }),
{
    if status == SolveStatus::Infeasible {
        2
    } else {
        0
    }
}

/// A meeting in the report of an optimization.
struct Row {
    weekday: u8,
    start_minute: u16,
    line: String,
}

#[verifier::ext_equal]
pub struct RowView {
    pub weekday: u8,
    pub start_minute: u16,
    pub line: Seq<char>,
}

impl DeepView for Row {
    type V = RowView;

    closed spec fn deep_view(&self) -> RowView {
        RowView { weekday: self.weekday, start_minute: self.start_minute, line: self.line@ }
    }
}

/// The row of a meeting of a section.
pub open spec fn meeting_row(section: ChosenSectionView, m: Meeting) -> RowView {
    RowView {
        weekday: m.weekday,
        start_minute: m.start_minute,
        line: meeting_text(m) + "  "@ + section.course_id + " "@ + section.kind + "  "@
            + section.section.label + "  "@ + section.section.room,
    }
}

/// The rows of the meetings of a section.
pub open spec fn section_rows(section: ChosenSectionView) -> Seq<RowView> {
    Seq::new(
        section.section.meetings.len(),
        |i: int| meeting_row(section, section.section.meetings[i]),
    )
}

/// The rows of all sections.
pub open spec fn all_rows(sections: Seq<ChosenSectionView>) -> Seq<RowView>
    decreases sections.len(),
{
    if sections.len() == 0 {
        Seq::empty()
    } else {
        all_rows(sections.drop_last()) + section_rows(sections.last())
    }
}

/// The order of rows: by weekday, start and text.
pub open spec fn row_le() -> spec_fn(RowView, RowView) -> bool {
    |a: RowView, b: RowView|
        if a.weekday != b.weekday {
            a.weekday < b.weekday
        } else if a.start_minute != b.start_minute {
            a.start_minute < b.start_minute
        } else {
            !text_before(b.line, a.line)
        }
}

/// The rows of the report, in order.
pub open spec fn sorted_rows(sections: Seq<ChosenSectionView>) -> Seq<RowView> {
    stable_sorted(all_rows(sections), row_le())
}

fn row_may_precede(a: &Row, b: &Row) -> (r: bool)
    ensures
        r == row_le()(a.deep_view(), b.deep_view()),
{
    if a.weekday != b.weekday {
        a.weekday < b.weekday
    } else if a.start_minute != b.start_minute {
        a.start_minute < b.start_minute
    } else {
        !b.line.is_before(&a.line)
    }
}

fn push_section_rows(section: &ChosenSection, rows: &mut Vec<Row>)
    ensures
        final(rows).deep_view() == old(rows).deep_view() + section_rows(section.deep_view()),
{
    let ghost before = rows.deep_view();
    let ghost view = section.deep_view();
    let meetings = &section.section.meetings;
    proof {
        lemma_meetings_view(*meetings);
    }
    let mut index: usize = 0;
    assert(rows.deep_view() =~= before + section_rows(view).take(0));
    while index < meetings.len()
        invariant
            index <= meetings@.len(),
            meetings == section.section.meetings,
            view == section.deep_view(),
            view.section.meetings == meetings@,
            rows.deep_view() == before + section_rows(view).take(index as int),
        decreases meetings@.len() - index,
    {
        let ghost so_far = rows.deep_view();
        let m = meetings[index];
        let mut line = m.display();
        line.append("  ");
        line.append(section.course_id.as_str());
        line.append(" ");
        line.append(section.kind.as_str());
        line.append("  ");
        line.append(section.section.label.as_str());
        line.append("  ");
        line.append(section.section.room.as_str());
        let row = Row { weekday: m.weekday, start_minute: m.start_minute, line };
        assert(row.deep_view() =~= section_rows(view)[index as int]);
        rows.push(row);
        assert(rows.deep_view() =~= so_far.push(section_rows(view)[index as int]));
        assert(rows.deep_view() =~= before + section_rows(view).take(index + 1));
        index += 1;
    }
    assert(section_rows(view).take(index as int) =~= section_rows(view));
}

fn report_rows(sections: &Vec<ChosenSection>) -> (r: Vec<Row>)
    ensures
        r.deep_view() == sorted_rows(sections.deep_view()),
{
    let ghost all = sections.deep_view();
    let mut rows: Vec<Row> = Vec::new();
    let mut index: usize = 0;
    assert(all.take(0) =~= Seq::empty());
    assert(rows.deep_view() =~= Seq::empty());
    while index < sections.len()
        invariant
            index <= sections@.len(),
            all == sections.deep_view(),
            all.len() == sections@.len(),
            rows.deep_view() == all_rows(all.take(index as int)),
        decreases sections@.len() - index,
    {
        assert(all.take(index + 1).drop_last() =~= all.take(index as int));
        assert(all[index as int] == sections@[index as int].deep_view());
        push_section_rows(&sections[index], &mut rows);
        index += 1;
    }
    assert(all.take(index as int) =~= all);
    sort_by(rows, row_may_precede, Ghost(row_le()))
}

/// What is said of the members of a choice.
pub open spec fn choice_line(choice: TimeChoiceView) -> Seq<char> {
    choice.requirement_id + ": "@ + decimal(choice.members.len()) + " same-time option(s)"@
}

/// The first line of a report on a timetable.
pub open spec fn score_line(score: Score) -> Seq<char> {
    "Optimal over known supported meetings: "@ + decimal(score.occupied_days as nat)
        + " occupied days, "@ + decimal(score.gap_minutes as nat) + " gap minutes"@
}

/// The report of an optimization.
pub open spec fn report(solution: SolutionView, sections: Seq<ChosenSectionView>) -> Result<
    Seq<Seq<char>>,
    Seq<char>,
> {
    match solution.status {
        SolveStatus::OptimalKnown => match solution.score {
            None => Err("missing optimum score"@),
            Some(score) => Ok(
                seq![score_line(score)] + Seq::new(
                    sorted_rows(sections).len(),
                    |i: int| sorted_rows(sections)[i].line,
                ) + Seq::new(
                    solution.choices.len(),
                    |i: int| choice_line(solution.choices[i]),
                ),
            ),
        },
        SolveStatus::Infeasible => Ok(
            seq![
                "Infeasible: known supported meetings cannot all be selected without conflict."@,
            ],
        ),
        SolveStatus::Cancelled => Ok(seq!["Cancelled: no optimum is claimed."@]),
    }
}

/// The lines that report an optimization.
pub fn report_lines(solution: &Solution, sections: &Vec<ChosenSection>) -> (r: Result<
    Vec<String>,
    Error,
>)
    ensures
        outcome(r) == report(solution.deep_view(), sections.deep_view()),
{
    let ghost view = solution.deep_view();
    let mut lines: Vec<String> = Vec::new();
    match solution.status {
        SolveStatus::Infeasible => {
            lines.push(
                "Infeasible: known supported meetings cannot all be selected without conflict.".to_owned(),
            );
            assert(lines.deep_view() =~= seq![
                "Infeasible: known supported meetings cannot all be selected without conflict."@,
            ]);
            return Ok(lines);
        },
        SolveStatus::Cancelled => {
            lines.push("Cancelled: no optimum is claimed.".to_owned());
            assert(lines.deep_view() =~= seq!["Cancelled: no optimum is claimed."@]);
            return Ok(lines);
        },
        SolveStatus::OptimalKnown => {},
    }
    let score = match &solution.score {
        Some(score) => score,
        None => {
            return Err(Error::new("missing optimum score"));
        },
    };
    let mut first = "Optimal over known supported meetings: ".to_owned();
    first.append(decimal_text(score.occupied_days as u64).as_str());
    first.append(" occupied days, ");
    first.append(decimal_text(score.gap_minutes as u64).as_str());
    first.append(" gap minutes");
    lines.push(first);
    let rows = report_rows(sections);
    let ghost sorted = rows.deep_view();
    let ghost head = lines.deep_view();
    assert(head =~= seq![first@]);
    let mut index: usize = 0;
    assert(lines.deep_view() =~= head + Seq::new(0, |i: int| sorted[i].line));
    while index < rows.len()
        invariant
            index <= rows@.len(),
            sorted == rows.deep_view(),
            sorted.len() == rows@.len(),
            lines.deep_view() == head + Seq::new(index as nat, |i: int| sorted[i].line),
        decreases rows@.len() - index,
    {
        let ghost so_far = lines.deep_view();
        assert(sorted[index as int] == rows@[index as int].deep_view());
        lines.push(rows[index].line.clone());
        assert(lines.deep_view() =~= so_far.push(sorted[index as int].line));
        assert(lines.deep_view() =~= head + Seq::new((index + 1) as nat, |i: int| sorted[i].line));
        index += 1;
    }
    let ghost body = lines.deep_view();
    let choices = &solution.choices;
    let ghost all = choices.deep_view();
    index = 0;
    assert(lines.deep_view() =~= body + Seq::new(0, |i: int| choice_line(all[i])));
    while index < choices.len()
        invariant
            index <= choices@.len(),
            all == choices.deep_view(),
            all.len() == choices@.len(),
            lines.deep_view() == body + Seq::new(index as nat, |i: int| choice_line(all[i])),
        decreases choices@.len() - index,
    {
        let ghost so_far = lines.deep_view();
        assert(all[index as int] == choices@[index as int].deep_view());
        assert(all[index as int].members.len() == choices@[index as int].members@.len());
        let mut line = choices[index].requirement_id.clone();
        line.append(": ");
        line.append(decimal_text(choices[index].members.len() as u64).as_str());
        line.append(" same-time option(s)");
        lines.push(line);
        assert(lines.deep_view() =~= so_far.push(choice_line(all[index as int])));
        assert(lines.deep_view() =~= body + Seq::new(
            (index + 1) as nat,
            |i: int| choice_line(all[i]),
        ));
        index += 1;
    }
    assert(lines.deep_view() =~= report(view, sections.deep_view())->Ok_0);
    Ok(lines)
}

/// What is said of an export.
pub fn export_line(event_count: usize, path: &str) -> (r: String)
    ensures
        r@ == "Exported "@ + decimal(event_count as nat) + " events to "@ + path@,
{
    let mut line = "Exported ".to_owned();
    line.append(decimal_text(event_count as u64).as_str());
    line.append(" events to ");
    line.append(path);
    line
}

/// A manual entry in the list of manual entries.
pub fn manual_line(entry: &ManualEntry) -> (r: String)
    ensures
        r@ == entry.option.id@ + " ["@ + (if entry.enabled {
            "on"@
        } else {
            "off"@
        }) + "] "@ + entry.term_id@ + " "@ + entry.course_id@ + " "@ + entry.kind@ + " "@
            + entry.option.label@,
{
    let mut line = entry.option.id.clone();
    line.append(" [");
    line.append(
        if entry.enabled {
            "on"
        } else {
            "off"
        },
    );
    line.append("] ");
    line.append(entry.term_id.as_str());
    line.append(" ");
    line.append(entry.course_id.as_str());
    line.append(" ");
    line.append(entry.kind.as_str());
    line.append(" ");
    line.append(entry.option.label.as_str());
    line
}

/// A manual section to add, or to put in the place of the one with an id.
pub struct Addition {
    pub course: String,
    pub kind: String,
    pub label: String,
    pub room: String,
    pub meetings: String,
    pub id: Option<String>,
    pub start_date: Option<Date>,
    pub end_date: Option<Date>,
}

#[verifier::ext_equal]
pub struct AdditionView {
    pub course: Seq<char>,
    pub kind: Seq<char>,
    pub label: Seq<char>,
    pub room: Seq<char>,
    pub meetings: Seq<char>,
    pub id: Option<Seq<char>>,
    pub start_date: Option<Date>,
    pub end_date: Option<Date>,
}

impl DeepView for Addition {
    type V = AdditionView;

    open spec fn deep_view(&self) -> AdditionView {
        AdditionView {
            course: self.course@,
            kind: self.kind@,
            label: self.label@,
            room: self.room@,
            meetings: self.meetings@,
            id: self.id.deep_view(),
            start_date: self.start_date,
            end_date: self.end_date,
        }
    }
}

/// The manual sections with an entry, which cannot change the subject or the component of the one
/// whose place it takes, and is enabled as that one was.
pub open spec fn placed(entries: Seq<ManualEntryView>, entry: ManualEntryView) -> Result<
    Seq<ManualEntryView>,
    Seq<char>,
> {
    match entry_with(entries, entry.term_id, entry.option.id) {
        None => Ok(with_entry(entries, entry)),
        Some(existing) => if existing.course_id != entry.course_id || existing.kind != entry.kind {
            Err(
                "editing cannot change a manual section's subject or component; add a new entry instead"@,
            )
        } else {
            Ok(
                with_entry(entries, ManualEntryView { enabled: existing.enabled, ..entry }),
            )
        },
    }
}

/// The manual sections after an addition, and the id of what was added.
pub open spec fn added(
    base: DatasetView,
    store: ManualStoreView,
    addition: AdditionView,
) -> Result<(ManualStoreView, Seq<char>), Seq<char>> {
    if addition.id is Some && entry_with(store.entries, base.term_id, addition.id->0) is None {
        Err("manual section not found in this term: "@ + addition.id->0)
    } else {
        match read_meetings(addition.meetings) {
            Err(fault) => Err(fault),
            Ok(meetings) => match entry_of(
                base,
                addition.course,
                addition.kind,
                addition.label,
                addition.room,
                with_dates(meetings, addition.start_date, addition.end_date),
                addition.id,
            ) {
                Err(fault) => Err(fault),
                Ok(entry) => match placed(store.entries, entry) {
                    Err(fault) => Err(fault),
                    Ok(entries) => checked(
                        base,
                        ManualStoreView { version: store.version, entries },
                        entry.option.id,
                    ),
                },
            },
        }
    }
}

/// Changed manual sections, which have to fit the catalog.
pub open spec fn checked(base: DatasetView, store: ManualStoreView, id: Seq<char>) -> Result<
    (ManualStoreView, Seq<char>),
    Seq<char>,
> {
    match with_manual(base, store) {
        Err(fault) => Err(fault),
        Ok(_) => Ok((store, id)),
    }
}

fn check_store(base: &Dataset, store: ManualStore, id: String) -> (r: Result<
    (ManualStore, String),
    Error,
>)
    ensures
        outcome(r) == checked(base.deep_view(), store.deep_view(), id@),
{
    match apply_manual(base, &store) {
        Ok(_) => Ok((store, id)),
        Err(error) => Err(error),
    }
}

fn place_entry(entries: &Vec<ManualEntry>, entry: ManualEntry) -> (r: Result<
    Vec<ManualEntry>,
    Error,
>)
    ensures
        outcome(r) == placed(entries.deep_view(), entry.deep_view()),
{
    let ghost view = entry.deep_view();
    let mut entry = entry;
    let at = find_entry(entries, &entry.term_id, &entry.option.id);
    assert(entries.deep_view().len() == entries@.len());
    if at < entries.len() {
        let existing = &entries[at];
        assert(entries.deep_view()[at as int] == existing.deep_view());
        if existing.course_id != entry.course_id || existing.kind != entry.kind {
            return Err(
                Error::new(
                    "editing cannot change a manual section's subject or component; add a new entry instead",
                ),
            );
        }
        entry.enabled = existing.enabled;
        assert(entry.deep_view() =~= ManualEntryView { enabled: existing.enabled, ..view });
    }
    Ok(upsert_entry(entries, entry))
}

/// Adds a manual section, or replaces one. What comes back has to be written.
pub fn add_manual(base: &Dataset, store: &ManualStore, addition: &Addition) -> (r: Result<
    (ManualStore, String),
    Error,
>)
    ensures
        outcome(r) == added(base.deep_view(), store.deep_view(), addition.deep_view()),
{
    assert(store.entries.deep_view().len() == store.entries@.len());
    match &addition.id {
        Some(id) => {
            let at = find_entry(&store.entries, &base.term_id, id);
            if at == store.entries.len() {
                let mut message = "manual section not found in this term: ".to_owned();
                message.append(id.as_str());
                return Err(Error { message });
            }
        },
        None => {},
    }
    let meetings = match parse_meetings(addition.meetings.as_str()) {
        Ok(meetings) => meetings,
        Err(error) => {
            return Err(error);
        },
    };
    proof {
        lemma_meetings_view(meetings);
    }
    let id = match &addition.id {
        Some(id) => Some(id.as_str()),
        None => None,
    };
    let entry = match manual_entry(
        base,
        addition.course.as_str(),
        addition.kind.as_str(),
        addition.label.as_str(),
        addition.room.as_str(),
        dated_meetings(&meetings, addition.start_date, addition.end_date),
        id,
    ) {
        Ok(entry) => entry,
        Err(error) => {
            return Err(error);
        },
    };
    let added_id = entry.option.id.clone();
    match place_entry(&store.entries, entry) {
        Ok(entries) => check_store(
            base,
            ManualStore { version: store.version, entries },
            added_id,
        ),
        Err(error) => Err(error),
    }
}

/// The manual sections with the one of an id enabled or disabled.
pub open spec fn switched(
    base: DatasetView,
    store: ManualStoreView,
    id: Seq<char>,
    enabled: bool,
) -> Result<(ManualStoreView, Seq<char>), Seq<char>> {
    let at = entry_position(store.entries, base.term_id, id);
    if at < store.entries.len() {
        checked(
            base,
            ManualStoreView {
                version: store.version,
                entries: store.entries.update(
                    at,
                    ManualEntryView { enabled, ..store.entries[at] },
                ),
            },
            id,
        )
    } else {
        Err("manual section not found in this term"@)
    }
}

/// Enables or disables a manual section. What comes back has to be written.
pub fn switch_manual(base: &Dataset, store: &ManualStore, id: &String, enabled: bool) -> (r: Result<
    (ManualStore, String),
    Error,
>)
    ensures
        outcome(r) == switched(base.deep_view(), store.deep_view(), id@, enabled),
{
    let ghost all = store.entries.deep_view();
    let at = find_entry(&store.entries, &base.term_id, id);
    assert(all.len() == store.entries@.len());
    if at == store.entries.len() {
        return Err(Error::new("manual section not found in this term"));
    }
    let mut entries = duplicate_all(&store.entries);
    let mut entry = store.entries[at].duplicate();
    let ghost before = entry.deep_view();
    assert(before == all[at as int]);
    entry.enabled = enabled;
    assert(entry.deep_view() =~= ManualEntryView { enabled, ..before });
    assert(entries.deep_view().len() == entries@.len());
    entries.set(at, entry);
    assert(entries.deep_view() =~= all.update(at as int, entry.deep_view()));
    check_store(base, ManualStore { version: store.version, entries }, id.clone())
}

} // verus!
