//! What is said of what is left out, and how a timetable is reported.
use std::sync::atomic::AtomicBool;
use vstd::prelude::*;
use crate::cli::{all_rows, meeting_row, report_lines, row_le, section_rows, sorted_rows, RowView};
use crate::determinism::{causes, lemma_notices, lemma_options_notices, lemma_sum_contains};
use crate::error::Error;
use crate::laws::export::{has_both_dates, is_pe, lemma_is_pe};
use crate::laws::manual::{lemma_pe_bounds, lemma_some_date, some_date};
use crate::laws::timetable::{can_be_met, lemma_can_be_met, lemma_meetings_valid, meetings_valid};
use crate::model::{
    any_date_limited, bounded_pe, clock, day_name, meeting_valid, pe_kind, ChosenSection,
    ChosenSectionView, Meeting, Requirement, RequirementView, SectionOptionView, Solution,
    SolutionView, TermCalendar, TermCalendarView,
};
use crate::optimizer::{
    canonical, closing_notices, final_notices, lemma_sorted_elements, meeting_le, opening_notices,
    option_notices, options_notices, pe_notice, problem_fault, search_notices, solve,
    solve_with_calendar, solved, truncated_notice,
};
use crate::order::{law_stable_sorted, lemma_distinct_ascending, Rank};
use crate::text::{decimal, text_before};

verus! {

/// Something is said of a section that is left out of the search.
pub open spec fn said_of_section(
    requirement: RequirementView,
    option: SectionOptionView,
    notice: Seq<char>,
) -> bool {
    let start = requirement.id + ": option "@ + option.id;
    ||| option.meetings.len() == 0 && notice == start + " has unknown/TBA meeting times"@
    ||| option.unsupported_reason is Some && notice == start + " is unsupported: "@
        + option.unsupported_reason->0
    ||| !is_pe(requirement.kind) && some_date(option.meetings) && notice == start
        + " has date-limited meetings; partial-term optimization is not supported"@
    ||| is_pe(requirement.kind) && option.meetings.len() > 0 && option.unsupported_reason is None
        && (exists|k: int|
        0 <= k < option.meetings.len() && !has_both_dates(#[trigger] option.meetings[k])) && notice
        == start + " is PE and requires complete valid start/end date bounds"@
}

/// Something is said of a requirement or of one of its sections.
pub open spec fn said_of(requirement: RequirementView, notice: Seq<char>) -> bool {
    ||| requirement.has_unknown_times && notice == requirement.id
        + ": some options have unknown/TBA meeting times and are not optimized"@
    ||| exists|o: int|
        0 <= o < requirement.options.len() && said_of_section(
            requirement,
            #[trigger] requirement.options[o],
            notice,
        )
    ||| !can_be_met(requirement) && notice == requirement.id
        + ": no known supported meeting options; left unresolved"@
}

proof fn lemma_single<T>(x: T, y: T)
    ensures
        seq![x].contains(y) <==> x == y,
{
    assert(seq![x][0] == x);
    if seq![x].contains(y) {
        let k = choose|k: int| 0 <= k < seq![x].len() && seq![x][k] == y;
        assert(k == 0);
    }
}

#[verifier::spinoff_prover]
proof fn lemma_option_notices(
    requirement: RequirementView,
    option: SectionOptionView,
    notice: Seq<char>,
)
    requires
        forall|k: int|
            0 <= k < option.meetings.len() ==> meeting_valid(#[trigger] option.meetings[k]),
    ensures
        option_notices(requirement.id, requirement.kind, option).contains(notice)
            <==> said_of_section(requirement, option, notice),
{
    let kind = requirement.kind;
    let meetings = canonical(option.meetings);
    let start = requirement.id + ": option "@ + option.id;
    lemma_sorted_elements(option.meetings, meeting_le());
    lemma_is_pe(kind);
    lemma_same_dates(kind, option.meetings);
    let none = Seq::<Seq<char>>::empty();
    let a = start + " has unknown/TBA meeting times"@;
    let b = start + " is unsupported: "@ + option.unsupported_reason->0;
    let c = start + " has date-limited meetings; partial-term optimization is not supported"@;
    let d = start + " is PE and requires complete valid start/end date bounds"@;
    let unknown = if meetings.len() == 0 {
        seq![a]
    } else {
        none
    };
    let unsupported = if option.unsupported_reason is Some {
        seq![b]
    } else {
        none
    };
    let partial = if any_date_limited(meetings) && !bounded_pe(kind, meetings) && !pe_kind(kind) {
        seq![c]
    } else {
        none
    };
    let unbounded = if pe_kind(kind) && meetings.len() > 0 && option.unsupported_reason is None
        && !bounded_pe(kind, meetings) {
        seq![d]
    } else {
        none
    };
    lemma_single(a, notice);
    lemma_single(b, notice);
    lemma_single(c, notice);
    lemma_single(d, notice);
    lemma_sum_contains(unknown, unsupported, notice);
    lemma_sum_contains(unknown + unsupported, partial, notice);
    lemma_sum_contains(unknown + unsupported + partial, unbounded, notice);
    assert(option_notices(requirement.id, kind, option) == unknown + unsupported + partial
        + unbounded);
    assert(!none.contains(notice));
}

proof fn lemma_same_dates(kind: Seq<char>, all: Seq<Meeting>)
    requires
        forall|k: int| 0 <= k < all.len() ==> meeting_valid(#[trigger] all[k]),
    ensures
        any_date_limited(canonical(all)) <==> some_date(all),
        all.len() > 0 ==> (bounded_pe(kind, canonical(all)) <==> is_pe(kind) && forall|k: int|
            0 <= k < all.len() ==> has_both_dates(#[trigger] all[k])),
        canonical(all).len() == all.len(),
{
    let sorted = canonical(all);
    lemma_sorted_elements(all, meeting_le());
    lemma_some_date(sorted);
    assert forall|k: int| 0 <= k < sorted.len() implies meeting_valid(#[trigger] sorted[k]) by {
        assert(sorted.contains(sorted[k]));
        assert(all.contains(sorted[k]));
        let j = choose|j: int| 0 <= j < all.len() && all[j] == sorted[k];
        assert(meeting_valid(all[j]));
    }
    if sorted.len() > 0 {
        lemma_pe_bounds(kind, sorted);
    }
    if some_date(sorted) {
        let k = choose|k: int|
            0 <= k < sorted.len() && ((#[trigger] sorted[k]).start_date is Some
                || sorted[k].end_date is Some);
        assert(sorted.contains(sorted[k]));
        let j = choose|j: int| 0 <= j < all.len() && all[j] == sorted[k];
        assert(all[j].start_date is Some || all[j].end_date is Some);
    }
    if some_date(all) {
        let k = choose|k: int|
            0 <= k < all.len() && ((#[trigger] all[k]).start_date is Some
                || all[k].end_date is Some);
        assert(all.contains(all[k]));
        assert(sorted.contains(all[k]));
        let j = choose|j: int| 0 <= j < sorted.len() && sorted[j] == all[k];
        assert(sorted[j].start_date is Some || sorted[j].end_date is Some);
    }
    if forall|k: int| 0 <= k < sorted.len() ==> has_both_dates(#[trigger] sorted[k]) {
        assert forall|k: int| 0 <= k < all.len() implies has_both_dates(#[trigger] all[k]) by {
            assert(all.contains(all[k]));
            assert(sorted.contains(all[k]));
            let j = choose|j: int| 0 <= j < sorted.len() && sorted[j] == all[k];
            assert(has_both_dates(sorted[j]));
        }
    }
    if forall|k: int| 0 <= k < all.len() ==> has_both_dates(#[trigger] all[k]) {
        assert forall|k: int| 0 <= k < sorted.len() implies has_both_dates(#[trigger] sorted[k]) by {
            assert(sorted.contains(sorted[k]));
            let j = choose|j: int| 0 <= j < all.len() && all[j] == sorted[k];
            assert(has_both_dates(all[j]));
        }
    }
}

proof fn lemma_causes(requirements: Seq<RequirementView>, i: int, notice: Seq<char>)
    requires
        meetings_valid(requirements),
        0 <= i < requirements.len(),
    ensures
        causes(requirements[i], notice) <==> said_of(requirements[i], notice),
{
    let requirement = requirements[i];
    let all = requirement.options;
    let first = requirement.id
        + ": some options have unknown/TBA meeting times and are not optimized"@;
    let unknown = if requirement.has_unknown_times {
        seq![first]
    } else {
        Seq::empty()
    };
    lemma_single(first, notice);
    lemma_can_be_met(requirements, i);
    lemma_sum_contains(
        unknown,
        options_notices(requirement.id, requirement.kind, all),
        notice,
    );
    lemma_options_notices(requirement.id, requirement.kind, all, notice);
    assert forall|o: int| 0 <= o < all.len() implies (option_notices(
        requirement.id,
        requirement.kind,
        #[trigger] all[o],
    ).contains(notice) <==> said_of_section(requirement, all[o], notice)) by {
        assert forall|k: int| 0 <= k < all[o].meetings.len() implies meeting_valid(
            #[trigger] all[o].meetings[k],
        ) by {
            assert(meeting_valid(requirements[i].options[o].meetings[k]));
        }
        lemma_option_notices(requirement, all[o], notice);
    }
    if exists|o: SectionOptionView|
        all.contains(o) && #[trigger] option_notices(
            requirement.id,
            requirement.kind,
            o,
        ).contains(notice) {
        let option = choose|o: SectionOptionView|
            all.contains(o) && #[trigger] option_notices(
                requirement.id,
                requirement.kind,
                o,
            ).contains(notice);
        let o = choose|o: int| 0 <= o < all.len() && all[o] == option;
        assert(said_of_section(requirement, all[o], notice));
    }
    if exists|o: int|
        0 <= o < all.len() && said_of_section(requirement, #[trigger] all[o], notice) {
        let o = choose|o: int|
            0 <= o < all.len() && said_of_section(requirement, #[trigger] all[o], notice);
        assert(all.contains(all[o]));
        assert(option_notices(requirement.id, requirement.kind, all[o]).contains(notice));
    }
}

/// What an answer says: of each requirement and section what there is to say, and nothing else but
/// that physical education was chosen or that timetables are not listed.
pub open spec fn tells_all(requirements: Seq<RequirementView>, s: SolutionView) -> bool {
    &&& forall|i: int, notice: Seq<char>|
        0 <= i < requirements.len() && #[trigger] said_of(requirements[i], notice)
            ==> s.unresolved.contains(notice)
    &&& forall|notice: Seq<char>| #[trigger]
        s.unresolved.contains(notice) ==> {
            ||| notice
                == "selected bounded PE meetings use a combined weekly template for score, and date bounds constrain conflicts and calendar export"@
            ||| notice
                == "only the first 1000 equally optimal timetables are listed; the others are omitted"@
            ||| exists|i: int|
                0 <= i < requirements.len() && said_of(#[trigger] requirements[i], notice)
        }
}

pub(crate) proof fn lemma_tells_all(
    requirements: Seq<RequirementView>,
    calendar: Option<TermCalendarView>,
)
    requires
        problem_fault(requirements, calendar) is None,
    ensures
        tells_all(requirements, solved(requirements, calendar)->Ok_0),
{
    let s = solved(requirements, calendar)->Ok_0;
    let notices = search_notices(requirements);
    lemma_meetings_valid(requirements, calendar);
    let all = opening_notices(requirements) + closing_notices(requirements);
    lemma_distinct_ascending::<String>(all);
    assert forall|i: int, notice: Seq<char>|
        0 <= i < requirements.len() && #[trigger] said_of(
            requirements[i],
            notice,
        ) implies notices.contains(notice) by {
        lemma_causes(requirements, i, notice);
        assert(causes(requirements[i], notice));
        lemma_notices(requirements, notice);
    }
    assert forall|notice: Seq<char>| #[trigger] notices.contains(notice) implies exists|i: int|
        0 <= i < requirements.len() && said_of(#[trigger] requirements[i], notice) by {
        lemma_notices(requirements, notice);
        let i = choose|i: int|
            0 <= i < requirements.len() && causes(#[trigger] requirements[i], notice);
        lemma_causes(requirements, i, notice);
    }
    assert forall|notice: Seq<char>, pe: bool, truncated: bool| #[trigger]
        final_notices(notices, pe, truncated).contains(notice) implies notices.contains(notice)
        || notice == pe_notice() || notice == truncated_notice() by {
        lemma_final(notices, pe, truncated, notice);
    }
    assert forall|notice: Seq<char>, pe: bool, truncated: bool|
        notices.contains(notice) implies #[trigger] final_notices(notices, pe, truncated).contains(
        notice,
    ) by {
        lemma_final(notices, pe, truncated, notice);
    }
}

proof fn lemma_final(notices: Seq<Seq<char>>, pe: bool, truncated: bool, notice: Seq<char>)
    ensures
        final_notices(notices, pe, truncated).contains(notice) <==> notices.contains(notice) || (pe
            && notice == pe_notice()) || (truncated && notice == truncated_notice()),
{
    let first = if pe {
        seq![pe_notice()]
    } else {
        Seq::empty()
    };
    let second = if truncated {
        seq![truncated_notice()]
    } else {
        Seq::empty()
    };
    lemma_single(pe_notice(), notice);
    lemma_single(truncated_notice(), notice);
    lemma_sum_contains(first, second, notice);
    lemma_sum_contains(notices, first + second, notice);
    lemma_distinct_ascending::<String>(notices + (first + second));
}

/// A search that is not told to stop says everything of what it leaves out, and nothing else.
pub proof fn law_search_tells_what_is_left_out(
    requirements: &[Requirement],
    cancel: Option<&AtomicBool>,
    r: Result<Solution, Error>,
)
    requires
        call_ensures(solve, (requirements, cancel), r),
        cancel is None,
        r is Ok,
    ensures
        tells_all(requirements.deep_view(), (r->Ok_0).deep_view()),
{
    lemma_tells_all(requirements.deep_view(), None);
}

/// A search over a term that is not told to stop says everything of what it leaves out, and nothing
/// else.
pub proof fn law_search_of_a_term_tells_what_is_left_out(
    requirements: &[Requirement],
    calendar: &TermCalendar,
    cancel: Option<&AtomicBool>,
    r: Result<Solution, Error>,
)
    requires
        call_ensures(solve_with_calendar, (requirements, calendar, cancel), r),
        cancel is None,
        r is Ok,
    ensures
        tells_all(requirements.deep_view(), (r->Ok_0).deep_view()),
{
    lemma_tells_all(requirements.deep_view(), Some(calendar.deep_view()));
}

/// The line of a meeting of a section: its weekday, its times, and what it is and where.
pub open spec fn is_line(section: ChosenSectionView, m: Meeting, line: Seq<char>) -> bool {
    line == day_name(m.weekday as int) + " "@ + clock(m.start_minute as int) + "-"@ + clock(
        m.end_minute as int,
    ) + "  "@ + section.course_id + " "@ + section.kind + "  "@ + section.section.label + "  "@
        + section.section.room
}

/// A row is that of a meeting of a section.
pub open spec fn is_row(sections: Seq<ChosenSectionView>, row: RowView) -> bool {
    exists|i: int, k: int|
        0 <= i < sections.len() && 0 <= k < sections[i].section.meetings.len() && row
            == meeting_row(sections[i], #[trigger] sections[i].section.meetings[k])
}

proof fn lemma_all_rows(sections: Seq<ChosenSectionView>, row: RowView)
    ensures
        all_rows(sections).contains(row) <==> is_row(sections, row),
    decreases sections.len(),
{
    if sections.len() > 0 {
        let rest = sections.drop_last();
        let last = sections.last();
        let n = rest.len() as int;
        lemma_all_rows(rest, row);
        lemma_sum_contains(all_rows(rest), section_rows(last), row);
        assert(sections[n] == last);
        assert(forall|i: int| 0 <= i < n ==> #[trigger] rest[i] == sections[i]);
        if is_row(rest, row) {
            let (i, k) = choose|i: int, k: int|
                0 <= i < rest.len() && 0 <= k < rest[i].section.meetings.len() && row
                    == meeting_row(rest[i], #[trigger] rest[i].section.meetings[k]);
            assert(row == meeting_row(sections[i], sections[i].section.meetings[k]));
        }
        if section_rows(last).contains(row) {
            let k = choose|k: int| 0 <= k < section_rows(last).len() && section_rows(last)[k] == row;
            assert(row == meeting_row(sections[n], sections[n].section.meetings[k]));
        }
        if is_row(sections, row) {
            let (i, k) = choose|i: int, k: int|
                0 <= i < sections.len() && 0 <= k < sections[i].section.meetings.len() && row
                    == meeting_row(sections[i], #[trigger] sections[i].section.meetings[k]);
            if i < n {
                assert(row == meeting_row(rest[i], rest[i].section.meetings[k]));
            } else {
                assert(section_rows(last)[k] == row);
            }
        }
    }
}

proof fn lemma_row_order()
    ensures
        forall|a: RowView, b: RowView| #![trigger row_le()(a, b)] row_le()(a, b) || row_le()(b, a),
        forall|a: RowView, b: RowView, c: RowView|
            #![trigger row_le()(a, b), row_le()(b, c)]
            row_le()(a, b) && row_le()(b, c) ==> row_le()(a, c),
{
    assert forall|a: RowView, b: RowView| #![trigger row_le()(a, b)] row_le()(a, b) || row_le()(
        b,
        a,
    ) by {
        <String as Rank>::before_total(a.line, b.line);
        if text_before(a.line, b.line) && text_before(b.line, a.line) {
            <String as Rank>::before_transitive(a.line, b.line, a.line);
            <String as Rank>::before_irreflexive(a.line);
        }
    }
    assert forall|a: RowView, b: RowView, c: RowView|
        #![trigger row_le()(a, b), row_le()(b, c)]
        row_le()(a, b) && row_le()(b, c) implies row_le()(a, c) by {
        if a.weekday == c.weekday && a.start_minute == c.start_minute && a.weekday == b.weekday
            && a.start_minute == b.start_minute && text_before(c.line, a.line) {
            <String as Rank>::before_total(a.line, b.line);
            if a.line != b.line {
                <String as Rank>::before_transitive(c.line, a.line, b.line);
            }
        }
    }
}

/// The report of a timetable gives its score, then each meeting of its sections in the order of the
/// week, then the number of sections of each choice. What is no timetable is reported in one line.
pub proof fn law_report_tells_the_timetable(
    solution: &Solution,
    sections: &Vec<ChosenSection>,
    r: Result<Vec<String>, Error>,
) -> (rows: Seq<RowView>)
    requires
        call_ensures(report_lines, (solution, sections), r),
        r is Ok,
    ensures
        ({
            let s = solution.deep_view();
            let lines = (r->Ok_0).deep_view();
            &&& s.status is Infeasible || s.status is Cancelled ==> lines.len() == 1
            &&& s.status is Infeasible ==> lines[0]
                == "Infeasible: known supported meetings cannot all be selected without conflict."@
            &&& s.status is Cancelled ==> lines[0] == "Cancelled: no optimum is claimed."@
            &&& s.status is OptimalKnown ==> {
                &&& s.score is Some
                &&& lines.len() == 1 + rows.len() + s.choices.len()
                &&& lines[0] == "Optimal over known supported meetings: "@ + decimal(
                    s.score->0.occupied_days as nat,
                ) + " occupied days, "@ + decimal(s.score->0.gap_minutes as nat) + " gap minutes"@
                &&& forall|k: int|
                    0 <= k < rows.len() ==> lines[1 + k] == (#[trigger] rows[k]).line && is_row(
                        sections.deep_view(),
                        rows[k],
                    )
                &&& forall|i: int, j: int|
                    #![trigger rows[i], rows[j]]
                    0 <= i < j < rows.len() ==> rows[i].weekday < rows[j].weekday || (
                    rows[i].weekday == rows[j].weekday && rows[i].start_minute
                        <= rows[j].start_minute)
                &&& forall|row: RowView| #[trigger]
                    is_row(sections.deep_view(), row) ==> rows.contains(row)
                &&& forall|k: int|
                    0 <= k < s.choices.len() ==> lines[1 + rows.len() + k] == (
                    #[trigger] s.choices[k]).requirement_id + ": "@ + decimal(
                        s.choices[k].members.len(),
                    ) + " same-time option(s)"@
            }
        }),
{
    let s = solution.deep_view();
    let views = sections.deep_view();
    let rows = sorted_rows(views);
    let lines = (r->Ok_0).deep_view();
    lemma_sorted_elements(all_rows(views), row_le());
    lemma_row_order();
    law_stable_sorted(all_rows(views), row_le());
    assert forall|row: RowView| #[trigger] is_row(views, row) <==> rows.contains(row) by {
        lemma_all_rows(views, row);
    }
    if s.status is OptimalKnown {
        assert forall|k: int| 0 <= k < rows.len() implies lines[1 + k] == (#[trigger] rows[k]).line
            && is_row(views, rows[k]) by {
            assert(rows.contains(rows[k]));
        }
        assert forall|i: int, j: int|
            #![trigger rows[i], rows[j]]
            0 <= i < j < rows.len() implies rows[i].weekday < rows[j].weekday || (rows[i].weekday
            == rows[j].weekday && rows[i].start_minute <= rows[j].start_minute) by {
            assert(row_le()(rows[i], rows[j]));
        }
    }
    rows
}

/// The row of a meeting has its weekday, its start and its line.
pub proof fn law_rows_are_lines_of_meetings(section: ChosenSectionView, m: Meeting)
    ensures
        meeting_row(section, m).weekday == m.weekday,
        meeting_row(section, m).start_minute == m.start_minute,
        is_line(section, m, meeting_row(section, m).line),
{
    let line = meeting_row(section, m).line;
    assert(line =~= day_name(m.weekday as int) + " "@ + clock(m.start_minute as int) + "-"@ + clock(
        m.end_minute as int,
    ) + "  "@ + section.course_id + " "@ + section.kind + "  "@ + section.section.label + "  "@
        + section.section.room);
}

} // verus!
