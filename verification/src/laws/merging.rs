//! How manual sections change a catalog, and how they are edited.
use vstd::prelude::*;
use crate::adapter::{limit_reason, DateLimitView};
use crate::date::{date_of, read_default_date, Date};
use crate::error::Error;
use crate::laws::catalog::lemma_pushed;
use crate::laws::commands::occurs;
use crate::laws::export::{is_pe, lemma_is_pe};
use crate::laws::keeping::{can_be_stored, lemma_storable};
use crate::laws::manual::{
    is_as_asked, lemma_as_asked, lemma_meets_as_written, lemma_pe_bounds, lemma_some_date,
    meets_as_written, some_date,
};
use crate::laws::notation::says_meeting;
use crate::laws::timetable::placeable;
use crate::laws::{
    adds, law_manual_sections_are_an_overlay, lemma_entry_position, lemma_kind_position,
};
use crate::model::{
    internal_calendar_overlap, meeting_valid, CourseView, DatasetView, ManualEntryView,
    ManualStoreView, Meeting, RequirementView, SectionOptionView, SolutionView, TermCalendarView,
};
use crate::optimizer::{id_le, lemma_sorted_elements};
use crate::order::{
    ascending, keys_of, law_lookup_after_insert, lemma_filtered, lemma_lookup, lookup,
};
use crate::session::{
    all_storable, saved_fault, storable_id, terms_fault, SavedSelectionView, SelectionSession,
    SelectionSessionView, Sessions,
};
use crate::storage::{
    entry_position, kind_position, merged_all, merged_course, merged_notices, other_than,
    read_meetings, supported, with_component, with_manual,
};
use crate::text::{decimal, joined, split, trimmed};
use crate::tui::state::{
    after_save, announcement, edited_entry, new_form, pe_requirement, read_field_date,
    toggled_store, with_dates, AppStateView,
};
use crate::tui::{
    entry_form, fitted_viewport, meeting_texts, page_step, ManualFormView, ScrollViewport,
};

verus! {

proof fn lemma_supported(kind: Seq<char>, option: SectionOptionView)
    requires
        forall|k: int|
            0 <= k < option.meetings.len() ==> meeting_valid(#[trigger] option.meetings[k]),
    ensures
        supported(kind, option) <==> placeable(kind, option),
{
    lemma_is_pe(kind);
    lemma_some_date(option.meetings);
    if option.meetings.len() > 0 {
        lemma_pe_bounds(kind, option.meetings);
    }
    if !is_pe(kind) && !some_date(option.meetings) {
        assert forall|k: int| 0 <= k < option.meetings.len() implies option.meetings[k].start_date
            is None && (#[trigger] option.meetings[k]).end_date is None by {}
    }
    if !is_pe(kind) && some_date(option.meetings) {
        let k = choose|k: int|
            0 <= k < option.meetings.len() && ((
            #[trigger] option.meetings[k]).start_date is Some || option.meetings[k].end_date
                is Some);
        assert(!(option.meetings[k].start_date is None && option.meetings[k].end_date is None));
    }
}

/// A course with a manual section keeps its number, its title and its other components. Its
/// component has times after that exactly if it had before or the section can be placed; that none
/// were known is then no longer said, and that the section is left out is.
pub proof fn law_manual_section_changes_its_component(
    course: CourseView,
    calendar: Option<TermCalendarView>,
    entry: ManualEntryView,
    notice: Seq<char>,
)
    requires
        merged_course(course, calendar, entry) is Ok,
        forall|k: int|
            0 <= k < entry.option.meetings.len() ==> meeting_valid(
                #[trigger] entry.option.meetings[k],
            ),
    ensures
        ({
            let after = merged_course(course, calendar, entry)->Ok_0;
            let known = exists|i: int|
                0 <= i < course.requirements.len() && (#[trigger] course.requirements[i]).kind
                    == entry.kind;
            let resolved = entry.kind + ": no known meeting times"@;
            let partial = entry.kind
                + ": date-limited manual options are preserved but omitted from weekly optimization"@;
            let fits = placeable(entry.kind, entry.option);
            &&& after.id == course.id
            &&& after.title == course.title
            &&& after.requirements.len() == course.requirements.len() + (if known {
                0int
            } else {
                1int
            })
            &&& !known ==> entry.kind == "lecture"@ || entry.kind == "recitation"@ || entry.kind
                == "lab"@ || entry.kind == "design"@ || entry.kind == "pe"@
            &&& forall|i: int|
                0 <= i < course.requirements.len() ==> {
                    let new = after.requirements[i];
                    let old = #[trigger] course.requirements[i];
                    &&& new.id == old.id && new.kind == old.kind
                    &&& old.kind != entry.kind ==> new == old
                }
            &&& exists|at: int|
                {
                    let new = #[trigger] after.requirements[at];
                    &&& 0 <= at < after.requirements.len()
                    &&& new.kind == entry.kind
                    &&& new.id == entry.course_id + "/"@ + entry.kind
                    &&& new.options.contains(entry.option)
                    &&& new.has_unknown_times <==> !fits && (at >= course.requirements.len()
                        || course.requirements[at].has_unknown_times)
                }
            &&& after.notices.contains(notice) <==> (course.notices.contains(notice) && !(fits
                && notice == resolved)) || (entry.option.unsupported_reason is Some && notice
                == partial)
        }),
{
    let after = merged_course(course, calendar, entry)->Ok_0;
    let at = kind_position(course.requirements, entry.kind);
    let reqs = with_component(course, entry)->Ok_0;
    lemma_kind_position(course.requirements, entry.kind);
    lemma_kind_known(course.requirements, entry.kind);
    lemma_supported(entry.kind, entry.option);
    lemma_merged_notices(course.notices, entry, notice);
    let grown = reqs[at].options.push(entry.option);
    lemma_sorted_elements(grown, id_le());
    assert(grown[grown.len() - 1] == entry.option);
    assert(after.requirements[at].options.contains(entry.option));
    assert forall|i: int| 0 <= i < course.requirements.len() implies {
        let new = after.requirements[i];
        let old = #[trigger] course.requirements[i];
        &&& new.id == old.id && new.kind == old.kind
        &&& old.kind != entry.kind ==> new == old
    } by {
        assert(reqs[i] == course.requirements[i]);
    }
}

proof fn lemma_kind_known(requirements: Seq<RequirementView>, kind: Seq<char>)
    ensures
        kind_position(requirements, kind) < requirements.len() <==> exists|i: int|
            0 <= i < requirements.len() && (#[trigger] requirements[i]).kind == kind,
        kind_position(requirements, kind) < requirements.len() ==> requirements[kind_position(
            requirements,
            kind,
        )].kind == kind,
    decreases requirements.len(),
{
    if requirements.len() > 0 && requirements[0].kind != kind {
        let rest = requirements.drop_first();
        lemma_kind_known(rest, kind);
        lemma_kind_position(rest, kind);
        if exists|i: int| 0 <= i < rest.len() && (#[trigger] rest[i]).kind == kind {
            let i = choose|i: int| 0 <= i < rest.len() && (#[trigger] rest[i]).kind == kind;
            assert(requirements[i + 1].kind == kind);
        }
        if exists|i: int| 0 <= i < requirements.len() && (#[trigger] requirements[i]).kind == kind {
            let i = choose|i: int|
                0 <= i < requirements.len() && (#[trigger] requirements[i]).kind == kind;
            assert(rest[i - 1].kind == kind);
        }
    } else if requirements.len() > 0 {
        assert(requirements[0].kind == kind);
    }
}

proof fn lemma_merged_notices(notices: Seq<Seq<char>>, entry: ManualEntryView, notice: Seq<char>)
    ensures
        ({
            let resolved = entry.kind + ": no known meeting times"@;
            let partial = entry.kind
                + ": date-limited manual options are preserved but omitted from weekly optimization"@;
            merged_notices(notices, entry).contains(notice) <==> (notices.contains(notice) && !(
            supported(entry.kind, entry.option) && notice == resolved)) || (
            entry.option.unsupported_reason is Some && notice == partial)
        }),
{
    let resolved = entry.kind + ": no known meeting times"@;
    let partial = entry.kind
        + ": date-limited manual options are preserved but omitted from weekly optimization"@;
    lemma_filtered(notices, other_than(resolved), notice);
    let kept = if supported(entry.kind, entry.option) {
        notices.filter(other_than(resolved))
    } else {
        notices
    };
    lemma_pushed(kept, partial, notice);
}

proof fn lemma_titles(
    courses: Seq<(Seq<char>, CourseView)>,
    calendar: Option<TermCalendarView>,
    term_id: Seq<char>,
    entries: Seq<ManualEntryView>,
    id: Seq<char>,
)
    requires
        ascending::<String>(keys_of(courses)),
        merged_all(courses, calendar, term_id, entries) is Ok,
    ensures
        ({
            let after = merged_all(courses, calendar, term_id, entries)->Ok_0;
            &&& ascending::<String>(keys_of(after))
            &&& lookup(after, id) is Some <==> lookup(courses, id) is Some
            &&& lookup(courses, id) is Some ==> lookup(after, id)->0.id == lookup(courses, id)->0.id
                && lookup(after, id)->0.title == lookup(courses, id)->0.title
        }),
    decreases entries.len(),
{
    if entries.len() > 0 {
        let rest = entries.drop_last();
        let entry = entries.last();
        let known = merged_all(courses, calendar, term_id, rest)->Ok_0;
        lemma_titles(courses, calendar, term_id, rest, id);
        if entry.term_id == term_id && entry.enabled {
            let course = lookup(known, entry.course_id)->0;
            let changed = merged_course(course, calendar, entry)->Ok_0;
            law_lookup_after_insert::<String, CourseView>(known, entry.course_id, changed, id);
            crate::order::lemma_map_insert::<String, CourseView>(known, entry.course_id, changed);
        }
    }
}

/// Manual sections leave the courses of a catalog with their numbers and titles, add none, and are
/// all of courses that it has; the rest of the catalog stays as it is.
pub proof fn law_manual_sections_keep_courses(
    base: DatasetView,
    store: ManualStoreView,
    id: Seq<char>,
    k: int,
)
    requires
        ascending::<String>(keys_of(base.courses)),
        with_manual(base, store) is Ok,
    ensures
        ({
            let after = with_manual(base, store)->Ok_0;
            &&& after.notices == base.notices
            &&& after.last_updated == base.last_updated
            &&& lookup(after.courses, id) is Some <==> lookup(base.courses, id) is Some
            &&& lookup(base.courses, id) is Some ==> lookup(after.courses, id)->0.id == lookup(
                base.courses,
                id,
            )->0.id && lookup(after.courses, id)->0.title == lookup(base.courses, id)->0.title
            &&& 0 <= k < store.entries.len() && store.entries[k].enabled && store.entries[k].term_id
                == base.term_id ==> lookup(base.courses, store.entries[k].course_id) is Some
        }),
{
    let courses = merged_all(base.courses, base.calendar, base.term_id, store.entries)->Ok_0;
    lemma_titles(base.courses, base.calendar, base.term_id, store.entries, id);
    crate::laws::lemma_tidy_lookup(courses, id);
    if 0 <= k < store.entries.len() && store.entries[k].enabled && store.entries[k].term_id
        == base.term_id {
        let entry = store.entries[k];
        let requirement_id = entry.course_id + "/"@ + entry.kind;
        assert(adds(
            store.entries[k],
            base.term_id,
            entry.course_id,
            requirement_id,
            entry.option,
        ));
        law_manual_sections_are_an_overlay(
            base,
            store,
            entry.course_id,
            requirement_id,
            entry.option,
        );
        lemma_lookup(base.courses, entry.course_id);
        lemma_lookup(with_manual(base, store)->Ok_0.courses, entry.course_id);
    }
}

proof fn lemma_terms(terms: Seq<(Seq<char>, SavedSelectionView)>)
    ensures
        terms_fault(terms) is None <==> forall|i: int|
            0 <= i < terms.len() ==> saved_fault(
                (#[trigger] terms[i]).0,
                terms[i].1,
            ) is None,
    decreases terms.len(),
{
    if terms.len() > 0 {
        let rest = terms.drop_last();
        let at = terms.len() - 1;
        lemma_terms(rest);
        assert(terms[at] == terms.last());
        assert(forall|i: int| 0 <= i < rest.len() ==> #[trigger] rest[i] == terms[i]);
        if terms_fault(terms) is None {
            assert forall|i: int| 0 <= i < terms.len() implies saved_fault(
                (#[trigger] terms[i]).0,
                terms[i].1,
            ) is None by {
                if i < at {
                    assert(saved_fault(rest[i].0, rest[i].1) is None);
                }
            }
        }
        if forall|i: int|
            0 <= i < terms.len() ==> saved_fault((#[trigger] terms[i]).0, terms[i].1) is None {
            assert forall|i: int| 0 <= i < rest.len() implies saved_fault(
                (#[trigger] rest[i]).0,
                rest[i].1,
            ) is None by {
                assert(saved_fault(terms[i].0, terms[i].1) is None);
            }
            assert(saved_fault(terms[at].0, terms[at].1) is None);
        }
    }
}

/// A stored selection is in order: its term and its subjects may be stored, and it has a time.
pub open spec fn is_kept_well(term: Seq<char>, saved: SavedSelectionView) -> bool {
    &&& can_be_stored(term)
    &&& forall|i: int| 0 <= i < saved.selected.len() ==> can_be_stored(#[trigger] saved.selected[i])
    &&& crate::date::rfc3339_instant(saved.saved_at) is Ok
}

/// A session file is taken over exactly if its version is 1 and all its selections are in order;
/// what is then stored is what it holds. Without a file nothing is stored.
pub proof fn law_session_files_are_taken_over(
    disk: Option<(Sessions, Vec<u8>)>,
    r: Result<SelectionSession, Error>,
)
    requires
        call_ensures(SelectionSession::restore, (disk,), r),
    ensures
        disk is None ==> r is Ok && (r->Ok_0).deep_view().sessions.terms.len() == 0,
        disk is Some ==> ({
            let view = (disk->0).0.deep_view();
            &&& r is Ok <==> view.version == 1 && forall|i: int|
                0 <= i < view.terms.len() ==> is_kept_well(
                    (#[trigger] view.terms[i]).0,
                    view.terms[i].1,
                )
            &&& r is Ok ==> (r->Ok_0).deep_view().sessions == view
        }),
{
    if disk is Some {
        let view = (disk->0).0.deep_view();
        lemma_terms(view.terms);
        assert forall|i: int| 0 <= i < view.terms.len() implies (saved_fault(
            (#[trigger] view.terms[i]).0,
            view.terms[i].1,
        ) is None <==> is_kept_well(view.terms[i].0, view.terms[i].1)) by {
            let ids = view.terms[i].1.selected;
            lemma_storable(view.terms[i].0);
            assert forall|k: int| 0 <= k < ids.len() implies storable_id(#[trigger] ids[k])
                == can_be_stored(ids[k]) by {
                lemma_storable(ids[k]);
            }
            assert(all_storable(ids) <==> forall|k: int|
                0 <= k < ids.len() ==> can_be_stored(#[trigger] ids[k]));
        }
    }
}

/// The editor of a manual section starts with what the section has.
pub proof fn law_editor_starts_with_the_section(entry: ManualEntryView)
    ensures
        ({
            let form = entry_form(entry);
            &&& form.entry_id == Some(entry.option.id)
            &&& form.enabled == entry.enabled
            &&& form.course_id == entry.course_id
            &&& form.kind == entry.kind
            &&& form.label == entry.option.label
            &&& form.room == entry.option.room
            &&& form.meetings == joined(meeting_texts(entry.option.meetings), ";"@)
            &&& form.error is None
        }),
{
}

/// A date field is the date that it shows, and none where it is blank.
pub open spec fn field_shows(value: Seq<char>, date: Option<Date>) -> bool {
    if trimmed(value).len() == 0 {
        date is None
    } else {
        date is Some && read_default_date(trimmed(value)) is Ok && date->0 == date_of(
            read_default_date(trimmed(value))->Ok_0,
        )
    }
}

/// What the editor describes is a section with what its fields say, without the blanks around it.
/// An edited section keeps its id and whether it is enabled.
pub proof fn law_editor_describes_a_section(
    base: DatasetView,
    entries: Seq<ManualEntryView>,
    form: ManualFormView,
)
    requires
        edited_entry(base, entries, form) is Ok,
    ensures
        ({
            let entry = edited_entry(base, entries, form)->Ok_0;
            &&& is_as_asked(
                base,
                trimmed(form.course_id),
                trimmed(form.kind),
                trimmed(form.label),
                trimmed(form.room),
                form.entry_id,
                entry,
            )
            &&& exists|start: Option<Date>, end: Option<Date>|
                #![trigger field_shows(form.start_date, start), field_shows(form.end_date, end)]
                field_shows(form.start_date, start) && field_shows(form.end_date, end)
                    && meets_as_written(entry.option.meetings, form.meetings, start, end)
            &&& form.entry_id is None ==> entry.enabled == form.enabled
        }),
{
    let entry = edited_entry(base, entries, form)->Ok_0;
    let start = read_field_date(form.start_date, "start date"@)->Ok_0;
    let end = read_field_date(form.end_date, "end date"@)->Ok_0;
    let read = read_meetings(form.meetings)->Ok_0;
    let dated = with_dates(read, start, end);
    lemma_as_asked(
        base,
        trimmed(form.course_id),
        trimmed(form.kind),
        trimmed(form.label),
        trimmed(form.room),
        dated,
        form.entry_id,
    );
    assert(field_shows(form.start_date, start) && field_shows(form.end_date, end));
    assert(meets_as_written(entry.option.meetings, form.meetings, start, end)) by {
        assert forall|m: Meeting| #[trigger]
            entry.option.meetings.contains(m) <==> exists|k: int|
                0 <= k < split(form.meetings, ';').len() && says_meeting(
                    #[trigger] split(form.meetings, ';')[k],
                    Meeting { start_date: None, end_date: None, ..m },
                ) && m.start_date == start && m.end_date == end by {
            lemma_meets_as_written(form.meetings, start, end, m);
        }
    }
}

/// Switching the section under the cursor on or off changes just that.
pub proof fn law_toggling_changes_one_section(s: AppStateView, index: int, k: int)
    requires
        0 <= index < s.manual.entries.len(),
        0 <= k < s.manual.entries.len(),
    ensures
        ({
            let after = toggled_store(s, index);
            &&& after.version == s.manual.version
            &&& after.entries.len() == s.manual.entries.len()
            &&& k != index ==> after.entries[k] == s.manual.entries[k]
            &&& after.entries[index].enabled != s.manual.entries[index].enabled
            &&& after.entries[index].option == s.manual.entries[index].option
        }),
{
}

/// The announcement of a timetable tells its days and its minutes of waiting.
pub proof fn law_announcement_tells_the_score(solution: SolutionView)
    requires
        solution.status is OptimalKnown,
        solution.score is Some,
    ensures
        occurs(
            decimal(solution.score->0.occupied_days as nat) + " occupied day(s), "@ + decimal(
                solution.score->0.gap_minutes as nat,
            ) + " gap minute(s)"@,
            announcement(solution),
        ),
{
    reveal_strlit(" gap minute(s).");
    reveal_strlit(" gap minute(s)");
    reveal_strlit(".");
    let part = decimal(solution.score->0.occupied_days as nat) + " occupied day(s), "@ + decimal(
        solution.score->0.gap_minutes as nat,
    ) + " gap minute(s)"@;
    assert(" gap minute(s)."@ =~= " gap minute(s)"@ + "."@);
    assert(announcement(solution) =~= "Optimal: "@ + part + "."@);
}

/// A course that takes a part of the term says why it cannot be placed: with its dates where some are
/// known.
pub proof fn law_partial_courses_say_why(limit: DateLimitView)
    ensures
        !limit.unsupported ==> limit_reason(limit) is None,
        limit.unsupported && (limit.start is Some || limit.end is Some) ==> limit_reason(limit)
            == Some("date-limited API section: partial-term optimization is not supported"@),
        limit.unsupported && limit.start is None && limit.end is None ==> limit_reason(limit)
            == Some("partial-term API section: weekly optimization is not supported"@),
{
}

/// A manual section is refused exactly if its component is unknown and none of the five kinds, if the
/// component is not that of its course, if a section there has its id, or if it is physical
/// education whose meetings get in each other's way in the term.
pub proof fn law_manual_sections_are_refused(
    course: CourseView,
    calendar: Option<TermCalendarView>,
    entry: ManualEntryView,
)
    ensures
        ({
            let at = kind_position(course.requirements, entry.kind);
            let known = at < course.requirements.len();
            let own = course.requirements[at];
            merged_course(course, calendar, entry) is Ok <==> {
                &&& known || entry.kind == "lecture"@ || entry.kind == "recitation"@ || entry.kind
                    == "lab"@ || entry.kind == "design"@ || entry.kind == "pe"@
                &&& known ==> own.kind == entry.kind && own.id == entry.course_id + "/"@
                    + entry.kind && forall|i: int|
                    0 <= i < own.options.len() ==> (#[trigger] own.options[i]).id
                        != entry.option.id
                &&& is_pe(entry.kind) && calendar is Some ==> !internal_calendar_overlap(
                    calendar->0,
                    entry.option.meetings,
                )
            }
        }),
{
    lemma_is_pe(entry.kind);
    lemma_kind_position(course.requirements, entry.kind);
    lemma_kind_known(course.requirements, entry.kind);
}

/// An edited section is there under its id, of the same course and the same kind, and stays switched
/// on or off.
pub proof fn law_edited_section_is_there(
    base: DatasetView,
    entries: Seq<ManualEntryView>,
    form: ManualFormView,
) -> (at: int)
    requires
        edited_entry(base, entries, form) is Ok,
        form.entry_id is Some,
    ensures
        0 <= at < entries.len(),
        entries[at].term_id == base.term_id,
        entries[at].option.id == form.entry_id->0,
        entries[at].course_id == trimmed(form.course_id),
        entries[at].kind == trimmed(form.kind),
        edited_entry(base, entries, form)->Ok_0.enabled == entries[at].enabled,
{
    let at = entry_position(entries, base.term_id, form.entry_id->0);
    lemma_entry_position(entries, base.term_id, form.entry_id->0);
    at
}

/// After the selection was stored nothing is to be stored any more; after it could not be, that is
/// said. A state that stores nothing stays as it is.
pub proof fn law_storing_is_acknowledged(
    s: AppStateView,
    session: Option<SelectionSessionView>,
    result: Result<(), Seq<char>>,
)
    ensures
        ({
            let after = after_save(s, session, result);
            &&& s.selection_session is None ==> after == s
            &&& s.selection_session is Some ==> {
                &&& !after.save_due
                &&& after.selection_saved <==> result is Ok
                &&& after.selection_session == session
                &&& result is Err ==> after.selection_notice == Some(
                    "Selections NOT saved: "@ + result->Err_0,
                )
                &&& after.selected == s.selected
                &&& after.solution == s.solution
            }
        }),
{
}

/// The editor for a new section is that of the course: for physical education where the course has
/// it, else for a lecture.
pub proof fn law_new_section_is_of_the_course(base: DatasetView, course_id: Seq<char>)
    ensures
        ({
            let form = new_form(base, course_id);
            let pe = lookup(base.courses, course_id) is Some && exists|i: int|
                0 <= i < lookup(base.courses, course_id)->0.requirements.len() && (
                #[trigger] lookup(base.courses, course_id)->0.requirements[i]).kind == "pe"@;
            &&& form.course_id == course_id
            &&& form.entry_id is None
            &&& form.enabled
            &&& pe ==> form.kind == "pe"@
            &&& !pe ==> form.kind == "lecture"@ && form.start_date.len() == 0
                && form.end_date.len() == 0
            &&& form.meetings.len() == 0
        }),
{
    if lookup(base.courses, course_id) is Some {
        lemma_pe_requirement(lookup(base.courses, course_id)->0.requirements);
    }
}

proof fn lemma_pe_requirement(requirements: Seq<RequirementView>)
    ensures
        pe_requirement(requirements) is Some <==> exists|i: int|
            0 <= i < requirements.len() && (#[trigger] requirements[i]).kind == "pe"@,
    decreases requirements.len(),
{
    if requirements.len() > 0 && requirements[0].kind != "pe"@ {
        let rest = requirements.drop_first();
        lemma_pe_requirement(rest);
        if exists|i: int| 0 <= i < rest.len() && (#[trigger] rest[i]).kind == "pe"@ {
            let i = choose|i: int| 0 <= i < rest.len() && (#[trigger] rest[i]).kind == "pe"@;
            assert(requirements[i + 1].kind == "pe"@);
        }
        if exists|i: int| 0 <= i < requirements.len() && (#[trigger] requirements[i]).kind
            == "pe"@ {
            let i = choose|i: int|
                0 <= i < requirements.len() && (#[trigger] requirements[i]).kind == "pe"@;
            assert(rest[i - 1].kind == "pe"@);
        }
    } else if requirements.len() > 0 {
        assert(requirements[0].kind == "pe"@);
    }
}

/// A viewport shows lines that there are: the last page begins where just the visible lines are left,
/// and what is not drawn yet begins where it is to.
pub proof fn law_viewports_fit_their_lines(
    viewport: ScrollViewport,
    lines: int,
    height: u16,
    start: int,
)
    requires
        0 <= lines <= u16::MAX,
        0 <= start,
    ensures
        ({
            let after = fitted_viewport(viewport, lines, height, start);
            let wanted = if viewport.height == 0 {
                start
            } else {
                viewport.offset as int
            };
            &&& after.height == height
            &&& lines <= height ==> after.max_offset == 0
            &&& lines > height ==> after.max_offset == lines - height
            &&& after.offset <= after.max_offset
            &&& wanted <= after.max_offset ==> after.offset == wanted
        }),
{
}

/// A page is one line less than is visible, and at least one line.
pub proof fn law_pages_overlap_by_a_line(height: int)
    ensures
        page_step(height) >= 1,
        height >= 2 ==> page_step(height) == height - 1,
{
}

} // verus!
