//! The state of the terminal interface.
use vstd::prelude::*;
use crate::app::{calendar_export, calendar_report, entry_of, manual_entry};
use crate::calendar::{ExportReport, ExportReportView};
use crate::date::{date_of, lemma_date_of, read_default_date, Date};
use crate::error::{outcome, Error};
use crate::model::{
    CourseView, Dataset, DatasetView, ManualEntry, ManualEntryView, ManualStore, ManualStoreView,
    Meeting, RequirementView, SectionOptionView, Solution, SolutionView, SolveStatus, TimeChoice,
};
use crate::optimizer::lemma_meetings_view;
use crate::order::{
    distinct_ascending, duplicate_all, keys_of, lookup, map_insert, set_insert, set_remove,
    Duplicate, OrderedMap, OrderedSet,
};
use crate::session::{
    contents, save_plan, selection_of, SelectionSession, SelectionSessionView, Sessions,
};
use crate::storage::{
    apply_manual, entry_with, find_entry, parse_meetings, read_meetings, upsert_entry, with_entry,
    with_manual,
};
use crate::text::{
    contains_part, decimal, decimal_text, eq_ignore_case, holds, join, joined, lower_case,
    lowercase, same_ignoring_case, shortened, split_words, trim, trimmed, without_last, words,
};
use crate::tui::timetable::{
    blocks_of, lemma_blocks_wf, move_to_day, other_day, timetable_blocks, Block, Navigation,
};
use crate::tui::{
    at_next_field, blank_form, clamp_index, clamped, date_or_blank, entry_form, field_value, moved,
    moved_index, moved_offset, page_step, with_value, AppAction, Area, ExportSummary,
    ExportSummaryView, Focus, Key, KeyCode, ManualForm, ManualFormView, Mouse, ScrollViewport,
};

verus! {

/// Everything that the terminal interface shows and remembers.
pub struct AppState {
    /// The catalog without manual sections.
    pub base: Dataset,
    pub selection_session: Option<SelectionSession>,
    /// Whether the selection has to be stored before it is shown.
    pub save_due: bool,
    /// Whether the selection was stored the last time.
    pub selection_saved: bool,
    /// Stored subjects that the catalog does not have.
    pub unavailable_selected: OrderedSet<String>,
    pub selection_notice: Option<String>,
    /// The catalog with manual sections.
    pub dataset: Dataset,
    pub manual: ManualStore,
    pub data_dir: String,
    pub output: String,
    pub query: String,
    pub filtered: Vec<String>,
    pub cursor: usize,
    pub selected: OrderedSet<String>,
    pub focus: Focus,
    pub focus_regions: Vec<(Area, Focus)>,
    pub selected_cursor: usize,
    pub manual_cursor: usize,
    pub result_cursor: usize,
    pub timetable_viewport: ScrollViewport,
    pub timetable_navigation: Navigation,
    /// The position of the shown timetable among the equally good ones.
    pub alternative: usize,
    pub editor: Option<ManualForm>,
    pub solution: Option<Solution>,
    pub actual_members: OrderedMap<String, String>,
    pub optimize_running: bool,
    pub status: String,
    pub export: Option<ExportSummary>,
    pub should_quit: bool,
    pub show_help: bool,
    pub generation: u64,
}

#[verifier::ext_equal]
pub struct AppStateView {
    pub base: DatasetView,
    pub selection_session: Option<SelectionSessionView>,
    pub save_due: bool,
    pub selection_saved: bool,
    pub unavailable_selected: Seq<Seq<char>>,
    pub selection_notice: Option<Seq<char>>,
    pub dataset: DatasetView,
    pub manual: ManualStoreView,
    pub data_dir: Seq<char>,
    pub output: Seq<char>,
    pub query: Seq<char>,
    pub filtered: Seq<Seq<char>>,
    pub cursor: int,
    pub selected: Seq<Seq<char>>,
    pub focus: Focus,
    pub focus_regions: Seq<(Area, Focus)>,
    pub selected_cursor: int,
    pub manual_cursor: int,
    pub result_cursor: int,
    pub timetable_viewport: ScrollViewport,
    pub timetable_navigation: Navigation,
    pub alternative: int,
    pub editor: Option<ManualFormView>,
    pub solution: Option<SolutionView>,
    pub actual_members: Seq<(Seq<char>, Seq<char>)>,
    pub optimize_running: bool,
    pub status: Seq<char>,
    pub export: Option<ExportSummaryView>,
    pub should_quit: bool,
    pub show_help: bool,
    pub generation: u64,
}

impl DeepView for AppState {
    type V = AppStateView;

    open spec fn deep_view(&self) -> AppStateView {
        AppStateView {
            base: self.base.deep_view(),
            selection_session: self.selection_session.deep_view(),
            save_due: self.save_due,
            selection_saved: self.selection_saved,
            unavailable_selected: self.unavailable_selected.deep_view(),
            selection_notice: self.selection_notice.deep_view(),
            dataset: self.dataset.deep_view(),
            manual: self.manual.deep_view(),
            data_dir: self.data_dir@,
            output: self.output@,
            query: self.query@,
            filtered: self.filtered.deep_view(),
            cursor: self.cursor as int,
            selected: self.selected.deep_view(),
            focus: self.focus,
            focus_regions: self.focus_regions@,
            selected_cursor: self.selected_cursor as int,
            manual_cursor: self.manual_cursor as int,
            result_cursor: self.result_cursor as int,
            timetable_viewport: self.timetable_viewport,
            timetable_navigation: self.timetable_navigation,
            alternative: self.alternative as int,
            editor: self.editor.deep_view(),
            solution: self.solution.deep_view(),
            actual_members: self.actual_members.deep_view(),
            optimize_running: self.optimize_running,
            status: self.status@,
            export: self.export.deep_view(),
            should_quit: self.should_quit,
            show_help: self.show_help,
            generation: self.generation,
        }
    }
}

/// Whether a course matches all words of a search.
pub open spec fn course_matches(terms: Seq<Seq<char>>, id: Seq<char>, title: Seq<char>) -> bool {
    let text = lower_case(id) + " "@ + lower_case(title);
    forall|i: int| 0 <= i < terms.len() ==> holds(text, #[trigger] terms[i])
}

/// The courses that match all words of a search, in order.
pub open spec fn courses_matching(
    courses: Seq<(Seq<char>, CourseView)>,
    terms: Seq<Seq<char>>,
) -> Seq<Seq<char>>
    decreases courses.len(),
{
    if courses.len() == 0 {
        Seq::empty()
    } else {
        let rest = courses_matching(courses.drop_last(), terms);
        let last = courses.last();
        if course_matches(terms, last.0, last.1.title) {
            rest.push(last.0)
        } else {
            rest
        }
    }
}

/// The positions of the entries of a term.
pub open spec fn entries_of_term(entries: Seq<ManualEntryView>, term_id: Seq<char>) -> Seq<int>
    decreases entries.len(),
{
    if entries.len() == 0 {
        Seq::empty()
    } else {
        let rest = entries_of_term(entries.drop_last(), term_id);
        if entries.last().term_id == term_id {
            rest.push(entries.len() - 1)
        } else {
            rest
        }
    }
}

/// The number of choices of the solution.
pub open spec fn choice_count(s: AppStateView) -> int {
    match s.solution {
        Some(solution) => solution.choices.len() as int,
        None => 0,
    }
}

/// The state with its cursors within their lists.
pub open spec fn with_cursors_clamped(s: AppStateView) -> AppStateView {
    AppStateView {
        cursor: clamped(s.cursor, s.filtered.len() as int),
        selected_cursor: clamped(s.selected_cursor, s.selected.len() as int),
        manual_cursor: clamped(
            s.manual_cursor,
            entries_of_term(s.manual.entries, s.base.term_id).len() as int,
        ),
        result_cursor: clamped(s.result_cursor, choice_count(s)),
        ..s
    }
}

/// The state with the subjects that match its query.
pub open spec fn refiltered(s: AppStateView) -> AppStateView {
    with_cursors_clamped(
        AppStateView {
            filtered: courses_matching(s.base.courses, words(lower_case(s.query))),
            ..s
        },
    )
}

/// A viewport that was not drawn yet.
pub open spec fn fresh_viewport() -> ScrollViewport {
    ScrollViewport { offset: 0, max_offset: 0, height: 0 }
}

/// The state after the selection or the manual sections changed: everything that was found for
/// the previous ones is gone, and the selection has to be stored.
pub open spec fn invalidated(s: AppStateView, message: Seq<char>) -> AppStateView {
    with_cursors_clamped(
        AppStateView {
            save_due: s.save_due || s.selection_session is Some,
            generation: (if s.generation == u64::MAX {
                0
            } else {
                s.generation + 1
            }) as u64,
            timetable_viewport: fresh_viewport(),
            timetable_navigation: Navigation::Alternatives,
            alternative: 0,
            solution: None,
            actual_members: Seq::empty(),
            export: None,
            optimize_running: false,
            status: message,
            ..s
        },
    )
}

/// The subject under the cursor.
pub open spec fn subject_at_cursor(s: AppStateView) -> Option<Seq<char>> {
    if 0 <= s.cursor < s.filtered.len() {
        Some(s.filtered[s.cursor])
    } else {
        None
    }
}

/// The selected subject under its cursor.
pub open spec fn selected_at_cursor(s: AppStateView) -> Option<Seq<char>> {
    if 0 <= s.selected_cursor < s.selected.len() {
        Some(s.selected[s.selected_cursor])
    } else {
        None
    }
}

/// The block of the timetable that is picked out: its weekday, start and end.
pub open spec fn block_at(s: AppStateView) -> Option<(u8, u16, u16)> {
    match (s.solution, s.timetable_navigation) {
        (Some(solution), Navigation::Blocks(position)) | (
            Some(solution),
            Navigation::Members(position),
        ) => {
            let blocks = blocks_of(solution.choices);
            if blocks.len() > 0 {
                let block = blocks[clamped(position as int, blocks.len() as int)];
                Some((block.weekday, block.start_minute, block.end_minute))
            } else {
                None
            }
        },
        _ => None,
    }
}

/// The state after the subject under the cursor was selected or removed.
pub open spec fn toggled_subject(s: AppStateView) -> AppStateView {
    match subject_at_cursor(s) {
        None => s,
        Some(id) => invalidated(
            AppStateView {
                selected: if s.selected.contains(id) {
                    set_remove::<String>(s.selected, id)
                } else {
                    set_insert::<String>(s.selected, id)
                },
                ..s
            },
            "Selection changed. Optimizing automatically."@,
        ),
    }
}

/// The state after the selected subject under its cursor was removed.
pub open spec fn removed_selected(s: AppStateView) -> AppStateView {
    match selected_at_cursor(s) {
        None => s,
        Some(id) => invalidated(
            AppStateView { selected: set_remove::<String>(s.selected, id), ..s },
            "Selection changed. Optimizing automatically."@,
        ),
    }
}

/// The manual entry under the cursor.
pub open spec fn manual_at_cursor(s: AppStateView) -> Option<int> {
    let visible = entries_of_term(s.manual.entries, s.base.term_id);
    if 0 <= s.manual_cursor < visible.len() {
        Some(visible[s.manual_cursor])
    } else {
        None
    }
}

/// The subject for which a new manual section is opened.
pub open spec fn subject_to_edit(s: AppStateView) -> Seq<char> {
    if s.focus == Focus::Subjects && subject_at_cursor(s) is Some {
        subject_at_cursor(s)->0
    } else if s.focus == Focus::Selected && selected_at_cursor(s) is Some {
        selected_at_cursor(s)->0
    } else if s.selected.len() > 0 {
        s.selected[0]
    } else if subject_at_cursor(s) is Some {
        subject_at_cursor(s)->0
    } else if s.base.courses.len() > 0 {
        s.base.courses[0].0
    } else {
        Seq::empty()
    }
}

/// The first requirement that is physical education.
pub open spec fn pe_requirement(requirements: Seq<RequirementView>) -> Option<RequirementView>
    decreases requirements.len(),
{
    if requirements.len() == 0 {
        None
    } else if requirements[0].kind == "pe"@ {
        Some(requirements[0])
    } else {
        pe_requirement(requirements.drop_first())
    }
}

/// The first meeting of the sections.
pub open spec fn first_meeting(options: Seq<SectionOptionView>) -> Option<Meeting>
    decreases options.len(),
{
    if options.len() == 0 {
        None
    } else if options[0].meetings.len() > 0 {
        Some(options[0].meetings[0])
    } else {
        first_meeting(options.drop_first())
    }
}

/// The editor for a new manual section: physical education starts with the published dates.
pub open spec fn new_form(base: DatasetView, course_id: Seq<char>) -> ManualFormView {
    let blank = blank_form(course_id);
    match lookup(base.courses, course_id) {
        None => blank,
        Some(course) => match pe_requirement(course.requirements) {
            None => blank,
            Some(requirement) => match first_meeting(requirement.options) {
                None => ManualFormView { kind: "pe"@, ..blank },
                Some(meeting) => ManualFormView {
                    kind: "pe"@,
                    start_date: date_or_blank(meeting.start_date),
                    end_date: date_or_blank(meeting.end_date),
                    ..blank
                },
            },
        },
    }
}

/// The state with the editor opened for a new manual section.
pub open spec fn adding_manual(s: AppStateView) -> AppStateView {
    let course = subject_to_edit(s);
    AppStateView {
        editor: Some(new_form(s.base, course)),
        status: "Manual editor opened for "@ + course + "."@,
        ..s
    }
}

/// The state with the editor opened for the manual section under the cursor.
pub open spec fn editing_manual(s: AppStateView) -> AppStateView {
    match manual_at_cursor(s) {
        None => adding_manual(s),
        Some(index) => AppStateView {
            editor: Some(entry_form(s.manual.entries[index])),
            status: "Editing manual entry "@ + s.manual.entries[index].option.id + "."@,
            ..s
        },
    }
}

impl AppState {
    pub fn base(&self) -> (r: &Dataset)
        ensures
            r.deep_view() == self.deep_view().base,
    {
        &self.base
    }

    pub fn selected_subjects(&self) -> (r: Vec<String>)
        ensures
            r.deep_view() == self.deep_view().selected,
    {
        duplicate_all(self.selected.items())
    }

    pub fn current_subject(&self) -> (r: Option<&str>)
        ensures
            r.deep_view() == subject_at_cursor(self.deep_view()),
    {
        assert(self.filtered.deep_view().len() == self.filtered@.len());
        if self.cursor < self.filtered.len() {
            assert(self.filtered.deep_view()[self.cursor as int]
                == self.filtered@[self.cursor as int]@);
            Some(self.filtered[self.cursor].as_str())
        } else {
            None
        }
    }

    pub fn current_selected(&self) -> (r: Option<&str>)
        ensures
            r.deep_view() == selected_at_cursor(self.deep_view()),
    {
        let items = self.selected.items();
        assert(items.deep_view().len() == items@.len());
        if self.selected_cursor < items.len() {
            assert(items.deep_view()[self.selected_cursor as int]
                == items@[self.selected_cursor as int]@);
            Some(items[self.selected_cursor].as_str())
        } else {
            None
        }
    }

    pub(crate) fn visible_entries(&self) -> (r: Vec<usize>)
        ensures
            r@.len() == entries_of_term(
                self.deep_view().manual.entries,
                self.deep_view().base.term_id,
            ).len(),
            forall|i: int|
                0 <= i < r@.len() ==> #[trigger] r@[i] == entries_of_term(
                    self.deep_view().manual.entries,
                    self.deep_view().base.term_id,
                )[i] && r@[i] < self.manual.entries@.len(),
    {
        let entries = &self.manual.entries;
        let ghost all = entries.deep_view();
        let ghost term = self.base.term_id@;
        let mut visible: Vec<usize> = Vec::new();
        let mut index: usize = 0;
        assert(all.take(0) =~= Seq::empty());
        while index < entries.len()
            invariant
                index <= entries@.len(),
                all == entries.deep_view(),
                term == self.base.term_id@,
                visible@.len() == entries_of_term(all.take(index as int), term).len(),
                forall|i: int|
                    0 <= i < visible@.len() ==> #[trigger] visible@[i] == entries_of_term(
                        all.take(index as int),
                        term,
                    )[i] && visible@[i] < index,
            decreases entries@.len() - index,
        {
            assert(all.take(index + 1).drop_last() =~= all.take(index as int));
            assert(all.take(index + 1).last() == entries@[index as int].deep_view());
            if entries[index].term_id == self.base.term_id {
                visible.push(index);
            }
            index += 1;
        }
        assert(all.take(index as int) =~= all);
        visible
    }

    pub fn current_manual_index(&self) -> (r: Option<usize>)
        ensures
            match manual_at_cursor(self.deep_view()) {
                Some(index) => r is Some && r->0 == index,
                None => r is None,
            },
            r is Some ==> r->0 < self.manual.entries@.len(),
    {
        let visible = self.visible_entries();
        if self.manual_cursor < visible.len() {
            assert(visible@[self.manual_cursor as int] < self.manual.entries@.len());
            Some(visible[self.manual_cursor])
        } else {
            None
        }
    }

    pub fn manual_visible_len(&self) -> (r: usize)
        ensures
            r == entries_of_term(
                self.deep_view().manual.entries,
                self.deep_view().base.term_id,
            ).len(),
    {
        self.visible_entries().len()
    }

    fn result_len(&self) -> (r: usize)
        ensures
            r == choice_count(self.deep_view()),
    {
        match &self.solution {
            Some(solution) => {
                assert(solution.choices.deep_view().len() == solution.choices@.len());
                solution.choices.len()
            },
            None => 0,
        }
    }

    fn clamp_cursors(&mut self)
        ensures
            final(self).deep_view() == with_cursors_clamped(old(self).deep_view()),
    {
        let filtered_len = self.filtered.len();
        let selected_len = self.selected.items().len();
        let manual_len = self.manual_visible_len();
        let result_len = self.result_len();
        assert(self.filtered.deep_view().len() == filtered_len);
        assert(self.selected.deep_view().len() == selected_len);
        self.cursor = clamp_index(self.cursor, filtered_len);
        self.selected_cursor = clamp_index(self.selected_cursor, selected_len);
        self.manual_cursor = clamp_index(self.manual_cursor, manual_len);
        self.result_cursor = clamp_index(self.result_cursor, result_len);
        assert(self.deep_view() =~= with_cursors_clamped(old(self).deep_view()));
    }

    pub fn recompute_filter(&mut self)
        ensures
            final(self).deep_view() == refiltered(old(self).deep_view()),
    {
        let terms = split_words(lowercase(self.query.as_str()).as_str());
        self.filtered = matching_subjects(&self.base, &terms);
        assert(self.deep_view() =~= AppStateView {
            filtered: courses_matching(
                old(self).deep_view().base.courses,
                words(lower_case(old(self).deep_view().query)),
            ),
            ..old(self).deep_view()
        });
        self.clamp_cursors();
    }

    fn invalidate(&mut self, message: &str)
        ensures
            final(self).deep_view() == invalidated(old(self).deep_view(), message@),
    {
        if self.selection_session.is_some() {
            self.save_due = true;
        }
        self.generation = if self.generation == 0xffff_ffff_ffff_ffff {
            0
        } else {
            self.generation + 1
        };
        self.timetable_viewport = ScrollViewport::fresh();
        self.timetable_navigation = Navigation::Alternatives;
        self.alternative = 0;
        self.solution = None;
        self.actual_members = OrderedMap::new();
        self.export = None;
        self.optimize_running = false;
        self.status = message.to_owned();
        self.clamp_cursors();
    }

    pub fn toggle_current_subject(&mut self)
        ensures
            final(self).deep_view() == toggled_subject(old(self).deep_view()),
    {
        let id = match self.current_subject() {
            Some(id) => id.to_owned(),
            None => {
                return;
            },
        };
        if self.selected.contains(&id) {
            self.selected.remove(&id);
        } else {
            self.selected.insert(id);
        }
        self.invalidate("Selection changed. Optimizing automatically.");
    }

    fn remove_current_selected(&mut self)
        ensures
            final(self).deep_view() == removed_selected(old(self).deep_view()),
    {
        let id = match self.current_selected() {
            Some(id) => id.to_owned(),
            None => {
                return;
            },
        };
        self.selected.remove(&id);
        self.invalidate("Selection changed. Optimizing automatically.");
    }

    fn subject_for_editor(&self) -> (r: String)
        ensures
            r@ == subject_to_edit(self.deep_view()),
    {
        if self.focus == Focus::Subjects {
            if let Some(id) = self.current_subject() {
                return id.to_owned();
            }
        }
        if self.focus == Focus::Selected {
            if let Some(id) = self.current_selected() {
                return id.to_owned();
            }
        }
        let selected = self.selected.items();
        assert(selected.deep_view().len() == selected@.len());
        if selected.len() > 0 {
            assert(selected.deep_view()[0] == selected@[0]@);
            return selected[0].clone();
        }
        if let Some(id) = self.current_subject() {
            return id.to_owned();
        }
        let keys = self.base.courses.keys();
        assert(keys.deep_view().len() == keys@.len());
        if keys.len() > 0 {
            assert(keys.deep_view()[0] == keys@[0]@);
            return keys[0].clone();
        }
        let none = String::new();
        assert(none@ =~= Seq::<char>::empty());
        none
    }

    pub fn open_add_manual(&mut self)
        ensures
            final(self).deep_view() == adding_manual(old(self).deep_view()),
    {
        let course = self.subject_for_editor();
        let form = form_for(&self.base, &course);
        let mut status = "Manual editor opened for ".to_owned();
        status.append(course.as_str());
        status.append(".");
        self.editor = Some(form);
        self.status = status;
    }

    pub fn open_edit_current_manual(&mut self)
        ensures
            final(self).deep_view() == editing_manual(old(self).deep_view()),
    {
        let index = match self.current_manual_index() {
            Some(index) => index,
            None => {
                self.open_add_manual();
                return;
            },
        };
        let entry = &self.manual.entries[index];
        assert(self.manual.entries.deep_view()[index as int] == entry.deep_view());
        let form = ManualForm::from_entry(entry);
        let mut status = "Editing manual entry ".to_owned();
        status.append(entry.option.id.as_str());
        status.append(".");
        self.editor = Some(form);
        self.status = status;
    }
}

/// The editor for a new manual section.
fn form_for(base: &Dataset, course_id: &String) -> (r: ManualForm)
    ensures
        r.deep_view() == new_form(base.deep_view(), course_id@),
{
    let mut form = ManualForm::new(course_id.clone());
    if let Some(course) = base.courses.get(course_id) {
        let requirements = &course.requirements;
        let ghost all = requirements.deep_view();
        let pe = "pe".to_owned();
        let mut index: usize = 0;
        assert(all.skip(0) =~= all);
        while index < requirements.len() && requirements[index].kind != pe
            invariant
                index <= requirements@.len(),
                all == requirements.deep_view(),
                pe@ == "pe"@,
                pe_requirement(all) == pe_requirement(all.skip(index as int)),
            decreases requirements@.len() - index,
        {
            assert(all.skip(index as int)[0] == requirements@[index as int].deep_view());
            assert(all.skip(index as int).drop_first() =~= all.skip(index + 1));
            index += 1;
        }
        if index < requirements.len() {
            assert(all.skip(index as int)[0] == requirements@[index as int].deep_view());
            form.kind = "pe".to_owned();
            if let Some(meeting) = opening_meeting(&requirements[index].options) {
                form.start_date = date_field_text(meeting.start_date);
                form.end_date = date_field_text(meeting.end_date);
            }
        }
    }
    assert(form.deep_view() =~= new_form(base.deep_view(), course_id@));
    form
}

fn date_field_text(date: Option<Date>) -> (r: String)
    ensures
        r@ == date_or_blank(date),
{
    match date {
        Some(date) => date.text(),
        None => {
            let blank = String::new();
            assert(blank@ =~= Seq::<char>::empty());
            blank
        },
    }
}

/// The first meeting of the sections.
fn opening_meeting(options: &Vec<crate::model::SectionOption>) -> (r: Option<Meeting>)
    ensures
        r == first_meeting(options.deep_view()),
{
    let ghost all = options.deep_view();
    let mut index: usize = 0;
    assert(all.skip(0) =~= all);
    while index < options.len()
        invariant
            index <= options@.len(),
            all == options.deep_view(),
            first_meeting(all) == first_meeting(all.skip(index as int)),
        decreases options@.len() - index,
    {
        let meetings = &options[index].meetings;
        proof {
            lemma_meetings_view(*meetings);
            assert(all.skip(index as int)[0] == options@[index as int].deep_view());
            assert(all.skip(index as int).drop_first() =~= all.skip(index + 1));
        }
        if meetings.len() > 0 {
            return Some(meetings[0]);
        }
        index += 1;
    }
    None
}

/// The courses that match all words of a search, in order.
pub fn matching_subjects(base: &Dataset, terms: &Vec<String>) -> (r: Vec<String>)
    ensures
        r.deep_view() == courses_matching(base.deep_view().courses, terms.deep_view()),
{
    let keys = base.courses.keys();
    let values = base.courses.values();
    let ghost all = base.courses.deep_view();
    let ghost wanted = terms.deep_view();
    let mut found: Vec<String> = Vec::new();
    let mut index: usize = 0;
    proof {
        assert(all.take(0) =~= Seq::empty());
        assert(found.deep_view() =~= courses_matching(all.take(0), wanted));
        assert(keys.deep_view().len() == keys@.len());
    }
    while index < keys.len()
        invariant
            index <= keys@.len(),
            keys@.len() == all.len(),
            values@.len() == all.len(),
            keys.deep_view() == keys_of(all),
            wanted == terms.deep_view(),
            forall|i: int|
                0 <= i < values@.len() ==> (#[trigger] values@[i]).deep_view() == all[i].1,
            found.deep_view() == courses_matching(all.take(index as int), wanted),
        decreases keys@.len() - index,
    {
        let ghost so_far = found.deep_view();
        proof {
            assert(all.take(index + 1).drop_last() =~= all.take(index as int));
            assert(keys.deep_view()[index as int] == keys@[index as int]@);
            assert(values@[index as int].deep_view() == all[index as int].1);
        }
        if is_match(terms, &keys[index], &values[index].title) {
            found.push(keys[index].clone());
            assert(found.deep_view() =~= so_far.push(keys@[index as int]@));
        }
        index += 1;
    }
    assert(all.take(index as int) =~= all);
    found
}

fn is_match(terms: &Vec<String>, id: &String, title: &String) -> (r: bool)
    ensures
        r == course_matches(terms.deep_view(), id@, title@),
{
    let mut text = lowercase(id.as_str());
    text.append(" ");
    text.append(lowercase(title.as_str()).as_str());
    let ghost wanted = terms.deep_view();
    let mut index: usize = 0;
    while index < terms.len()
        invariant
            index <= terms@.len(),
            wanted == terms.deep_view(),
            text@ == lower_case(id@) + " "@ + lower_case(title@),
            forall|i: int| 0 <= i < index ==> holds(text@, #[trigger] wanted[i]),
        decreases terms@.len() - index,
    {
        assert(wanted[index as int] == terms@[index as int]@);
        if !contains_part(text.as_str(), terms[index].as_str()) {
            return false;
        }
        index += 1;
    }
    true
}

/// The first id that is the wanted one up to ASCII case.
pub open spec fn same_id(ids: Seq<Seq<char>>, wanted: Seq<char>) -> Option<Seq<char>>
    decreases ids.len(),
{
    if ids.len() == 0 {
        None
    } else if same_ignoring_case(ids[0], wanted) {
        Some(ids[0])
    } else {
        same_id(ids.drop_first(), wanted)
    }
}

/// The course that a requested subject stands for.
pub open spec fn resolved(courses: Seq<(Seq<char>, CourseView)>, wanted: Seq<char>) -> Option<
    Seq<char>,
> {
    if lookup(courses, wanted) is Some {
        Some(wanted)
    } else {
        same_id(keys_of(courses), wanted)
    }
}

/// The courses that requested subjects stand for, and the subjects that stand for none.
pub open spec fn resolved_all(
    courses: Seq<(Seq<char>, CourseView)>,
    wanted: Seq<Seq<char>>,
) -> (Seq<Seq<char>>, Seq<Seq<char>>)
    decreases wanted.len(),
{
    if wanted.len() == 0 {
        (Seq::empty(), Seq::empty())
    } else {
        let (selected, unknown) = resolved_all(courses, wanted.drop_last());
        match resolved(courses, wanted.last()) {
            Some(id) => (set_insert::<String>(selected, id), unknown),
            None => (selected, unknown.push(wanted.last())),
        }
    }
}

/// The state at the start.
pub open spec fn opening_state(
    base: DatasetView,
    dataset: DatasetView,
    manual: ManualStoreView,
    data_dir: Seq<char>,
    output: Seq<char>,
    initial: Seq<Seq<char>>,
) -> AppStateView {
    let (selected, unknown) = resolved_all(base.courses, initial);
    let state = refiltered(
        AppStateView {
            base,
            selection_session: None,
            save_due: false,
            selection_saved: false,
            unavailable_selected: Seq::empty(),
            selection_notice: None,
            dataset,
            manual,
            data_dir,
            output,
            query: Seq::empty(),
            filtered: Seq::empty(),
            cursor: 0,
            selected,
            focus: Focus::Subjects,
            focus_regions: Seq::empty(),
            selected_cursor: 0,
            manual_cursor: 0,
            result_cursor: 0,
            timetable_viewport: fresh_viewport(),
            timetable_navigation: Navigation::Alternatives,
            alternative: 0,
            editor: None,
            solution: None,
            actual_members: Seq::empty(),
            optimize_running: false,
            status: "Ready. Press ? for help."@,
            export: None,
            should_quit: false,
            show_help: false,
            generation: 0,
        },
    );
    if unknown.len() > 0 {
        AppStateView {
            status: "Unknown initial subject(s): "@ + joined(unknown, ", "@),
            ..state
        }
    } else if selected.len() > 0 {
        AppStateView {
            status: "Preselected "@ + decimal(selected.len())
                + " subject(s). Optimizing automatically."@,
            ..state
        }
    } else {
        state
    }
}

/// The state at the start, unless the manual sections do not fit the catalog.
pub open spec fn started(
    base: DatasetView,
    manual: ManualStoreView,
    data_dir: Seq<char>,
    output: Seq<char>,
    initial: Seq<Seq<char>>,
) -> Result<AppStateView, Seq<char>> {
    match with_manual(base, manual) {
        Err(fault) => Err(fault),
        Ok(dataset) => Ok(opening_state(base, dataset, manual, data_dir, output, initial)),
    }
}

fn find_same_id(ids: &Vec<String>, wanted: &String) -> (r: Option<String>)
    ensures
        r.deep_view() == same_id(ids.deep_view(), wanted@),
{
    let ghost all = ids.deep_view();
    let mut index: usize = 0;
    assert(all.skip(0) =~= all);
    while index < ids.len()
        invariant
            index <= ids@.len(),
            all == ids.deep_view(),
            same_id(all, wanted@) == same_id(all.skip(index as int), wanted@),
        decreases ids@.len() - index,
    {
        assert(all.skip(index as int)[0] == ids@[index as int]@);
        assert(all.skip(index as int).drop_first() =~= all.skip(index + 1));
        if eq_ignore_case(ids[index].as_str(), wanted.as_str()) {
            return Some(ids[index].clone());
        }
        index += 1;
    }
    None
}

fn resolve(base: &Dataset, wanted: &String) -> (r: Option<String>)
    ensures
        r.deep_view() == resolved(base.deep_view().courses, wanted@),
{
    if base.courses.get(wanted).is_some() {
        Some(wanted.clone())
    } else {
        find_same_id(base.courses.keys(), wanted)
    }
}

fn resolve_all(base: &Dataset, wanted: &Vec<String>) -> (r: (OrderedSet<String>, Vec<String>))
    ensures
        r.deep_view() == resolved_all(base.deep_view().courses, wanted.deep_view()),
{
    let ghost courses = base.deep_view().courses;
    let ghost all = wanted.deep_view();
    let mut selected: OrderedSet<String> = OrderedSet::new();
    let mut unknown: Vec<String> = Vec::new();
    let mut index: usize = 0;
    proof {
        assert(all.take(0) =~= Seq::empty());
        assert(unknown.deep_view() =~= Seq::empty());
    }
    while index < wanted.len()
        invariant
            index <= wanted@.len(),
            courses == base.deep_view().courses,
            all == wanted.deep_view(),
            (selected.deep_view(), unknown.deep_view()) == resolved_all(
                courses,
                all.take(index as int),
            ),
        decreases wanted@.len() - index,
    {
        assert(all.take(index + 1).drop_last() =~= all.take(index as int));
        assert(all.take(index + 1).last() == wanted@[index as int]@);
        match resolve(base, &wanted[index]) {
            Some(id) => {
                selected.insert(id);
            },
            None => {
                let ghost so_far = unknown.deep_view();
                unknown.push(wanted[index].clone());
                assert(unknown.deep_view() =~= so_far.push(wanted@[index as int]@));
            },
        }
        index += 1;
    }
    assert(all.take(index as int) =~= all);
    (selected, unknown)
}

impl AppState {
    /// The interface at the start, with the initial subjects selected.
    pub fn new(
        base: Dataset,
        manual: ManualStore,
        data_dir: String,
        output: String,
        initial: Vec<String>,
    ) -> (r: Result<AppState, Error>)
        ensures
            outcome(r) == started(
                base.deep_view(),
                manual.deep_view(),
                data_dir@,
                output@,
                initial.deep_view(),
            ),
    {
        let dataset = match apply_manual(&base, &manual) {
            Ok(dataset) => dataset,
            Err(error) => {
                return Err(error);
            },
        };
        let (selected, unknown) = resolve_all(&base, &initial);
        let selected_count = selected.items().len();
        assert(selected.deep_view().len() == selected_count);
        assert(unknown.deep_view().len() == unknown@.len());
        let mut state = AppState {
            base,
            selection_session: None,
            save_due: false,
            selection_saved: false,
            unavailable_selected: OrderedSet::new(),
            selection_notice: None,
            dataset,
            manual,
            data_dir,
            output,
            query: String::new(),
            filtered: Vec::new(),
            cursor: 0,
            selected,
            focus: Focus::Subjects,
            focus_regions: Vec::new(),
            selected_cursor: 0,
            manual_cursor: 0,
            result_cursor: 0,
            timetable_viewport: ScrollViewport::fresh(),
            timetable_navigation: Navigation::Alternatives,
            alternative: 0,
            editor: None,
            solution: None,
            actual_members: OrderedMap::new(),
            optimize_running: false,
            status: "Ready. Press ? for help.".to_owned(),
            export: None,
            should_quit: false,
            show_help: false,
            generation: 0,
        };
        assert(state.filtered.deep_view() =~= Seq::empty());
        assert(state.query@ =~= Seq::<char>::empty());
        state.recompute_filter();
        if unknown.len() > 0 {
            let mut status = "Unknown initial subject(s): ".to_owned();
            status.append(join(&unknown, ", ").as_str());
            state.status = status;
        } else if selected_count > 0 {
            let mut status = "Preselected ".to_owned();
            status.append(decimal_text(selected_count as u64).as_str());
            status.append(" subject(s). Optimizing automatically.");
            state.status = status;
        }
        Ok(state)
    }
}

/// What became of the stored selections at the start.
pub enum Restore {
    /// They are neither read nor written.
    Ephemeral,
    Opened(SelectionSession),
    Failed(Error),
}

pub enum RestoreView {
    Ephemeral,
    Opened(SelectionSessionView),
    Failed(Seq<char>),
}

impl DeepView for Restore {
    type V = RestoreView;

    open spec fn deep_view(&self) -> RestoreView {
        match self {
            Restore::Ephemeral => RestoreView::Ephemeral,
            Restore::Opened(session) => RestoreView::Opened(session.deep_view()),
            Restore::Failed(error) => RestoreView::Failed(error.deep_view()),
        }
    }
}

/// The first requested subject that no course has, up to ASCII case.
pub open spec fn first_unknown(ids: Seq<Seq<char>>, wanted: Seq<Seq<char>>) -> Option<Seq<char>>
    decreases wanted.len(),
{
    if wanted.len() == 0 {
        None
    } else if same_id(ids, wanted[0]) is None {
        Some(wanted[0])
    } else {
        first_unknown(ids, wanted.drop_first())
    }
}

/// The requested subjects that no course has, up to ASCII case.
pub open spec fn all_unknown(ids: Seq<Seq<char>>, wanted: Seq<Seq<char>>) -> Seq<Seq<char>>
    decreases wanted.len(),
{
    if wanted.len() == 0 {
        Seq::empty()
    } else {
        let rest = all_unknown(ids, wanted.drop_last());
        if same_id(ids, wanted.last()) is None {
            rest.push(wanted.last())
        } else {
            rest
        }
    }
}

/// The state at the start with stored selections, which requested subjects override.
pub open spec fn restored(
    base: DatasetView,
    manual: ManualStoreView,
    data_dir: Seq<char>,
    output: Seq<char>,
    initial: Seq<Seq<char>>,
    restore: RestoreView,
) -> Result<AppStateView, Seq<char>> {
    let ids = keys_of(base.courses);
    match first_unknown(ids, initial) {
        Some(id) => Err(
            "unknown initial subject "@ + id + "; saved selections were not changed"@,
        ),
        None => match restore {
            RestoreView::Ephemeral => match started(base, manual, data_dir, output, initial) {
                Err(fault) => Err(fault),
                Ok(state) => Ok(
                    AppStateView {
                        selection_notice: Some(
                            "Ephemeral selections (--no-restore): not saved"@,
                        ),
                        ..state
                    },
                ),
            },
            _ => {
                let session = match restore {
                    RestoreView::Opened(session) => Some(session),
                    _ => None,
                };
                let requested = if initial.len() > 0 {
                    initial
                } else {
                    match session {
                        Some(session) => match selection_of(session.sessions, base.term_id) {
                            Some(ids) => ids,
                            None => Seq::empty(),
                        },
                        None => Seq::empty(),
                    }
                };
                match started(base, manual, data_dir, output, requested) {
                    Err(fault) => Err(fault),
                    Ok(state) => Ok(
                        AppStateView {
                            selection_session: session,
                            save_due: session is Some,
                            unavailable_selected: distinct_ascending::<String>(
                                all_unknown(ids, requested),
                            ),
                            selection_notice: match restore {
                                RestoreView::Failed(fault) => Some(
                                    "Selections NOT saved: "@ + fault,
                                ),
                                _ => None,
                            },
                            status: if initial.len() == 0 && state.selected.len() > 0 {
                                "Restored "@ + decimal(state.selected.len())
                                    + " subject(s). Optimizing automatically."@
                            } else {
                                state.status
                            },
                            ..state
                        },
                    ),
                }
            },
        },
    }
}

fn find_unknown(ids: &Vec<String>, wanted: &Vec<String>) -> (r: Option<String>)
    ensures
        r.deep_view() == first_unknown(ids.deep_view(), wanted.deep_view()),
{
    let ghost all = wanted.deep_view();
    let mut index: usize = 0;
    assert(all.skip(0) =~= all);
    while index < wanted.len()
        invariant
            index <= wanted@.len(),
            all == wanted.deep_view(),
            first_unknown(ids.deep_view(), all) == first_unknown(
                ids.deep_view(),
                all.skip(index as int),
            ),
        decreases wanted@.len() - index,
    {
        assert(all.skip(index as int)[0] == wanted@[index as int]@);
        assert(all.skip(index as int).drop_first() =~= all.skip(index + 1));
        if find_same_id(ids, &wanted[index]).is_none() {
            return Some(wanted[index].clone());
        }
        index += 1;
    }
    None
}

fn find_all_unknown(ids: &Vec<String>, wanted: &Vec<String>) -> (r: Vec<String>)
    ensures
        r.deep_view() == all_unknown(ids.deep_view(), wanted.deep_view()),
{
    let ghost all = wanted.deep_view();
    let mut unknown: Vec<String> = Vec::new();
    let mut index: usize = 0;
    proof {
        assert(all.take(0) =~= Seq::empty());
        assert(unknown.deep_view() =~= Seq::empty());
    }
    while index < wanted.len()
        invariant
            index <= wanted@.len(),
            all == wanted.deep_view(),
            unknown.deep_view() == all_unknown(ids.deep_view(), all.take(index as int)),
        decreases wanted@.len() - index,
    {
        let ghost so_far = unknown.deep_view();
        assert(all.take(index + 1).drop_last() =~= all.take(index as int));
        assert(all.take(index + 1).last() == wanted@[index as int]@);
        if find_same_id(ids, &wanted[index]).is_none() {
            unknown.push(wanted[index].clone());
            assert(unknown.deep_view() =~= so_far.push(wanted@[index as int]@));
        }
        index += 1;
    }
    assert(all.take(index as int) =~= all);
    unknown
}

/// Checks the requested subjects before any stored selection is touched: an explicit typo must
/// not replace a valid stored selection.
pub fn check_initial(base: &Dataset, initial: &Vec<String>) -> (r: Result<(), Error>)
    ensures
        outcome(r) == (match first_unknown(
            keys_of(base.deep_view().courses),
            initial.deep_view(),
        ) {
            Some(id) => Err::<(), _>(
                "unknown initial subject "@ + id + "; saved selections were not changed"@,
            ),
            None => Ok(()),
        }),
{
    match find_unknown(base.courses.keys(), initial) {
        Some(id) => {
            let mut message = "unknown initial subject ".to_owned();
            message.append(id.as_str());
            message.append("; saved selections were not changed");
            Err(Error { message })
        },
        None => Ok(()),
    }
}

impl AppState {
    /// The interface at the start, with the stored selection unless subjects are requested.
    pub fn new_with_session(
        base: Dataset,
        manual: ManualStore,
        data_dir: String,
        output: String,
        initial: Vec<String>,
        restore: Restore,
    ) -> (r: Result<AppState, Error>)
        ensures
            outcome(r) == restored(
                base.deep_view(),
                manual.deep_view(),
                data_dir@,
                output@,
                initial.deep_view(),
                restore.deep_view(),
            ),
    {
        match check_initial(&base, &initial) {
            Ok(_) => {},
            Err(error) => {
                return Err(error);
            },
        }
        assert(initial.deep_view().len() == initial@.len());
        let restoring = initial.len() == 0;
        let (session, failure) = match restore {
            Restore::Ephemeral => {
                return match AppState::new(base, manual, data_dir, output, initial) {
                    Ok(state) => {
                        let mut state = state;
                        state.selection_notice = Some(
                            "Ephemeral selections (--no-restore): not saved".to_owned(),
                        );
                        Ok(state)
                    },
                    Err(error) => Err(error),
                };
            },
            Restore::Opened(session) => (Some(session), None),
            Restore::Failed(error) => {
                let mut notice = "Selections NOT saved: ".to_owned();
                notice.append(error.message.as_str());
                (None, Some(notice))
            },
        };
        let mut requested = initial;
        if restoring {
            if let Some(session) = &session {
                if let Some(ids) = session.selected(base.term_id.as_str()) {
                    requested = duplicate_all(ids.items());
                }
            }
            assert(requested.deep_view() =~= match session.deep_view() {
                Some(session) => match selection_of(
                    session.sessions,
                    base.deep_view().term_id,
                ) {
                    Some(ids) => ids,
                    None => Seq::empty(),
                },
                None => Seq::empty(),
            });
        }
        let unavailable = OrderedSet::from_vec(find_all_unknown(base.courses.keys(), &requested));
        match AppState::new(base, manual, data_dir, output, requested) {
            Ok(state) => {
                let mut state = state;
                state.save_due = session.is_some();
                state.selection_session = session;
                state.unavailable_selected = unavailable;
                state.selection_notice = failure;
                let count = state.selected.items().len();
                assert(state.selected.deep_view().len() == count);
                if restoring && count > 0 {
                    let mut status = "Restored ".to_owned();
                    status.append(decimal_text(count as u64).as_str());
                    status.append(" subject(s). Optimizing automatically.");
                    state.status = status;
                }
                Ok(state)
            },
            Err(error) => Err(error),
        }
    }
}

/// The subjects that are stored: the selected ones and those that the catalog does not have.
pub open spec fn stored_selection(s: AppStateView) -> Seq<Seq<char>> {
    distinct_ascending::<String>(s.selected + s.unavailable_selected)
}

/// The state after the selection was stored, or could not be. A state without a session stays as
/// it is: nothing is stored for it, and what was said of that remains.
pub open spec fn after_save(
    s: AppStateView,
    session: Option<SelectionSessionView>,
    result: Result<(), Seq<char>>,
) -> AppStateView {
    if s.selection_session is None {
        s
    } else {
        AppStateView {
            selection_session: session,
            save_due: false,
            selection_saved: result is Ok,
            selection_notice: match result {
                Err(fault) => Some("Selections NOT saved: "@ + fault),
                Ok(_) => if s.unavailable_selected.len() > 0 {
                    Some(
                        "Unavailable saved subjects retained: "@ + joined(
                            s.unavailable_selected,
                            ", "@,
                        ),
                    )
                } else {
                    None
                },
            },
            ..s
        }
    }
}

impl AppState {
    /// Plans to store the selection, given what the session file holds now. Nothing has to be
    /// written where there is no session or the selection is already stored.
    pub fn plan_selection_save(&self, disk: &Option<Vec<u8>>, now: String) -> (r: Result<
        Option<Sessions>,
        Error,
    >)
        ensures
            outcome(r) == (match self.deep_view().selection_session {
                None => Ok(None),
                Some(session) => save_plan(
                    session,
                    self.deep_view().dataset.term_id,
                    stored_selection(self.deep_view()),
                    contents(*disk),
                    now@,
                ),
            }),
    {
        match &self.selection_session {
            None => Ok(None),
            Some(session) => {
                let ids = all_ids(&self.selected, &self.unavailable_selected);
                session.plan_save(self.dataset.term_id.as_str(), &ids, disk, now)
            },
        }
    }

    /// Records that the selection was stored: what was written to the session file, or nothing
    /// where nothing had to be.
    pub fn selection_stored(&mut self, written: Option<(Sessions, Vec<u8>)>)
        ensures
            final(self).deep_view() == after_save(
                old(self).deep_view(),
                match (old(self).deep_view().selection_session, written) {
                    (Some(_), Some((sessions, bytes))) => Some(
                        SelectionSessionView {
                            sessions: sessions.deep_view(),
                            disk_bytes: Some(bytes@),
                        },
                    ),
                    (session, _) => session,
                },
                Ok(()),
            ),
    {
        if self.selection_session.is_none() {
            return;
        }
        if let Some((sessions, bytes)) = written {
            if let Some(session) = &mut self.selection_session {
                session.commit(sessions, bytes);
            }
        }
        self.save_due = false;
        self.selection_saved = true;
        let unavailable = self.unavailable_selected.items();
        assert(unavailable.deep_view().len() == unavailable@.len());
        let notice = if unavailable.len() > 0 {
            let mut notice = "Unavailable saved subjects retained: ".to_owned();
            notice.append(join(unavailable, ", ").as_str());
            Some(notice)
        } else {
            None
        };
        self.selection_notice = notice;
    }

    /// Whether a watcher is to be told that the selection is stored: once, as soon as it is.
    pub fn acknowledgement_due(&self, acknowledged: bool) -> (r: bool)
        ensures
            r == (!acknowledged && self.deep_view().selection_saved),
    {
        !acknowledged && self.selection_saved
    }

    /// Records that the selection could not be stored. The interface stays usable; the warning
    /// survives later messages.
    pub fn selection_not_stored(&mut self, error: &Error)
        ensures
            final(self).deep_view() == after_save(
                old(self).deep_view(),
                old(self).deep_view().selection_session,
                Err(error.deep_view()),
            ),
    {
        if self.selection_session.is_none() {
            return;
        }
        self.save_due = false;
        self.selection_saved = false;
        let mut notice = "Selections NOT saved: ".to_owned();
        notice.append(error.message.as_str());
        self.selection_notice = Some(notice);
    }
}

/// The ids of both sets.
fn all_ids(a: &OrderedSet<String>, b: &OrderedSet<String>) -> (r: OrderedSet<String>)
    ensures
        r.deep_view() == distinct_ascending::<String>(a.deep_view() + b.deep_view()),
{
    let mut ids = duplicate_all(a.items());
    let more = b.items();
    let ghost head = a.deep_view();
    let ghost tail = b.deep_view();
    let mut index: usize = 0;
    assert(ids.deep_view() =~= head + tail.take(0));
    while index < more.len()
        invariant
            index <= more@.len(),
            more.deep_view() == tail,
            ids.deep_view() == head + tail.take(index as int),
        decreases more@.len() - index,
    {
        let ghost so_far = ids.deep_view();
        ids.push(more[index].clone());
        assert(more.deep_view()[index as int] == more@[index as int]@);
        assert(ids.deep_view() =~= so_far.push(tail[index as int]));
        assert(ids.deep_view() =~= head + tail.take(index + 1));
        index += 1;
    }
    assert(tail.take(index as int) =~= tail);
    OrderedSet::from_vec(ids)
}

/// A stored subject that the catalog does not have stays stored, whatever is selected.
pub proof fn law_unavailable_selection_is_retained(s: AppStateView, id: Seq<char>)
    requires
        s.unavailable_selected.contains(id),
    ensures
        stored_selection(s).contains(id),
        stored_selection(toggled_subject(s)).contains(id),
        stored_selection(removed_selected(s)).contains(id),
{
    lemma_stored(s, id);
    lemma_stored(toggled_subject(s), id);
    lemma_stored(removed_selected(s), id);
}

proof fn lemma_stored(s: AppStateView, id: Seq<char>)
    requires
        s.unavailable_selected.contains(id),
    ensures
        stored_selection(s).contains(id),
{
    let all = s.selected + s.unavailable_selected;
    crate::order::lemma_distinct_ascending::<String>(all);
    let i = choose|i: int|
        0 <= i < s.unavailable_selected.len() && s.unavailable_selected[i] == id;
    assert(all[s.selected.len() + i] == id);
    assert(all.contains(id));
}

/// The date in an editor field; a blank field has none.
pub open spec fn read_field_date(value: Seq<char>, label: Seq<char>) -> Result<
    Option<Date>,
    Seq<char>,
> {
    if trimmed(value).len() == 0 {
        Ok(None)
    } else {
        match read_default_date(trimmed(value)) {
            Ok(day) => Ok(Some(date_of(day))),
            Err(fault) => Err(
                "invalid "@ + label + "; expected YYYY-MM-DD"@ + ": "@ + fault,
            ),
        }
    }
}

fn parse_optional_date(value: &str, label: &str) -> (r: Result<Option<Date>, Error>)
    ensures
        match read_field_date(value@, label@) {
            Ok(date) => r is Ok && r->Ok_0 == date,
            Err(fault) => r is Err && (r->Err_0).deep_view() == fault,
        },
{
    let text = trim(value);
    if text.as_str().is_empty() {
        return Ok(None);
    }
    match Date::parse_default(text.as_str()) {
        Ok(date) => {
            proof {
                lemma_date_of(date);
            }
            Ok(Some(date))
        },
        Err(error) => {
            let mut context = "invalid ".to_owned();
            context.append(label);
            context.append("; expected YYYY-MM-DD");
            Err(error.within(context.as_str()))
        },
    }
}

/// Meetings limited to the given dates.
pub open spec fn with_dates(meetings: Seq<Meeting>, start: Option<Date>, end: Option<Date>) -> Seq<
    Meeting,
> {
    Seq::new(
        meetings.len(),
        |i: int| Meeting { start_date: start, end_date: end, ..meetings[i] },
    )
}

/// Meetings limited to the given dates.
pub fn dated_meetings(meetings: &Vec<Meeting>, start: Option<Date>, end: Option<Date>) -> (r: Vec<
    Meeting,
>)
    ensures
        r@ == with_dates(meetings@, start, end),
{
    let mut out: Vec<Meeting> = Vec::new();
    let mut index: usize = 0;
    assert(out@ =~= with_dates(meetings@, start, end).take(0));
    while index < meetings.len()
        invariant
            index <= meetings@.len(),
            out@ == with_dates(meetings@, start, end).take(index as int),
        decreases meetings@.len() - index,
    {
        out.push(Meeting { start_date: start, end_date: end, ..meetings[index] });
        assert(out@ =~= with_dates(meetings@, start, end).take(index + 1));
        index += 1;
    }
    assert(with_dates(meetings@, start, end).take(index as int) =~= with_dates(
        meetings@,
        start,
        end,
    ));
    out
}

/// Whether a manual section that is saved stays enabled; an edited one cannot move.
pub open spec fn enabled_after(
    form: ManualFormView,
    entries: Seq<ManualEntryView>,
    term_id: Seq<char>,
) -> Result<bool, Seq<char>> {
    match form.entry_id {
        None => Ok(form.enabled),
        Some(id) => match entry_with(entries, term_id, id) {
            None => Err("manual section not found in this term: "@ + id),
            Some(existing) => if existing.course_id != trimmed(form.course_id) || existing.kind
                != trimmed(form.kind) {
                Err(
                    "manual edits cannot move an entry between subjects or components; add a new manual entry instead"@,
                )
            } else {
                Ok(existing.enabled)
            },
        },
    }
}

/// The manual section that an editor describes.
pub open spec fn edited_entry(
    base: DatasetView,
    entries: Seq<ManualEntryView>,
    form: ManualFormView,
) -> Result<ManualEntryView, Seq<char>> {
    match read_meetings(form.meetings) {
        Err(fault) => Err(
            "invalid meetings '"@ + form.meetings
                + "'; use e.g. Mon 09:00-10:00;Wed 09:00-10:00"@ + ": "@ + fault,
        ),
        Ok(meetings) => match read_field_date(form.start_date, "start date"@) {
            Err(fault) => Err(fault),
            Ok(start) => match read_field_date(form.end_date, "end date"@) {
                Err(fault) => Err(fault),
                Ok(end) => match enabled_after(form, entries, base.term_id) {
                    Err(fault) => Err(fault),
                    Ok(enabled) => match entry_of(
                        base,
                        trimmed(form.course_id),
                        trimmed(form.kind),
                        trimmed(form.label),
                        trimmed(form.room),
                        with_dates(meetings, start, end),
                        form.entry_id,
                    ) {
                        Err(fault) => Err(fault),
                        Ok(entry) => Ok(ManualEntryView { enabled, ..entry }),
                    },
                },
            },
        },
    }
}

/// The manual sections and the catalog after a change of the former.
pub open spec fn manual_change(base: DatasetView, store: ManualStoreView) -> Result<
    Option<(ManualStoreView, DatasetView)>,
    Seq<char>,
> {
    match with_manual(base, store) {
        Err(fault) => Err(fault),
        Ok(dataset) => Ok(Some((store, dataset))),
    }
}

/// The manual sections and the catalog after the editor is saved; nothing without an editor.
pub open spec fn manual_save(s: AppStateView) -> Result<
    Option<(ManualStoreView, DatasetView)>,
    Seq<char>,
> {
    match s.editor {
        None => Ok(None),
        Some(form) => match edited_entry(s.base, s.manual.entries, form) {
            Err(fault) => Err(fault),
            Ok(entry) => manual_change(
                s.base,
                ManualStoreView {
                    version: s.manual.version,
                    entries: with_entry(s.manual.entries, entry),
                },
            ),
        },
    }
}

/// The state after changed manual sections were saved from the editor.
pub open spec fn manual_saved(
    s: AppStateView,
    manual: ManualStoreView,
    dataset: DatasetView,
) -> AppStateView {
    invalidated(
        AppStateView { manual, dataset, editor: None, ..s },
        "Manual entries saved. Optimizing automatically."@,
    )
}

/// The store with the entry under the cursor enabled or disabled.
pub open spec fn toggled_store(s: AppStateView, index: int) -> ManualStoreView {
    let entry = s.manual.entries[index];
    ManualStoreView {
        version: s.manual.version,
        entries: s.manual.entries.update(
            index,
            ManualEntryView { enabled: !entry.enabled, ..entry },
        ),
    }
}

/// The manual sections and the catalog after the entry under the cursor is enabled or disabled.
pub open spec fn manual_toggle(s: AppStateView) -> Result<
    Option<(ManualStoreView, DatasetView)>,
    Seq<char>,
> {
    match manual_at_cursor(s) {
        None => Ok(None),
        Some(index) => manual_change(s.base, toggled_store(s, index)),
    }
}

/// The state after the entry under the cursor was enabled or disabled.
pub open spec fn manual_toggled(
    s: AppStateView,
    manual: ManualStoreView,
    dataset: DatasetView,
) -> AppStateView {
    match manual_at_cursor(s) {
        None => AppStateView { status: "No manual entry is selected."@, ..s },
        Some(index) => {
            let entry = s.manual.entries[index];
            let word = if entry.enabled {
                "Disabled "@
            } else {
                "Enabled "@
            };
            AppStateView {
                status: word + entry.option.id,
                ..invalidated(
                    AppStateView { manual, dataset, ..s },
                    Seq::empty(),
                )
            }
        },
    }
}

fn check_enabled(form: &ManualForm, entries: &Vec<ManualEntry>, term_id: &String) -> (r: Result<
    bool,
    Error,
>)
    ensures
        outcome(r) == enabled_after(form.deep_view(), entries.deep_view(), term_id@),
{
    let id = match &form.entry_id {
        Some(id) => id,
        None => {
            return Ok(form.enabled);
        },
    };
    let at = find_entry(entries, term_id, id);
    assert(entries.deep_view().len() == entries@.len());
    if at == entries.len() {
        let mut message = "manual section not found in this term: ".to_owned();
        message.append(id.as_str());
        return Err(Error { message });
    }
    let existing = &entries[at];
    assert(entries.deep_view()[at as int] == existing.deep_view());
    if existing.course_id != trim(form.course_id.as_str()) || existing.kind != trim(
        form.kind.as_str(),
    ) {
        return Err(
            Error::new(
                "manual edits cannot move an entry between subjects or components; add a new manual entry instead",
            ),
        );
    }
    Ok(existing.enabled)
}

fn entry_from_form(base: &Dataset, entries: &Vec<ManualEntry>, form: &ManualForm) -> (r: Result<
    ManualEntry,
    Error,
>)
    ensures
        outcome(r) == edited_entry(base.deep_view(), entries.deep_view(), form.deep_view()),
{
    let meetings = match parse_meetings(form.meetings.as_str()) {
        Ok(meetings) => meetings,
        Err(error) => {
            let mut context = "invalid meetings '".to_owned();
            context.append(form.meetings.as_str());
            context.append("'; use e.g. Mon 09:00-10:00;Wed 09:00-10:00");
            return Err(error.within(context.as_str()));
        },
    };
    proof {
        lemma_meetings_view(meetings);
    }
    let start = match parse_optional_date(form.start_date.as_str(), "start date") {
        Ok(date) => date,
        Err(error) => {
            return Err(error);
        },
    };
    let end = match parse_optional_date(form.end_date.as_str(), "end date") {
        Ok(date) => date,
        Err(error) => {
            return Err(error);
        },
    };
    let enabled = match check_enabled(form, entries, &base.term_id) {
        Ok(enabled) => enabled,
        Err(error) => {
            return Err(error);
        },
    };
    let id = match &form.entry_id {
        Some(id) => Some(id.as_str()),
        None => None,
    };
    match manual_entry(
        base,
        trim(form.course_id.as_str()).as_str(),
        trim(form.kind.as_str()).as_str(),
        trim(form.label.as_str()).as_str(),
        trim(form.room.as_str()).as_str(),
        dated_meetings(&meetings, start, end),
        id,
    ) {
        Ok(entry) => {
            let mut entry = entry;
            entry.enabled = enabled;
            Ok(entry)
        },
        Err(error) => Err(error),
    }
}

fn check_change(base: &Dataset, store: ManualStore) -> (r: Result<
    Option<(ManualStore, Dataset)>,
    Error,
>)
    ensures
        outcome(r) == manual_change(base.deep_view(), store.deep_view()),
{
    match apply_manual(base, &store) {
        Ok(dataset) => Ok(Some((store, dataset))),
        Err(error) => Err(error),
    }
}

impl AppState {
    /// Plans to save the editor: the changed manual sections, which have to be written, and the
    /// catalog with them. The state stays as it is until the write has succeeded.
    pub fn plan_manual_save(&self) -> (r: Result<Option<(ManualStore, Dataset)>, Error>)
        ensures
            outcome(r) == manual_save(self.deep_view()),
    {
        let form = match &self.editor {
            Some(form) => form,
            None => {
                return Ok(None);
            },
        };
        match entry_from_form(&self.base, &self.manual.entries, form) {
            Ok(entry) => {
                let entries = upsert_entry(&self.manual.entries, entry);
                check_change(
                    &self.base,
                    ManualStore { version: self.manual.version, entries },
                )
            },
            Err(error) => Err(error),
        }
    }

    /// Takes over manual sections that were saved from the editor.
    pub fn commit_manual_save(&mut self, manual: ManualStore, dataset: Dataset)
        ensures
            final(self).deep_view() == manual_saved(
                old(self).deep_view(),
                manual.deep_view(),
                dataset.deep_view(),
            ),
    {
        self.manual = manual;
        self.dataset = dataset;
        self.editor = None;
        self.invalidate("Manual entries saved. Optimizing automatically.");
    }

    /// Records why the editor could not be saved.
    pub fn manual_not_saved(&mut self, error: &Error)
        ensures
            final(self).deep_view() == (AppStateView {
                editor: match old(self).deep_view().editor {
                    Some(form) => Some(
                        ManualFormView { error: Some(error.deep_view()), ..form },
                    ),
                    None => None,
                },
                status: "Manual save failed: "@ + error.deep_view(),
                ..old(self).deep_view()
            }),
    {
        if let Some(form) = &mut self.editor {
            form.error = Some(error.message.clone());
        }
        let mut status = "Manual save failed: ".to_owned();
        status.append(error.message.as_str());
        self.status = status;
        assert(self.deep_view() =~= AppStateView {
            editor: match old(self).deep_view().editor {
                Some(form) => Some(ManualFormView { error: Some(error.deep_view()), ..form }),
                None => None,
            },
            status: "Manual save failed: "@ + error.deep_view(),
            ..old(self).deep_view()
        });
    }

    /// Records why a manual section could not be enabled or disabled.
    pub fn manual_toggle_failed(&mut self, error: &Error)
        ensures
            final(self).deep_view() == (AppStateView {
                status: "Manual toggle failed: "@ + error.deep_view(),
                ..old(self).deep_view()
            }),
    {
        let mut status = "Manual toggle failed: ".to_owned();
        status.append(error.message.as_str());
        self.status = status;
    }

    /// Plans to enable or disable the manual section under the cursor.
    pub fn plan_manual_toggle(&self) -> (r: Result<Option<(ManualStore, Dataset)>, Error>)
        ensures
            outcome(r) == manual_toggle(self.deep_view()),
    {
        let index = match self.current_manual_index() {
            Some(index) => index,
            None => {
                return Ok(None);
            },
        };
        let mut entries = duplicate_all(&self.manual.entries);
        let ghost all = entries.deep_view();
        assert(all.len() == entries@.len());
        assert(self.manual.entries.deep_view().len() == self.manual.entries@.len());
        let mut entry = entries[index].duplicate();
        assert(all[index as int] == entries@[index as int].deep_view());
        entry.enabled = !entry.enabled;
        entries.set(index, entry);
        assert(entries.deep_view() =~= all.update(index as int, entry.deep_view()));
        check_change(&self.base, ManualStore { version: self.manual.version, entries })
    }

    /// Takes over the manual sections with the one under the cursor enabled or disabled.
    pub fn commit_manual_toggle(&mut self, manual: ManualStore, dataset: Dataset)
        ensures
            final(self).deep_view() == manual_toggled(
                old(self).deep_view(),
                manual.deep_view(),
                dataset.deep_view(),
            ),
    {
        let index = match self.current_manual_index() {
            Some(index) => index,
            None => {
                self.status = "No manual entry is selected.".to_owned();
                return;
            },
        };
        assert(self.manual.entries.deep_view()[index as int]
            == self.manual.entries@[index as int].deep_view());
        let mut status = if self.manual.entries[index].enabled {
            "Disabled ".to_owned()
        } else {
            "Enabled ".to_owned()
        };
        status.append(self.manual.entries[index].option.id.as_str());
        self.manual = manual;
        self.dataset = dataset;
        self.invalidate("");
        self.status = status;
        proof {
            reveal_strlit("");
            assert(""@ =~= Seq::<char>::empty());
        }
    }

    /// Records that there is no manual section under the cursor.
    pub fn no_manual_selected(&mut self)
        ensures
            final(self).deep_view() == (AppStateView {
                status: "No manual entry is selected."@,
                ..old(self).deep_view()
            }),
    {
        self.status = "No manual entry is selected.".to_owned();
    }
}

/// What a solution is announced with.
pub open spec fn announcement(solution: SolutionView) -> Seq<char> {
    match solution.status {
        SolveStatus::OptimalKnown => match solution.score {
            Some(score) => "Optimal: "@ + decimal(score.occupied_days as nat)
                + " occupied day(s), "@ + decimal(score.gap_minutes as nat) + " gap minute(s)."@,
            None => "Optimal solution returned without a score."@,
        },
        SolveStatus::Infeasible => "Infeasible: known supported meetings conflict."@,
        SolveStatus::Cancelled => "Optimization cancelled."@,
    }
}

/// The state with a solution.
pub open spec fn with_solution(s: AppStateView, solution: SolutionView) -> AppStateView {
    with_cursors_clamped(
        AppStateView {
            result_cursor: 0,
            timetable_viewport: fresh_viewport(),
            timetable_navigation: Navigation::Alternatives,
            alternative: 0,
            actual_members: Seq::empty(),
            export: None,
            optimize_running: false,
            status: announcement(solution),
            solution: Some(solution),
            ..s
        },
    )
}

/// The position of a member with an id, 0 if there is none.
pub open spec fn member_position(members: Seq<SectionOptionView>, id: Option<Seq<char>>) -> int {
    match id {
        Some(id) => if id_position(members, id) < members.len() {
            id_position(members, id)
        } else {
            0
        },
        None => 0,
    }
}

/// The position of the first member with an id, the length if there is none.
pub open spec fn id_position(members: Seq<SectionOptionView>, id: Seq<char>) -> int
    decreases members.len(),
{
    if members.len() == 0 || members[0].id == id {
        0
    } else {
        1 + id_position(members.drop_first(), id)
    }
}

/// The state with another member of the current choice.
pub open spec fn with_member_cycled(s: AppStateView, delta: int) -> AppStateView {
    match s.solution {
        None => s,
        Some(solution) => if solution.status != SolveStatus::OptimalKnown
            || solution.choices.len() == 0 {
            s
        } else {
            let choice = solution.choices[clamped(s.result_cursor, solution.choices.len() as int)];
            if choice.members.len() <= 1 {
                s
            } else {
                let current = member_position(
                    choice.members,
                    lookup(s.actual_members, choice.requirement_id),
                );
                let next = choice.members[moved(current, choice.members.len() as int, delta)];
                AppStateView {
                    actual_members: map_insert::<String, Seq<char>>(
                        s.actual_members,
                        choice.requirement_id,
                        next.id,
                    ),
                    export: None,
                    status: choice.requirement_id + " now uses "@ + next.label + "."@,
                    ..s
                }
            }
        },
    }
}

fn find_member_position(choice: &TimeChoice, id: Option<&String>) -> (r: usize)
    ensures
        r == member_position(choice.deep_view().members, id.deep_view()),
        choice.members@.len() > 0 ==> r < choice.members@.len(),
{
    let members = &choice.members;
    let ghost all = members.deep_view();
    assert(all.len() == members@.len());
    let id = match id {
        Some(id) => id,
        None => {
            return 0;
        },
    };
    let mut index: usize = 0;
    assert(all.skip(0) =~= all);
    while index < members.len() && members[index].id != *id
        invariant
            index <= members@.len(),
            all == members.deep_view(),
            id_position(all, id@) == index + id_position(all.skip(index as int), id@),
        decreases members@.len() - index,
    {
        assert(all.skip(index as int)[0] == members@[index as int].deep_view());
        assert(all.skip(index as int).drop_first() =~= all.skip(index + 1));
        index += 1;
    }
    if index < members.len() {
        assert(all.skip(index as int)[0] == members@[index as int].deep_view());
        index
    } else {
        0
    }
}

impl AppState {
    pub fn install_solution(&mut self, solution: Solution)
        ensures
            final(self).deep_view() == with_solution(
                old(self).deep_view(),
                solution.deep_view(),
            ),
    {
        self.result_cursor = 0;
        self.timetable_viewport = ScrollViewport::fresh();
        self.timetable_navigation = Navigation::Alternatives;
        self.alternative = 0;
        self.actual_members = OrderedMap::new();
        self.export = None;
        self.optimize_running = false;
        self.status = match solution.status {
            SolveStatus::OptimalKnown => match solution.score {
                Some(score) => {
                    let mut text = "Optimal: ".to_owned();
                    text.append(decimal_text(score.occupied_days as u64).as_str());
                    text.append(" occupied day(s), ");
                    text.append(decimal_text(score.gap_minutes as u64).as_str());
                    text.append(" gap minute(s).");
                    text
                },
                None => "Optimal solution returned without a score.".to_owned(),
            },
            SolveStatus::Infeasible => "Infeasible: known supported meetings conflict.".to_owned(),
            SolveStatus::Cancelled => "Optimization cancelled.".to_owned(),
        };
        self.solution = Some(solution);
        self.clamp_cursors();
    }

    /// Takes the next or another member of the current choice.
    pub fn cycle_current_member(&mut self, delta: isize)
        ensures
            final(self).deep_view() == with_member_cycled(old(self).deep_view(), delta as int),
    {
        let (requirement_id, id, label) = match &self.solution {
            None => {
                return;
            },
            Some(solution) => {
                assert(solution.choices.deep_view().len() == solution.choices@.len());
                if solution.status != SolveStatus::OptimalKnown || solution.choices.len() == 0 {
                    return;
                }
                let index = clamp_index(self.result_cursor, solution.choices.len());
                let choice = &solution.choices[index];
                assert(solution.choices.deep_view()[index as int] == choice.deep_view());
                assert(choice.members.deep_view().len() == choice.members@.len());
                if choice.members.len() <= 1 {
                    return;
                }
                let current = find_member_position(
                    choice,
                    self.actual_members.get(&choice.requirement_id),
                );
                let next = moved_index(current, choice.members.len(), delta);
                let member = &choice.members[next];
                assert(choice.members.deep_view()[next as int] == member.deep_view());
                (choice.requirement_id.clone(), member.id.clone(), member.label.clone())
            },
        };
        let mut status = requirement_id.clone();
        status.append(" now uses ");
        status.append(label.as_str());
        status.append(".");
        self.actual_members.insert(requirement_id, id);
        self.export = None;
        self.status = status;
    }
}

/// Taking another member of a choice changes neither the solution nor its score.
pub proof fn law_member_switch_keeps_timetable(s: AppStateView, delta: int)
    ensures
        with_member_cycled(s, delta).solution == s.solution,
        with_member_cycled(s, delta).selected == s.selected,
        with_member_cycled(s, delta).generation == s.generation,
{
}

/// The calendar file of the shown timetable.
pub open spec fn export_answer(s: AppStateView) -> Result<ExportReportView, Seq<char>> {
    match s.solution {
        None => Err("optimize before exporting"@),
        Some(solution) => if solution.status != SolveStatus::OptimalKnown {
            Err("only a feasible optimal solution can be exported"@)
        } else {
            calendar_export(s.dataset, solution, s.actual_members)
        },
    }
}

/// The state after the calendar file was written.
pub open spec fn with_export(s: AppStateView, report: ExportReportView) -> AppStateView {
    AppStateView {
        status: "Exported "@ + decimal(report.event_count as nat) + " event(s) to "@ + report.path
            + "."@,
        export: Some(
            ExportSummaryView {
                path: report.path,
                event_count: report.event_count as usize,
                notices: report.notices,
            },
        ),
        ..s
    }
}

impl AppState {
    /// Makes the calendar file of the shown timetable; nothing is written yet.
    pub fn export_report(&self) -> (r: Result<ExportReport, Error>)
        ensures
            outcome(r) == export_answer(self.deep_view()),
    {
        match &self.solution {
            None => Err(Error::new("optimize before exporting")),
            Some(solution) => if solution.status != SolveStatus::OptimalKnown {
                Err(Error::new("only a feasible optimal solution can be exported"))
            } else {
                calendar_report(&self.dataset, solution, &self.actual_members)
            },
        }
    }

    /// Records why the calendar could not be exported.
    pub fn export_failed(&mut self, error: &Error)
        ensures
            final(self).deep_view() == (AppStateView {
                status: "Export failed: "@ + error.deep_view(),
                ..old(self).deep_view()
            }),
    {
        let mut status = "Export failed: ".to_owned();
        status.append(error.message.as_str());
        self.status = status;
    }

    /// Records that the calendar file was written.
    pub fn export_written(&mut self, report: &ExportReport) -> (r: ExportSummary)
        ensures
            final(self).deep_view() == with_export(old(self).deep_view(), report.deep_view()),
            Some(r.deep_view()) == final(self).deep_view().export,
    {
        let mut status = "Exported ".to_owned();
        status.append(decimal_text(report.event_count as u64).as_str());
        status.append(" event(s) to ");
        status.append(report.path.as_str());
        status.append(".");
        self.status = status;
        self.export = Some(
            ExportSummary {
                path: report.path.clone(),
                event_count: report.event_count,
                notices: duplicate_all(&report.notices),
            },
        );
        ExportSummary {
            path: report.path.clone(),
            event_count: report.event_count,
            notices: duplicate_all(&report.notices),
        }
    }
}

/// What has to be done about the background search.
pub enum WorkerCommand {
    /// It stays as it is.
    Keep,
    /// It is stopped.
    Stop,
    /// It is stopped, and another one is started for the subjects.
    Start(Vec<String>, u64),
}

pub enum WorkerCommandView {
    Keep,
    Stop,
    Start(Seq<Seq<char>>, u64),
}

impl DeepView for WorkerCommand {
    type V = WorkerCommandView;

    open spec fn deep_view(&self) -> WorkerCommandView {
        match self {
            WorkerCommand::Keep => WorkerCommandView::Keep,
            WorkerCommand::Stop => WorkerCommandView::Stop,
            WorkerCommand::Start(ids, generation) => WorkerCommandView::Start(
                ids.deep_view(),
                *generation,
            ),
        }
    }
}

/// What a changed selection means for the background search. Each generation is attempted once,
/// so that a cancelled or failed one does not start again.
pub open spec fn search_step(s: AppStateView, attempted: Option<u64>) -> (
    AppStateView,
    WorkerCommandView,
) {
    if attempted == Some(s.generation) {
        (s, WorkerCommandView::Keep)
    } else if s.selected.len() > 0 {
        (
            AppStateView {
                optimize_running: true,
                solution: None,
                export: None,
                status: "Optimizing in background. Press c to cancel."@,
                ..s
            },
            WorkerCommandView::Start(s.selected, s.generation),
        )
    } else if s.generation != 0 {
        (
            AppStateView {
                status: "No classes selected. Select classes to optimize automatically."@,
                ..s
            },
            WorkerCommandView::Stop,
        )
    } else {
        (s, WorkerCommandView::Stop)
    }
}

/// What came from the background search.
pub enum WorkerEvent {
    /// The generation of the answer and that of the search that gave it.
    Finished(u64, u64, Result<Solution, Error>),
    /// It ended without an answer.
    Stopped,
}

/// The state after something came from the background search.
pub open spec fn after_worker(
    s: AppStateView,
    finished: Option<(u64, u64, Result<SolutionView, Seq<char>>)>,
) -> AppStateView {
    let idle = AppStateView { optimize_running: false, ..s };
    match finished {
        None => AppStateView {
            status: "Optimization worker stopped unexpectedly."@,
            ..idle
        },
        Some((answer, worker, result)) => if answer != s.generation || worker != s.generation {
            AppStateView { status: "Ignored stale optimization result."@, ..idle }
        } else {
            match result {
                Ok(solution) => with_solution(idle, solution),
                Err(fault) => AppStateView { status: "Optimization failed: "@ + fault, ..idle },
            }
        },
    }
}

impl AppState {
    /// Decides what a changed selection means for the background search, given the generation
    /// that was attempted last.
    pub fn optimize_changed_selection(&mut self, attempted: Option<u64>) -> (r: WorkerCommand)
        ensures
            (final(self).deep_view(), r.deep_view()) == search_step(
                old(self).deep_view(),
                attempted,
            ),
    {
        if attempted == Some(self.generation) {
            return WorkerCommand::Keep;
        }
        let selected = self.selected_subjects();
        assert(selected.deep_view().len() == selected@.len());
        if selected.len() > 0 {
            self.optimize_running = true;
            self.solution = None;
            self.export = None;
            self.status = "Optimizing in background. Press c to cancel.".to_owned();
            return WorkerCommand::Start(selected, self.generation);
        }
        if self.generation != 0 {
            self.status =
            "No classes selected. Select classes to optimize automatically.".to_owned();
        }
        WorkerCommand::Stop
    }

    /// Takes over what came from the background search; answers to an earlier selection are
    /// ignored.
    pub fn worker_event(&mut self, event: WorkerEvent)
        ensures
            final(self).deep_view() == after_worker(
                old(self).deep_view(),
                match event {
                    WorkerEvent::Finished(answer, worker, result) => Some(
                        (answer, worker, outcome(result)),
                    ),
                    WorkerEvent::Stopped => None,
                },
            ),
    {
        self.optimize_running = false;
        match event {
            WorkerEvent::Stopped => {
                self.status = "Optimization worker stopped unexpectedly.".to_owned();
            },
            WorkerEvent::Finished(answer, worker, result) => {
                if answer != self.generation || worker != self.generation {
                    self.status = "Ignored stale optimization result.".to_owned();
                    return;
                }
                match result {
                    Ok(solution) => self.install_solution(solution),
                    Err(error) => {
                        let mut status = "Optimization failed: ".to_owned();
                        status.append(error.message.as_str());
                        self.status = status;
                    },
                }
            },
        }
    }

    /// Records that the background search was told to stop.
    pub fn cancel_requested(&mut self)
        ensures
            final(self).deep_view() == (AppStateView {
                optimize_running: false,
                status: "Cancellation requested."@,
                ..old(self).deep_view()
            }),
    {
        self.optimize_running = false;
        self.status = "Cancellation requested.".to_owned();
    }
}

/// An answer to an earlier selection never becomes the solution.
pub proof fn law_stale_answer_is_ignored(
    s: AppStateView,
    answer: u64,
    worker: u64,
    result: Result<SolutionView, Seq<char>>,
)
    requires
        answer != s.generation || worker != s.generation,
    ensures
        after_worker(s, Some((answer, worker, result))).solution == s.solution,
        after_worker(s, Some((answer, worker, result))).selected == s.selected,
{
}

/// The pane after a click.
pub open spec fn clicked(regions: Seq<(Area, Focus)>, column: int, row: int, focus: Focus) -> Focus
    decreases regions.len(),
{
    if regions.len() == 0 {
        focus
    } else if regions[0].0.covers(column, row) {
        regions[0].1
    } else {
        clicked(regions.drop_first(), column, row, focus)
    }
}

/// The state after a mouse event: a click of the left button moves the focus and nothing else.
pub open spec fn after_mouse(s: AppStateView, mouse: Mouse) -> AppStateView {
    if !mouse.left_press || s.show_help || s.editor is Some || s.focus == Focus::Manual {
        s
    } else {
        AppStateView {
            focus: clicked(
                s.focus_regions,
                mouse.column as int,
                mouse.row as int,
                s.focus,
            ),
            ..s
        }
    }
}

/// The pane after or before a pane.
pub open spec fn focus_after(focus: Focus, reverse: bool) -> Focus {
    match focus {
        Focus::Manual => Focus::Selected,
        Focus::Selected => if reverse {
            Focus::Subjects
        } else {
            Focus::Timetable
        },
        Focus::Timetable => if reverse {
            Focus::Selected
        } else {
            Focus::Subjects
        },
        _ => if reverse {
            Focus::Timetable
        } else {
            Focus::Selected
        },
    }
}

/// The state after the cursor of the current pane was moved.
pub open spec fn with_cursor_moved(s: AppStateView, delta: int) -> AppStateView {
    match s.focus {
        Focus::Subjects | Focus::Search => AppStateView {
            cursor: moved(s.cursor, s.filtered.len() as int, delta),
            ..s
        },
        Focus::Selected => AppStateView {
            selected_cursor: moved(s.selected_cursor, s.selected.len() as int, delta),
            ..s
        },
        Focus::Timetable => AppStateView {
            timetable_viewport: ScrollViewport {
                offset: moved_offset(
                    s.timetable_viewport.offset as int,
                    delta,
                    s.timetable_viewport.max_offset as int,
                ) as u16,
                ..s.timetable_viewport
            },
            ..s
        },
        Focus::Manual => AppStateView {
            manual_cursor: moved(
                s.manual_cursor,
                entries_of_term(s.manual.entries, s.base.term_id).len() as int,
                delta,
            ),
            ..s
        },
    }
}

/// A key while the help is shown.
pub open spec fn help_step(s: AppStateView, code: KeyCode) -> (AppStateView, AppAction) {
    match code {
        KeyCode::Esc | KeyCode::Enter => (
            AppStateView { show_help: false, ..s },
            AppAction::Nothing,
        ),
        KeyCode::Char(c) => if c == '?' {
            (AppStateView { show_help: false, ..s }, AppAction::Nothing)
        } else if c == 'q' {
            (AppStateView { should_quit: true, ..s }, AppAction::Quit)
        } else {
            (s, AppAction::Nothing)
        },
        _ => (s, AppAction::Nothing),
    }
}

/// Whether a key stands for a character of a text.
pub open spec fn types_text(key: Key) -> bool {
    !key.control && !key.alt
}

/// A key while the editor is open.
pub open spec fn editor_step(s: AppStateView, form: ManualFormView, key: Key) -> (
    AppStateView,
    AppAction,
) {
    let clean = ManualFormView { error: None, ..form };
    let value = field_value(clean, clean.field);
    let edit = |value: Seq<char>| (
        AppStateView { editor: Some(with_value(clean, value)), ..s },
        AppAction::Nothing,
    );
    let kept = AppStateView { editor: Some(clean), ..s };
    match key.code {
        KeyCode::Esc => (AppStateView { editor: None, ..s }, AppAction::Nothing),
        KeyCode::Tab => (
            AppStateView { editor: Some(at_next_field(clean, false)), ..s },
            AppAction::Nothing,
        ),
        KeyCode::BackTab => (
            AppStateView { editor: Some(at_next_field(clean, true)), ..s },
            AppAction::Nothing,
        ),
        KeyCode::Enter => (kept, AppAction::SaveManual),
        KeyCode::Backspace => edit(shortened(value)),
        KeyCode::Delete => edit(Seq::empty()),
        KeyCode::Char(c) => if c == 's' && key.control {
            (kept, AppAction::SaveManual)
        } else if c == 'u' && key.control {
            edit(Seq::empty())
        } else if types_text(key) {
            edit(value.push(c))
        } else {
            (kept, AppAction::Nothing)
        },
        _ => (kept, AppAction::Nothing),
    }
}

/// A key while the search is active.
pub open spec fn search_key_step(s: AppStateView, key: Key) -> AppStateView {
    match key.code {
        KeyCode::Esc | KeyCode::Enter => AppStateView { focus: Focus::Subjects, ..s },
        KeyCode::Tab => AppStateView { focus: focus_after(s.focus, false), ..s },
        KeyCode::BackTab => AppStateView { focus: focus_after(s.focus, true), ..s },
        KeyCode::Up => with_cursor_moved(AppStateView { focus: Focus::Subjects, ..s }, -1),
        KeyCode::Down => with_cursor_moved(AppStateView { focus: Focus::Subjects, ..s }, 1),
        KeyCode::Backspace => refiltered(AppStateView { query: shortened(s.query), ..s }),
        KeyCode::Delete => refiltered(AppStateView { query: Seq::empty(), ..s }),
        KeyCode::Char(c) => if c == 'u' && key.control {
            refiltered(AppStateView { query: Seq::empty(), ..s })
        } else if types_text(key) {
            refiltered(AppStateView { query: s.query.push(c), ..s })
        } else {
            s
        },
        _ => s,
    }
}

/// Whether a key points to the left.
pub open spec fn leftwards(code: KeyCode) -> bool {
    code == KeyCode::Left || code == KeyCode::Char('h')
}

pub open spec fn rightwards(code: KeyCode) -> bool {
    code == KeyCode::Right || code == KeyCode::Char('l')
}

pub open spec fn upwards(code: KeyCode) -> bool {
    code == KeyCode::Up || code == KeyCode::Char('k')
}

pub open spec fn downwards(code: KeyCode) -> bool {
    code == KeyCode::Down || code == KeyCode::Char('j')
}

/// The state with another of the equally good timetables.
pub open spec fn with_alternative(s: AppStateView, solution: SolutionView, at: int) -> AppStateView {
    AppStateView {
        alternative: at,
        solution: Some(SolutionView { choices: solution.alternatives[at], ..solution }),
        actual_members: Seq::empty(),
        export: None,
        result_cursor: 0,
        status: "Timetable "@ + decimal((at + 1) as nat) + " of "@ + decimal(
            solution.alternatives.len(),
        ) + "."@,
        ..s
    }
}

/// The state with a block of the timetable picked out.
pub open spec fn at_block(s: AppStateView, blocks: Seq<Block>, at: int) -> AppStateView {
    AppStateView {
        timetable_navigation: Navigation::Blocks(at as usize),
        result_cursor: blocks[at].choice as int,
        ..s
    }
}

/// A key of the timetable, unless the timetable leaves it to the other panes.
pub open spec fn timetable_step(s: AppStateView, code: KeyCode) -> Option<AppStateView> {
    match s.solution {
        None => None,
        Some(solution) => {
            let blocks = blocks_of(solution.choices);
            let n = solution.alternatives.len() as int;
            if solution.status != SolveStatus::OptimalKnown {
                None
            } else {
                match s.timetable_navigation {
                    Navigation::Alternatives => if leftwards(code) && n > 1 {
                        Some(with_alternative(s, solution, moved(s.alternative, n, -1)))
                    } else if rightwards(code) && n > 1 {
                        Some(with_alternative(s, solution, moved(s.alternative, n, 1)))
                    } else if code == KeyCode::Enter && blocks.len() > 0 {
                        Some(at_block(s, blocks, 0))
                    } else {
                        None
                    },
                    Navigation::Blocks(position) => {
                        let at = clamped(position as int, blocks.len() as int);
                        if code == KeyCode::Esc {
                            Some(
                                AppStateView {
                                    timetable_navigation: Navigation::Alternatives,
                                    ..s
                                },
                            )
                        } else if blocks.len() == 0 {
                            None
                        } else if code == KeyCode::Enter {
                            Some(
                                AppStateView {
                                    timetable_navigation: Navigation::Members(at as usize),
                                    ..s
                                },
                            )
                        } else if downwards(code) {
                            Some(at_block(s, blocks, moved(at, blocks.len() as int, 1)))
                        } else if upwards(code) {
                            Some(at_block(s, blocks, moved(at, blocks.len() as int, -1)))
                        } else if leftwards(code) || rightwards(code) {
                            Some(
                                at_block(
                                    s,
                                    blocks,
                                    other_day(
                                        blocks,
                                        at,
                                        blocks[at].weekday as int,
                                        leftwards(code),
                                        5,
                                    ),
                                ),
                            )
                        } else {
                            None
                        }
                    },
                    Navigation::Members(position) => if code == KeyCode::Esc {
                        Some(
                            AppStateView {
                                timetable_navigation: Navigation::Blocks(position),
                                ..s
                            },
                        )
                    } else if leftwards(code) {
                        Some(with_member_cycled(s, -1))
                    } else if rightwards(code) {
                        Some(with_member_cycled(s, 1))
                    } else {
                        None
                    },
                }
            }
        },
    }
}

/// The state after the timetable was paged through.
pub open spec fn with_page(s: AppStateView, back: bool) -> AppStateView {
    if s.focus == Focus::Timetable {
        let step = page_step(s.timetable_viewport.height as int);
        with_cursor_moved(
            s,
            if back {
                -step
            } else {
                step
            },
        )
    } else {
        with_cursor_moved(
            s,
            if back {
                -10
            } else {
                10
            },
        )
    }
}

/// The state with the timetable scrolled to a line.
pub open spec fn scrolled_to(s: AppStateView, offset: u16) -> AppStateView {
    AppStateView {
        timetable_viewport: ScrollViewport { offset, ..s.timetable_viewport },
        ..s
    }
}

/// The lower of two numbers.
pub open spec fn lower_of(a: u16, b: u16) -> u16 {
    if a <= b {
        a
    } else {
        b
    }
}

/// A letter or other character while no text is typed.
pub open spec fn char_step(s: AppStateView, c: char) -> (AppStateView, AppAction) {
    if c == 'q' {
        (AppStateView { should_quit: true, ..s }, AppAction::Quit)
    } else if c == '?' {
        (AppStateView { show_help: true, ..s }, AppAction::Nothing)
    } else if c == '/' {
        (AppStateView { focus: Focus::Search, ..s }, AppAction::Nothing)
    } else if c == 'k' {
        (with_cursor_moved(s, -1), AppAction::Nothing)
    } else if c == 'j' {
        (with_cursor_moved(s, 1), AppAction::Nothing)
    } else if c == ' ' {
        (
            if s.focus == Focus::Subjects {
                toggled_subject(s)
            } else if s.focus == Focus::Selected {
                removed_selected(s)
            } else {
                s
            },
            AppAction::Nothing,
        )
    } else if c == 'c' {
        (s, AppAction::CancelOptimize)
    } else if c == 'e' {
        (s, AppAction::Export)
    } else if c == 's' {
        (AppStateView { focus: Focus::Selected, ..s }, AppAction::Nothing)
    } else if c == 't' {
        (
            scrolled_to(
                AppStateView { focus: Focus::Timetable, ..s },
                lower_of(16, s.timetable_viewport.max_offset),
            ),
            AppAction::Nothing,
        )
    } else if c == 'm' {
        (
            AppStateView {
                focus: if s.focus == Focus::Manual {
                    Focus::Selected
                } else {
                    Focus::Manual
                },
                ..s
            },
            AppAction::Nothing,
        )
    } else if c == 'a' {
        (adding_manual(s), AppAction::Nothing)
    } else if c == 'x' && s.focus == Focus::Manual {
        (s, AppAction::ToggleManualEnabled)
    } else if c == 'h' {
        (AppStateView { focus: focus_after(s.focus, true), ..s }, AppAction::Nothing)
    } else if c == 'l' {
        (AppStateView { focus: focus_after(s.focus, false), ..s }, AppAction::Nothing)
    } else {
        (s, AppAction::Nothing)
    }
}

/// A key while no text is typed and no help is shown.
pub open spec fn pane_step(s: AppStateView, code: KeyCode) -> (AppStateView, AppAction) {
    match code {
        KeyCode::Char(c) => char_step(s, c),
        KeyCode::Esc => if s.focus == Focus::Manual {
            (AppStateView { focus: Focus::Selected, ..s }, AppAction::Nothing)
        } else {
            (AppStateView { should_quit: true, ..s }, AppAction::Quit)
        },
        KeyCode::Tab | KeyCode::Right => (
            AppStateView { focus: focus_after(s.focus, false), ..s },
            AppAction::Nothing,
        ),
        KeyCode::BackTab | KeyCode::Left => (
            AppStateView { focus: focus_after(s.focus, true), ..s },
            AppAction::Nothing,
        ),
        KeyCode::Up => (with_cursor_moved(s, -1), AppAction::Nothing),
        KeyCode::Down => (with_cursor_moved(s, 1), AppAction::Nothing),
        KeyCode::PageUp => (with_page(s, true), AppAction::Nothing),
        KeyCode::PageDown => (with_page(s, false), AppAction::Nothing),
        KeyCode::Home => (
            if s.focus == Focus::Timetable {
                scrolled_to(s, 0)
            } else {
                s
            },
            AppAction::Nothing,
        ),
        KeyCode::End => (
            if s.focus == Focus::Timetable {
                scrolled_to(s, s.timetable_viewport.max_offset)
            } else {
                s
            },
            AppAction::Nothing,
        ),
        KeyCode::Enter => (
            match s.focus {
                Focus::Subjects => toggled_subject(s),
                Focus::Selected => removed_selected(s),
                Focus::Manual => editing_manual(s),
                _ => s,
            },
            AppAction::Nothing,
        ),
        _ => (s, AppAction::Nothing),
    }
}

/// What a key does.
pub open spec fn key_step(s: AppStateView, key: Key) -> (AppStateView, AppAction) {
    if s.show_help {
        help_step(s, key.code)
    } else if s.editor is Some {
        editor_step(s, s.editor->0, key)
    } else if s.focus == Focus::Search {
        (search_key_step(s, key), AppAction::Nothing)
    } else if s.focus == Focus::Timetable && timetable_step(s, key.code) is Some {
        (timetable_step(s, key.code)->0, AppAction::Nothing)
    } else {
        pane_step(s, key.code)
    }
}

fn is_leftwards(code: KeyCode) -> (r: bool)
    ensures
        r == leftwards(code),
{
    code == KeyCode::Left || code == KeyCode::Char('h')
}

fn is_rightwards(code: KeyCode) -> (r: bool)
    ensures
        r == rightwards(code),
{
    code == KeyCode::Right || code == KeyCode::Char('l')
}

fn is_upwards(code: KeyCode) -> (r: bool)
    ensures
        r == upwards(code),
{
    code == KeyCode::Up || code == KeyCode::Char('k')
}

fn is_downwards(code: KeyCode) -> (r: bool)
    ensures
        r == downwards(code),
{
    code == KeyCode::Down || code == KeyCode::Char('j')
}

impl AppState {
    /// Focus only: clicking never selects or removes a class or changes a schedule.
    pub fn handle_mouse(&mut self, mouse: Mouse)
        ensures
            final(self).deep_view() == after_mouse(old(self).deep_view(), mouse),
    {
        if !mouse.left_press || self.show_help || self.editor.is_some() || self.focus
            == Focus::Manual {
            return;
        }
        let ghost all = self.focus_regions@;
        let mut index: usize = 0;
        assert(all.skip(0) =~= all);
        while index < self.focus_regions.len()
            invariant
                index <= self.focus_regions@.len(),
                all == self.focus_regions@,
                *self == *old(self),
                after_mouse(old(self).deep_view(), mouse) == (AppStateView {
                    focus: clicked(all, mouse.column as int, mouse.row as int, self.focus),
                    ..old(self).deep_view()
                }),
                clicked(all, mouse.column as int, mouse.row as int, self.focus) == clicked(
                    all.skip(index as int),
                    mouse.column as int,
                    mouse.row as int,
                    self.focus,
                ),
            decreases self.focus_regions@.len() - index,
        {
            assert(all.skip(index as int)[0] == self.focus_regions@[index as int]);
            assert(all.skip(index as int).drop_first() =~= all.skip(index + 1));
            if self.focus_regions[index].0.contains(mouse.column, mouse.row) {
                let focus = self.focus_regions[index].1;
                self.focus = focus;
                return;
            }
            index += 1;
        }
    }

    fn next_focus(&mut self, reverse: bool)
        ensures
            final(self).deep_view() == (AppStateView {
                focus: focus_after(old(self).focus, reverse),
                ..old(self).deep_view()
            }),
    {
        self.focus = match self.focus {
            Focus::Manual => Focus::Selected,
            Focus::Selected => if reverse {
                Focus::Subjects
            } else {
                Focus::Timetable
            },
            Focus::Timetable => if reverse {
                Focus::Selected
            } else {
                Focus::Subjects
            },
            _ => if reverse {
                Focus::Timetable
            } else {
                Focus::Selected
            },
        };
    }

    fn move_cursor(&mut self, delta: i32)
        requires
            -0x10000 <= delta <= 0x10000,
        ensures
            final(self).deep_view() == with_cursor_moved(old(self).deep_view(), delta as int),
    {
        match self.focus {
            Focus::Subjects | Focus::Search => {
                assert(self.filtered.deep_view().len() == self.filtered@.len());
                self.cursor = moved_index(self.cursor, self.filtered.len(), delta as isize);
            },
            Focus::Selected => {
                let len = self.selected.items().len();
                assert(self.selected.deep_view().len() == len);
                self.selected_cursor = moved_index(self.selected_cursor, len, delta as isize);
            },
            Focus::Timetable => {
                self.timetable_viewport.scroll(delta);
            },
            Focus::Manual => {
                let len = self.manual_visible_len();
                self.manual_cursor = moved_index(self.manual_cursor, len, delta as isize);
            },
        }
    }

    fn handle_search_key(&mut self, key: Key)
        ensures
            final(self).deep_view() == search_key_step(old(self).deep_view(), key),
    {
        match key.code {
            KeyCode::Esc | KeyCode::Enter => {
                self.focus = Focus::Subjects;
            },
            KeyCode::Tab => {
                self.next_focus(false);
            },
            KeyCode::BackTab => {
                self.next_focus(true);
            },
            KeyCode::Up => {
                self.focus = Focus::Subjects;
                self.move_cursor(-1);
            },
            KeyCode::Down => {
                self.focus = Focus::Subjects;
                self.move_cursor(1);
            },
            KeyCode::Backspace => {
                self.query = without_last(self.query.as_str());
                self.recompute_filter();
            },
            KeyCode::Delete => {
                self.query = String::new();
                assert(self.query@ =~= Seq::<char>::empty());
                self.recompute_filter();
            },
            KeyCode::Char(c) => {
                if c == 'u' && key.control {
                    self.query = String::new();
                    assert(self.query@ =~= Seq::<char>::empty());
                    self.recompute_filter();
                } else if !key.control && !key.alt {
                    self.query.push(c);
                    self.recompute_filter();
                }
            },
            _ => {},
        }
    }

    fn handle_editor_key(&mut self, key: Key) -> (r: AppAction)
        requires
            old(self).editor is Some,
        ensures
            (final(self).deep_view(), r) == editor_step(
                old(self).deep_view(),
                old(self).deep_view().editor->0,
                key,
            ),
    {
        let mut form = match self.editor.take() {
            Some(form) => form,
            None => {
                return AppAction::Nothing;
            },
        };
        form.error = None;
        let mut action = AppAction::Nothing;
        match key.code {
            KeyCode::Esc => {
                return AppAction::Nothing;
            },
            KeyCode::Tab => {
                form.next_field(false);
            },
            KeyCode::BackTab => {
                form.next_field(true);
            },
            KeyCode::Enter => {
                action = AppAction::SaveManual;
            },
            KeyCode::Backspace => {
                let value = without_last(form.value(form.field).as_str());
                form.set_value(value);
            },
            KeyCode::Delete => {
                let blank = String::new();
                assert(blank@ =~= Seq::<char>::empty());
                form.set_value(blank);
            },
            KeyCode::Char(c) => {
                if c == 's' && key.control {
                    action = AppAction::SaveManual;
                } else if c == 'u' && key.control {
                    let blank = String::new();
                    assert(blank@ =~= Seq::<char>::empty());
                    form.set_value(blank);
                } else if !key.control && !key.alt {
                    let mut value = form.value(form.field).clone();
                    value.push(c);
                    form.set_value(value);
                }
            },
            _ => {},
        }
        self.editor = Some(form);
        action
    }

    /// The block of the timetable that is picked out: its weekday, start and end.
    pub fn selected_block(&self) -> (r: Option<(u8, u16, u16)>)
        ensures
            r == block_at(self.deep_view()),
    {
        let solution = match &self.solution {
            Some(solution) => solution,
            None => {
                return None;
            },
        };
        let position = match self.timetable_navigation {
            Navigation::Alternatives => {
                return None;
            },
            Navigation::Blocks(position) => position,
            Navigation::Members(position) => position,
        };
        let blocks = timetable_blocks(&solution.choices);
        if blocks.len() == 0 {
            return None;
        }
        let block = blocks[clamp_index(position, blocks.len())];
        Some((block.weekday, block.start_minute, block.end_minute))
    }

    fn show_alternative(&mut self, at: usize)
        requires
            old(self).solution is Some,
            at < (old(self).solution->0).alternatives@.len(),
        ensures
            final(self).deep_view() == with_alternative(
                old(self).deep_view(),
                (old(self).solution->0).deep_view(),
                at as int,
            ),
    {
        let (choices, count) = match &self.solution {
            Some(solution) => {
                assert(solution.alternatives.deep_view().len() == solution.alternatives@.len());
                assert(solution.alternatives.deep_view()[at as int]
                    == solution.alternatives@[at as int].deep_view());
                (duplicate_all(&solution.alternatives[at]), solution.alternatives.len())
            },
            None => {
                return;
            },
        };
        if let Some(solution) = &mut self.solution {
            solution.choices = choices;
        }
        self.alternative = at;
        self.actual_members = OrderedMap::new();
        self.export = None;
        self.result_cursor = 0;
        let mut status = "Timetable ".to_owned();
        status.append(decimal_text((at + 1) as u64).as_str());
        status.append(" of ");
        status.append(decimal_text(count as u64).as_str());
        status.append(".");
        self.status = status;
        assert(self.deep_view() =~= with_alternative(
            old(self).deep_view(),
            (old(self).solution->0).deep_view(),
            at as int,
        ));
    }

    fn pick_block(&mut self, blocks: &Vec<Block>, at: usize)
        requires
            at < blocks@.len(),
        ensures
            final(self).deep_view() == at_block(old(self).deep_view(), blocks@, at as int),
    {
        self.timetable_navigation = Navigation::Blocks(at);
        self.result_cursor = blocks[at].choice;
    }

    /// Handles a key of the timetable; returns whether it was one.
    fn handle_timetable_key(&mut self, code: KeyCode) -> (r: bool)
        ensures
            match timetable_step(old(self).deep_view(), code) {
                Some(next) => r && final(self).deep_view() == next,
                None => !r && *final(self) == *old(self),
            },
    {
        let (blocks, count) = match &self.solution {
            Some(solution) => {
                if solution.status != SolveStatus::OptimalKnown {
                    return false;
                }
                proof {
                    assert(solution.choices.deep_view().len() == solution.choices.len());
                    assert(solution.alternatives.deep_view().len()
                        == solution.alternatives@.len());
                    lemma_blocks_wf(solution.choices.deep_view());
                }
                (timetable_blocks(&solution.choices), solution.alternatives.len())
            },
            None => {
                return false;
            },
        };
        match self.timetable_navigation {
            Navigation::Alternatives => {
                if is_leftwards(code) && count > 1 {
                    let at = moved_index(self.alternative, count, -1);
                    self.show_alternative(at);
                    true
                } else if is_rightwards(code) && count > 1 {
                    let at = moved_index(self.alternative, count, 1);
                    self.show_alternative(at);
                    true
                } else if code == KeyCode::Enter && blocks.len() > 0 {
                    self.pick_block(&blocks, 0);
                    true
                } else {
                    false
                }
            },
            Navigation::Blocks(position) => {
                if code == KeyCode::Esc {
                    self.timetable_navigation = Navigation::Alternatives;
                    return true;
                }
                if blocks.len() == 0 {
                    return false;
                }
                let at = clamp_index(position, blocks.len());
                if code == KeyCode::Enter {
                    self.timetable_navigation = Navigation::Members(at);
                    true
                } else if is_downwards(code) {
                    let next = moved_index(at, blocks.len(), 1);
                    self.pick_block(&blocks, next);
                    true
                } else if is_upwards(code) {
                    let next = moved_index(at, blocks.len(), -1);
                    self.pick_block(&blocks, next);
                    true
                } else if is_leftwards(code) || is_rightwards(code) {
                    assert(blocks@[at as int].weekday < 5);
                    let next = move_to_day(&blocks, at, is_leftwards(code));
                    self.pick_block(&blocks, next);
                    true
                } else {
                    false
                }
            },
            Navigation::Members(position) => {
                if code == KeyCode::Esc {
                    self.timetable_navigation = Navigation::Blocks(position);
                    true
                } else if is_leftwards(code) {
                    self.cycle_current_member(-1);
                    true
                } else if is_rightwards(code) {
                    self.cycle_current_member(1);
                    true
                } else {
                    false
                }
            },
        }
    }

    fn handle_char(&mut self, c: char) -> (r: AppAction)
        ensures
            (final(self).deep_view(), r) == char_step(old(self).deep_view(), c),
    {
        if c == 'q' {
            self.should_quit = true;
            return AppAction::Quit;
        } else if c == '?' {
            self.show_help = true;
        } else if c == '/' {
            self.focus = Focus::Search;
        } else if c == 'k' {
            self.move_cursor(-1);
        } else if c == 'j' {
            self.move_cursor(1);
        } else if c == ' ' {
            if self.focus == Focus::Subjects {
                self.toggle_current_subject();
            } else if self.focus == Focus::Selected {
                self.remove_current_selected();
            }
        } else if c == 'c' {
            return AppAction::CancelOptimize;
        } else if c == 'e' {
            return AppAction::Export;
        } else if c == 's' {
            self.focus = Focus::Selected;
        } else if c == 't' {
            self.focus = Focus::Timetable;
            self.timetable_viewport.offset = if self.timetable_viewport.max_offset < 16 {
                self.timetable_viewport.max_offset
            } else {
                16
            };
        } else if c == 'm' {
            self.focus = if self.focus == Focus::Manual {
                Focus::Selected
            } else {
                Focus::Manual
            };
        } else if c == 'a' {
            self.open_add_manual();
        } else if c == 'x' && self.focus == Focus::Manual {
            return AppAction::ToggleManualEnabled;
        } else if c == 'h' {
            self.next_focus(true);
        } else if c == 'l' {
            self.next_focus(false);
        }
        AppAction::Nothing
    }

    fn handle_pane_key(&mut self, code: KeyCode) -> (r: AppAction)
        ensures
            (final(self).deep_view(), r) == pane_step(old(self).deep_view(), code),
    {
        match code {
            KeyCode::Char(c) => {
                return self.handle_char(c);
            },
            KeyCode::Esc => {
                if self.focus == Focus::Manual {
                    self.focus = Focus::Selected;
                } else {
                    self.should_quit = true;
                    return AppAction::Quit;
                }
            },
            KeyCode::Tab | KeyCode::Right => {
                self.next_focus(false);
            },
            KeyCode::BackTab | KeyCode::Left => {
                self.next_focus(true);
            },
            KeyCode::Up => {
                self.move_cursor(-1);
            },
            KeyCode::Down => {
                self.move_cursor(1);
            },
            KeyCode::PageUp => {
                if self.focus == Focus::Timetable {
                    self.timetable_viewport.page(true);
                } else {
                    self.move_cursor(-10);
                }
            },
            KeyCode::PageDown => {
                if self.focus == Focus::Timetable {
                    self.timetable_viewport.page(false);
                } else {
                    self.move_cursor(10);
                }
            },
            KeyCode::Home => {
                if self.focus == Focus::Timetable {
                    self.timetable_viewport.offset = 0;
                }
            },
            KeyCode::End => {
                if self.focus == Focus::Timetable {
                    self.timetable_viewport.offset = self.timetable_viewport.max_offset;
                }
            },
            KeyCode::Enter => match self.focus {
                Focus::Subjects => {
                    self.toggle_current_subject();
                },
                Focus::Selected => {
                    self.remove_current_selected();
                },
                Focus::Manual => {
                    self.open_edit_current_manual();
                },
                _ => {},
            },
            _ => {},
        }
        AppAction::Nothing
    }

    /// Takes a key from the terminal: Ctrl+C ends the program whatever is shown, any other key is
    /// handled.
    pub fn take_key(&mut self, key: Key) -> (r: AppAction)
        ensures
            (final(self).deep_view(), r) == (if key.code == KeyCode::Char('c') && key.control {
                (old(self).deep_view(), AppAction::Quit)
            } else {
                key_step(old(self).deep_view(), key)
            }),
    {
        if key.code == KeyCode::Char('c') && key.control {
            return AppAction::Quit;
        }
        self.handle_key(key)
    }

    /// Handles a key; returns what it asks for beyond a change of the state.
    pub fn handle_key(&mut self, key: Key) -> (r: AppAction)
        ensures
            (final(self).deep_view(), r) == key_step(old(self).deep_view(), key),
    {
        if self.show_help {
            match key.code {
                KeyCode::Esc | KeyCode::Enter => {
                    self.show_help = false;
                },
                KeyCode::Char(c) => {
                    if c == '?' {
                        self.show_help = false;
                    } else if c == 'q' {
                        self.should_quit = true;
                        return AppAction::Quit;
                    }
                },
                _ => {},
            }
            return AppAction::Nothing;
        }
        if self.editor.is_some() {
            return self.handle_editor_key(key);
        }
        if self.focus == Focus::Search {
            self.handle_search_key(key);
            return AppAction::Nothing;
        }
        if self.focus == Focus::Timetable && self.handle_timetable_key(key.code) {
            return AppAction::Nothing;
        }
        self.handle_pane_key(key.code)
    }
}

} // verus!
