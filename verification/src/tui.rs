//! The state of the terminal interface, and what each key does to it.
use vstd::arithmetic::div_mod::{lemma_fundamental_div_mod, lemma_fundamental_div_mod_converse};
use vstd::prelude::*;
use crate::date::{date_text, Date};
use crate::model::{meeting_text, Course, ManualEntry, ManualEntryView, Meeting};
use crate::optimizer::lemma_meetings_view;
use crate::text::{join, joined};

pub mod state;
pub mod timetable;
pub mod view;
pub mod week;

pub use self::state::AppState;

verus! {

/// The keys of the interface.
pub const KEYMAP: &'static str = "q/Esc quit, / search, Ctrl+U clear search, j/k or Down/Up move/scroll within pane, h/l or Left/Right previous/next pane, Space select/remove class, Tab next panel/field, click pane to focus, s selected classes, m manual overlay, a add manual, Enter select/remove/edit, x enable-disable manual, c cancel, t timetable (h/l alternatives, Enter blocks, hjkl move, Enter then h/l same-time member, Esc back), PgUp/PgDn scroll active pane, Home/End first/last line, e export, ? help, Ctrl+S save editor";

/// The pane that the keys go to.
#[derive(Clone, Copy, Debug, PartialEq, Eq, Structural)]
pub enum Focus {
    Subjects,
    Search,
    Selected,
    Manual,
    Timetable,
}

/// A field of the editor for manual sections.
#[derive(Clone, Copy, Debug, PartialEq, Eq, Structural)]
pub enum EditorField {
    Course,
    Kind,
    Label,
    Meetings,
    Room,
    StartDate,
    EndDate,
}

/// The fields in the order in which they are visited.
pub open spec fn field_at(n: int) -> EditorField {
    if n == 0 {
        EditorField::Course
    } else if n == 1 {
        EditorField::Kind
    } else if n == 2 {
        EditorField::Label
    } else if n == 3 {
        EditorField::Meetings
    } else if n == 4 {
        EditorField::Room
    } else if n == 5 {
        EditorField::StartDate
    } else {
        EditorField::EndDate
    }
}

/// The position of a field.
pub open spec fn field_position(field: EditorField) -> int {
    match field {
        EditorField::Course => 0,
        EditorField::Kind => 1,
        EditorField::Label => 2,
        EditorField::Meetings => 3,
        EditorField::Room => 4,
        EditorField::StartDate => 5,
        EditorField::EndDate => 6,
    }
}

/// The name of a field.
pub open spec fn field_label(field: EditorField) -> Seq<char> {
    match field {
        EditorField::Course => "Subject"@,
        EditorField::Kind => "Component"@,
        EditorField::Label => "Section label"@,
        EditorField::Meetings => "Meetings"@,
        EditorField::Room => "Room"@,
        EditorField::StartDate => "Start date"@,
        EditorField::EndDate => "End date"@,
    }
}

impl EditorField {
    /// The fields in the order in which they are visited.
    pub fn all() -> (r: [EditorField; 7])
        ensures
            forall|i: int| 0 <= i < 7 ==> #[trigger] r@[i] == field_at(i),
    {
        [
            EditorField::Course,
            EditorField::Kind,
            EditorField::Label,
            EditorField::Meetings,
            EditorField::Room,
            EditorField::StartDate,
            EditorField::EndDate,
        ]
    }

    pub fn label(self) -> (r: &'static str)
        ensures
            r@ == field_label(self),
    {
        match self {
            EditorField::Course => "Subject",
            EditorField::Kind => "Component",
            EditorField::Label => "Section label",
            EditorField::Meetings => "Meetings",
            EditorField::Room => "Room",
            EditorField::StartDate => "Start date",
            EditorField::EndDate => "End date",
        }
    }

    fn position(self) -> (r: usize)
        ensures
            r == field_position(self),
            r < 7,
    {
        match self {
            EditorField::Course => 0,
            EditorField::Kind => 1,
            EditorField::Label => 2,
            EditorField::Meetings => 3,
            EditorField::Room => 4,
            EditorField::StartDate => 5,
            EditorField::EndDate => 6,
        }
    }
}

/// The editor for a manual section.
#[derive(Clone, Debug, PartialEq, Eq)]
pub struct ManualForm {
    pub entry_id: Option<String>,
    pub enabled: bool,
    pub course_id: String,
    pub kind: String,
    pub label: String,
    pub meetings: String,
    pub room: String,
    pub start_date: String,
    pub end_date: String,
    pub field: EditorField,
    pub error: Option<String>,
}

#[verifier::ext_equal]
pub struct ManualFormView {
    pub entry_id: Option<Seq<char>>,
    pub enabled: bool,
    pub course_id: Seq<char>,
    pub kind: Seq<char>,
    pub label: Seq<char>,
    pub meetings: Seq<char>,
    pub room: Seq<char>,
    pub start_date: Seq<char>,
    pub end_date: Seq<char>,
    pub field: EditorField,
    pub error: Option<Seq<char>>,
}

impl DeepView for ManualForm {
    type V = ManualFormView;

    open spec fn deep_view(&self) -> ManualFormView {
        ManualFormView {
            entry_id: self.entry_id.deep_view(),
            enabled: self.enabled,
            course_id: self.course_id@,
            kind: self.kind@,
            label: self.label@,
            meetings: self.meetings@,
            room: self.room@,
            start_date: self.start_date@,
            end_date: self.end_date@,
            field: self.field,
            error: self.error.deep_view(),
        }
    }
}

/// The date that all meetings start or end on, if there is one.
pub open spec fn shared_date(meetings: Seq<Meeting>, start: bool) -> Option<Date> {
    if meetings.len() == 0 {
        None
    } else {
        let first = if start {
            meetings[0].start_date
        } else {
            meetings[0].end_date
        };
        if forall|i: int|
            0 <= i < meetings.len() ==> (if start {
                (#[trigger] meetings[i]).start_date
            } else {
                meetings[i].end_date
            }) == first {
            first
        } else {
            None
        }
    }
}

/// A date as text, empty where there is none.
pub open spec fn date_or_blank(date: Option<Date>) -> Seq<char> {
    match date {
        Some(date) => date_text(date.number()),
        None => Seq::empty(),
    }
}

fn date_field(date: Option<Date>) -> (r: String)
    ensures
        r@ == date_or_blank(date),
{
    match date {
        Some(date) => date.text(),
        None => {
            let blank = String::new();
            assert(blank@ =~= Seq::<char>::empty());
            blank
        },
    }
}

fn common_date(meetings: &Vec<Meeting>, start: bool) -> (r: Option<Date>)
    ensures
        r == shared_date(meetings@, start),
{
    if meetings.len() == 0 {
        return None;
    }
    let first = if start {
        meetings[0].start_date
    } else {
        meetings[0].end_date
    };
    let mut index: usize = 0;
    while index < meetings.len()
        invariant
            0 < meetings@.len(),
            index <= meetings@.len(),
            first == (if start {
                meetings@[0].start_date
            } else {
                meetings@[0].end_date
            }),
            forall|i: int|
                0 <= i < index ==> (if start {
                    (#[trigger] meetings@[i]).start_date
                } else {
                    meetings@[i].end_date
                }) == first,
        decreases meetings@.len() - index,
    {
        let date = if start {
            meetings[index].start_date
        } else {
            meetings[index].end_date
        };
        if date != first {
            return None;
        }
        index += 1;
    }
    first
}

/// The meetings as the editor shows them.
pub open spec fn meeting_texts(meetings: Seq<Meeting>) -> Seq<Seq<char>> {
    Seq::new(meetings.len(), |i: int| meeting_text(meetings[i]))
}

/// The texts of meetings, with a separator between them.
pub fn meetings_line(meetings: &Vec<Meeting>, separator: &str) -> (r: String)
    ensures
        r@ == joined(meeting_texts(meetings@), separator@),
{
    let ghost all = meeting_texts(meetings@);
    let mut texts: Vec<String> = Vec::new();
    let mut index: usize = 0;
    assert(texts.deep_view() =~= all.take(0));
    while index < meetings.len()
        invariant
            index <= meetings@.len(),
            all == meeting_texts(meetings@),
            texts.deep_view() == all.take(index as int),
        decreases meetings@.len() - index,
    {
        let ghost so_far = texts.deep_view();
        texts.push(meetings[index].display());
        assert(texts.deep_view() =~= so_far.push(all[index as int]));
        assert(texts.deep_view() =~= all.take(index + 1));
        index += 1;
    }
    assert(all.take(index as int) =~= all);
    join(&texts, separator)
}

/// An empty editor for a course.
pub open spec fn blank_form(course_id: Seq<char>) -> ManualFormView {
    ManualFormView {
        entry_id: None,
        enabled: true,
        course_id,
        kind: "lecture"@,
        label: "Manual section"@,
        meetings: Seq::empty(),
        room: Seq::empty(),
        start_date: Seq::empty(),
        end_date: Seq::empty(),
        field: EditorField::Course,
        error: None,
    }
}

/// The editor for a manual section that is already there.
pub open spec fn entry_form(entry: ManualEntryView) -> ManualFormView {
    ManualFormView {
        entry_id: Some(entry.option.id),
        enabled: entry.enabled,
        course_id: entry.course_id,
        kind: entry.kind,
        label: entry.option.label,
        meetings: joined(meeting_texts(entry.option.meetings), ";"@),
        room: entry.option.room,
        start_date: date_or_blank(shared_date(entry.option.meetings, true)),
        end_date: date_or_blank(shared_date(entry.option.meetings, false)),
        field: EditorField::Course,
        error: None,
    }
}

/// The text of a field.
pub open spec fn field_value(form: ManualFormView, field: EditorField) -> Seq<char> {
    match field {
        EditorField::Course => form.course_id,
        EditorField::Kind => form.kind,
        EditorField::Label => form.label,
        EditorField::Meetings => form.meetings,
        EditorField::Room => form.room,
        EditorField::StartDate => form.start_date,
        EditorField::EndDate => form.end_date,
    }
}

/// The editor with another text in its current field.
pub open spec fn with_value(form: ManualFormView, value: Seq<char>) -> ManualFormView {
    match form.field {
        EditorField::Course => ManualFormView { course_id: value, ..form },
        EditorField::Kind => ManualFormView { kind: value, ..form },
        EditorField::Label => ManualFormView { label: value, ..form },
        EditorField::Meetings => ManualFormView { meetings: value, ..form },
        EditorField::Room => ManualFormView { room: value, ..form },
        EditorField::StartDate => ManualFormView { start_date: value, ..form },
        EditorField::EndDate => ManualFormView { end_date: value, ..form },
    }
}

/// The editor at the next or the previous field.
pub open spec fn at_next_field(form: ManualFormView, reverse: bool) -> ManualFormView {
    let at = field_position(form.field);
    ManualFormView {
        field: field_at((if reverse {
            at + 6
        } else {
            at + 1
        }) % 7),
        ..form
    }
}

impl ManualForm {
    pub fn new(course_id: String) -> (r: ManualForm)
        ensures
            r.deep_view() == blank_form(course_id@),
    {
        let r = ManualForm {
            entry_id: None,
            enabled: true,
            course_id,
            kind: "lecture".to_owned(),
            label: "Manual section".to_owned(),
            meetings: String::new(),
            room: String::new(),
            start_date: String::new(),
            end_date: String::new(),
            field: EditorField::Course,
            error: None,
        };
        assert(r.deep_view() =~= blank_form(course_id@));
        r
    }

    pub fn from_entry(entry: &ManualEntry) -> (r: ManualForm)
        ensures
            r.deep_view() == entry_form(entry.deep_view()),
    {
        let meetings = &entry.option.meetings;
        proof {
            lemma_meetings_view(*meetings);
        }
        ManualForm {
            entry_id: Some(entry.option.id.clone()),
            enabled: entry.enabled,
            course_id: entry.course_id.clone(),
            kind: entry.kind.clone(),
            label: entry.option.label.clone(),
            meetings: meetings_line(meetings, ";"),
            room: entry.option.room.clone(),
            start_date: date_field(common_date(meetings, true)),
            end_date: date_field(common_date(meetings, false)),
            field: EditorField::Course,
            error: None,
        }
    }

    /// The text of a field.
    pub fn value(&self, field: EditorField) -> (r: &String)
        ensures
            r@ == field_value(self.deep_view(), field),
    {
        match field {
            EditorField::Course => &self.course_id,
            EditorField::Kind => &self.kind,
            EditorField::Label => &self.label,
            EditorField::Meetings => &self.meetings,
            EditorField::Room => &self.room,
            EditorField::StartDate => &self.start_date,
            EditorField::EndDate => &self.end_date,
        }
    }

    pub fn set_value(&mut self, value: String)
        ensures
            final(self).deep_view() == with_value(old(self).deep_view(), value@),
    {
        match self.field {
            EditorField::Course => {
                self.course_id = value;
            },
            EditorField::Kind => {
                self.kind = value;
            },
            EditorField::Label => {
                self.label = value;
            },
            EditorField::Meetings => {
                self.meetings = value;
            },
            EditorField::Room => {
                self.room = value;
            },
            EditorField::StartDate => {
                self.start_date = value;
            },
            EditorField::EndDate => {
                self.end_date = value;
            },
        }
    }

    pub fn next_field(&mut self, reverse: bool)
        ensures
            final(self).deep_view() == at_next_field(old(self).deep_view(), reverse),
    {
        let at = self.field.position();
        let next: usize = (if reverse {
            at + 6
        } else {
            at + 1
        }) % 7;
        let fields = EditorField::all();
        assert(fields@[next as int] == field_at(next as int));
        self.field = fields[next];
    }
}

/// A key, as far as the interface tells keys apart.
#[derive(Clone, Copy, Debug, PartialEq, Eq, Structural)]
pub enum KeyCode {
    Char(char),
    Esc,
    Enter,
    Tab,
    BackTab,
    Up,
    Down,
    Left,
    Right,
    PageUp,
    PageDown,
    Home,
    End,
    Backspace,
    Delete,
    Other,
}

/// A key press with its modifiers.
#[derive(Clone, Copy, Debug, PartialEq, Eq, Structural)]
pub struct Key {
    pub code: KeyCode,
    pub control: bool,
    pub alt: bool,
}

impl Key {
    /// A key press without modifiers.
    pub fn plain(code: KeyCode) -> (r: Key)
        ensures
            r == (Key { code, control: false, alt: false }),
    {
        Key { code, control: false, alt: false }
    }
}

/// A rectangle of the screen.
#[derive(Clone, Copy, Debug, PartialEq, Eq, Structural)]
pub struct Area {
    pub x: u16,
    pub y: u16,
    pub width: u16,
    pub height: u16,
}

impl Area {
    /// Whether a cell of the screen lies in the rectangle.
    pub open spec fn covers(self, column: int, row: int) -> bool {
        self.x <= column < self.x + self.width && self.y <= row < self.y + self.height
    }

    pub fn contains(&self, column: u16, row: u16) -> (r: bool)
        ensures
            r == self.covers(column as int, row as int),
    {
        self.x <= column && (column as u32) < self.x as u32 + self.width as u32 && self.y <= row
            && (row as u32) < self.y as u32 + self.height as u32
    }
}

/// A mouse event.
#[derive(Clone, Copy, Debug, PartialEq, Eq, Structural)]
pub struct Mouse {
    /// Whether the left button went down.
    pub left_press: bool,
    pub column: u16,
    pub row: u16,
}

/// What an export produced.
#[derive(Clone, Debug, PartialEq, Eq)]
pub struct ExportSummary {
    pub path: String,
    pub event_count: usize,
    pub notices: Vec<String>,
}

#[verifier::ext_equal]
pub struct ExportSummaryView {
    pub path: Seq<char>,
    pub event_count: usize,
    pub notices: Seq<Seq<char>>,
}

impl DeepView for ExportSummary {
    type V = ExportSummaryView;

    open spec fn deep_view(&self) -> ExportSummaryView {
        ExportSummaryView {
            path: self.path@,
            event_count: self.event_count,
            notices: self.notices.deep_view(),
        }
    }
}

/// What a key asks for beyond a change of the state.
#[derive(Clone, Copy, Debug, PartialEq, Eq, Structural)]
pub enum AppAction {
    Nothing,
    Quit,
    CancelOptimize,
    Export,
    SaveManual,
    ToggleManualEnabled,
}

impl DeepView for AppAction {
    type V = AppAction;

    open spec fn deep_view(&self) -> AppAction {
        *self
    }
}

/// The part of a long list of lines that is visible.
#[derive(Clone, Copy, Debug, PartialEq, Eq, Structural)]
pub struct ScrollViewport {
    pub offset: u16,
    pub max_offset: u16,
    pub height: u16,
}

/// An offset moved and kept between 0 and the largest one.
pub open spec fn moved_offset(offset: int, delta: int, max_offset: int) -> int {
    let moved = if offset + delta < 0 {
        0
    } else {
        offset + delta
    };
    if moved > max_offset {
        max_offset
    } else {
        moved
    }
}

/// The step of a page: one line less than is visible, but at least one.
pub open spec fn page_step(height: int) -> int {
    if height > 1 {
        height - 1
    } else {
        1
    }
}

/// A viewport fitted to `lines` lines of which `height` are visible.
pub open spec fn fitted_viewport(
    viewport: ScrollViewport,
    lines: int,
    height: u16,
    start: int,
) -> ScrollViewport {
    let largest = if lines > height {
        lines - height
    } else {
        0
    };
    let wanted = if viewport.height == 0 {
        start
    } else {
        viewport.offset as int
    };
    ScrollViewport {
        offset: (if wanted > largest {
            largest
        } else {
            wanted
        }) as u16,
        max_offset: largest as u16,
        height,
    }
}

impl ScrollViewport {
    /// A viewport that was not drawn yet.
    pub fn fresh() -> (r: ScrollViewport)
        ensures
            r == (ScrollViewport { offset: 0, max_offset: 0, height: 0 }),
    {
        ScrollViewport { offset: 0, max_offset: 0, height: 0 }
    }

    /// Scrolls by lines.
    pub fn scroll(&mut self, delta: i32)
        requires
            -0x10000 <= delta <= 0x10000,
        ensures
            *final(self) == (ScrollViewport {
                offset: moved_offset(
                    old(self).offset as int,
                    delta as int,
                    old(self).max_offset as int,
                ) as u16,
                ..*old(self)
            }),
    {
        let moved: i32 = self.offset as i32 + delta;
        let lower: i32 = if moved < 0 {
            0
        } else {
            moved
        };
        self.offset = if lower > self.max_offset as i32 {
            self.max_offset
        } else {
            lower as u16
        };
    }

    /// Scrolls by a page, forwards or backwards.
    pub fn page(&mut self, back: bool)
        ensures
            *final(self) == (ScrollViewport {
                offset: moved_offset(
                    old(self).offset as int,
                    if back {
                        -page_step(old(self).height as int)
                    } else {
                        page_step(old(self).height as int)
                    },
                    old(self).max_offset as int,
                ) as u16,
                ..*old(self)
            }),
    {
        let step: i32 = if self.height > 1 {
            self.height as i32 - 1
        } else {
            1
        };
        self.scroll(if back {
            -step
        } else {
            step
        });
    }

    /// Fits the viewport to `lines` lines of which `height` are visible. One that was not drawn
    /// before starts at the line `start`.
    pub fn fit(&mut self, lines: u16, height: u16, start: u16)
        ensures
            *final(self) == fitted_viewport(*old(self), lines as int, height, start as int),
    {
        let wanted: u16 = if self.height == 0 {
            start
        } else {
            self.offset
        };
        self.height = height;
        self.max_offset = if lines > height {
            lines - height
        } else {
            0
        };
        self.offset = if wanted > self.max_offset {
            self.max_offset
        } else {
            wanted
        };
    }
}

/// An index moved around a list.
pub open spec fn moved(current: int, len: int, delta: int) -> int {
    if len == 0 {
        0
    } else {
        (current + delta) % len
    }
}

pub fn moved_index(current: usize, len: usize, delta: isize) -> (r: usize)
    ensures
        r == moved(current as int, len as int, delta as int),
        len > 0 ==> r < len,
{
    if len == 0 {
        return 0;
    }
    let n: u128 = len as u128;
    if delta >= 0 {
        ((current as u128 + delta as u128) % n) as usize
    } else {
        let back: u128 = (-(delta as i128)) as u128;
        if current as u128 >= back {
            ((current as u128 - back) % n) as usize
        } else {
            let short: u128 = back - current as u128;
            let rest: u128 = short % n;
            proof {
                lemma_negative_remainder(short as int, n as int);
            }
            if rest == 0 {
                0
            } else {
                (n - rest) as usize
            }
        }
    }
}

proof fn lemma_negative_remainder(m: int, n: int)
    requires
        m > 0,
        n > 0,
    ensures
        (-m) % n == (if m % n == 0 {
            0
        } else {
            n - m % n
        }),
{
    lemma_fundamental_div_mod(m, n);
    let q = m / n;
    if m % n == 0 {
        assert(-m == (-q) * n + 0) by (nonlinear_arith)
            requires
                m == n * q,
        ;
        lemma_fundamental_div_mod_converse(-m, n, -q, 0);
    } else {
        let rest = n - m % n;
        assert(-m == (-q - 1) * n + rest) by (nonlinear_arith)
            requires
                m == n * q + m % n,
                rest == n - m % n,
        ;
        lemma_fundamental_div_mod_converse(-m, n, -q - 1, rest);
    }
}

/// An index kept within a list.
pub open spec fn clamped(index: int, len: int) -> int {
    if len == 0 {
        0
    } else if index >= len {
        len - 1
    } else {
        index
    }
}

pub fn clamp_index(index: usize, len: usize) -> (r: usize)
    ensures
        r == clamped(index as int, len as int),
        len > 0 ==> r < len,
{
    if len == 0 {
        0
    } else if index >= len {
        len - 1
    } else {
        index
    }
}

} // verus!
