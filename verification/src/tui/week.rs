//! The week as a table of half hours, with the classes in their cells.
use vstd::prelude::*;
use crate::color::{
    color_index, component_label, course_color_index, course_ids, label_of, sorted_course_ids,
    PALETTE_LEN,
};
use crate::model::{
    clock, clock_text, day_name, day_name_text, ChosenSection, ChosenSectionView, Meeting,
};
use crate::optimizer::lemma_meetings_view;
use crate::order::{distinct_ascending, sort_by, stable_sorted, Duplicate, OrderedSet, Rank};
use crate::text::{
    chars_of, control, decimal, decimal_text, is_control, is_whitespace, join, joined,
    nonempty_pieces, split_nonempty, text_before, trim, trimmed, whitespace,
};

verus! {

/// The colors of the table.
#[derive(Clone, Copy, Debug, PartialEq, Eq, Structural)]
pub enum Color {
    Blue,
    Green,
    Magenta,
    Cyan,
    LightBlue,
    LightGreen,
    LightMagenta,
    LightCyan,
    Black,
    White,
    DarkGray,
    Red,
    Yellow,
}

/// How a text is shown.
#[derive(Clone, Copy, Debug, PartialEq, Eq, Structural)]
pub struct Style {
    pub fg: Option<Color>,
    pub bg: Option<Color>,
    pub bold: bool,
}

/// A text with its style.
#[derive(Clone, Debug, PartialEq, Eq)]
pub struct Span {
    pub content: String,
    pub style: Style,
}

#[verifier::ext_equal]
pub struct SpanView {
    pub content: Seq<char>,
    pub style: Style,
}

impl DeepView for Span {
    type V = SpanView;

    open spec fn deep_view(&self) -> SpanView {
        SpanView { content: self.content@, style: self.style }
    }
}

/// A line of the screen.
#[derive(Clone, Debug, PartialEq, Eq)]
pub struct Line {
    pub spans: Vec<Span>,
}

impl DeepView for Line {
    type V = Seq<SpanView>;

    open spec fn deep_view(&self) -> Seq<SpanView> {
        self.spans.deep_view()
    }
}

/// The style of the terminal.
pub open spec fn plain() -> Style {
    Style { fg: None, bg: None, bold: false }
}

/// A text in the style of the terminal.
pub open spec fn raw(content: Seq<char>) -> SpanView {
    SpanView { content, style: plain() }
}

pub fn raw_span(content: String) -> (r: Span)
    ensures
        r.deep_view() == raw(content@),
{
    Span { content, style: Style { fg: None, bg: None, bold: false } }
}

/// The columns that a text takes up on the screen.
pub uninterp spec fn display_width(text: Seq<char>) -> usize;

/// `ratatui::text::Span::raw(text).width()`: no column for an empty text, and one more for a
/// space at the end.
#[verifier::external_body]
pub(crate) fn measure(text: &str) -> (r: usize)
    ensures
        r == display_width(text@),
        text@.len() == 0 ==> r == 0,
        text@.len() > 0 && text@.last() == ' ' ==> r == display_width(text@.drop_last()) + 1,
{
    ratatui::text::Span::raw(text).width()
}

/// The longest start of a text from `n` characters on of which no start is wider than `width`.
pub open spec fn fitted_from(text: Seq<char>, n: int, width: int) -> Seq<char>
    decreases text.len() - n,
{
    if n >= text.len() || display_width(text.take(n + 1)) > width {
        text.take(n)
    } else {
        fitted_from(text, n + 1, width)
    }
}

/// The start of a text that fits a width.
pub open spec fn fitted(text: Seq<char>, width: int) -> Seq<char> {
    fitted_from(text, 0, width)
}

pub fn fit_text(text: &str, width: usize) -> (r: String)
    ensures
        r@ == fitted(text@, width as int),
        display_width(r@) <= width,
{
    let chars = chars_of(text);
    let mut output = String::new();
    let empty = measure(output.as_str());
    let mut index: usize = 0;
    assert(output@ =~= text@.take(0));
    while index < chars.len()
        invariant
            chars@ == text@,
            index <= chars@.len(),
            output@ == text@.take(index as int),
            display_width(output@) <= width,
            fitted(text@, width as int) == fitted_from(text@, index as int, width as int),
        decreases chars@.len() - index,
    {
        let mut candidate = output.clone();
        candidate.push(chars[index]);
        assert(candidate@ =~= text@.take(index + 1));
        if measure(candidate.as_str()) > width {
            return output;
        }
        output = candidate;
        index += 1;
    }
    output
}

/// A number of spaces.
pub open spec fn spaces(n: int) -> Seq<char> {
    Seq::new(n as nat, |i: int| ' ')
}

/// A text cut or filled up to a width.
pub open spec fn cell(text: Seq<char>, width: int) -> Seq<char> {
    let shown = fitted(text, width);
    shown + spaces(width - display_width(shown))
}

/// Every cell takes up exactly its width.
pub fn pad_cell(text: &str, width: usize) -> (r: String)
    ensures
        r@ == cell(text@, width as int),
        display_width(r@) == width,
{
    let mut output = fit_text(text, width);
    let ghost shown = output@;
    let ghost start = display_width(shown);
    let mut columns: usize = measure(output.as_str());
    assert(output@ =~= shown + spaces(0));
    while columns < width
        invariant
            columns == display_width(output@),
            start <= columns <= width,
            start == display_width(shown),
            output@ == shown + spaces(columns - start),
        decreases width - columns,
    {
        let ghost before = output@;
        output.push(' ');
        assert(output@.drop_last() =~= before);
        assert(output@ =~= shown + spaces(columns + 1 - start));
        columns = measure(output.as_str());
    }
    output
}

/// The widths of the weekday columns; a table needs 37 columns.
pub open spec fn column_width(width: int, day: int) -> int {
    let available = width - 12;
    available / 5 + (if day < available % 5 {
        1int
    } else {
        0int
    })
}

/// How a width is divided among the columns.
#[derive(Clone, Copy, Debug, PartialEq, Eq)]
pub struct ColumnPlan {
    pub table_width: usize,
    pub time_width: usize,
    pub day_widths: [usize; 5],
}

impl ColumnPlan {
    /// The plan divides its width.
    pub open spec fn wf(self) -> bool {
        &&& self.table_width >= 37
        &&& self.time_width == 5
        &&& forall|day: int|
            0 <= day < 5 ==> #[trigger] self.day_widths@[day] == column_width(
                self.table_width as int,
                day,
            )
    }

    pub fn new(width: usize) -> (r: Option<ColumnPlan>)
        ensures
            r is Some <==> width >= 37,
            r is Some ==> (r->0).table_width == width && (r->0).wf(),
            r is Some ==> 7 + (r->0).time_width + (r->0).day_widths@[0] + (r->0).day_widths@[1]
                + (r->0).day_widths@[2] + (r->0).day_widths@[3] + (r->0).day_widths@[4] == width,
    {
        if width < 37 {
            return None;
        }
        let available: usize = width - 12;
        let base: usize = available / 5;
        let extra: usize = available % 5;
        let mut day_widths: [usize; 5] = [base; 5];
        let mut day: usize = 0;
        while day < 5
            invariant
                day <= 5,
                width >= 37,
                available == width - 12,
                base == available / 5,
                extra == available % 5,
                forall|i: int|
                    0 <= i < 5 ==> #[trigger] day_widths@[i] == (if i < day {
                        column_width(width as int, i)
                    } else {
                        base as int
                    }),
            decreases 5 - day,
        {
            if day < extra {
                day_widths[day] = base + 1;
            }
            day += 1;
        }
        let plan = ColumnPlan { table_width: width, time_width: 5, day_widths };
        assert(plan.day_widths@[0] == column_width(width as int, 0));
        assert(plan.day_widths@[1] == column_width(width as int, 1));
        assert(plan.day_widths@[2] == column_width(width as int, 2));
        assert(plan.day_widths@[3] == column_width(width as int, 3));
        assert(plan.day_widths@[4] == column_width(width as int, 4));
        Some(plan)
    }
}

/// A meeting of a section in the table.
struct Entry {
    day: u8,
    start: u16,
    end: u16,
    course_id: String,
    kind: String,
    section_id: String,
    room: String,
    selected: bool,
    color: usize,
}

#[verifier::ext_equal]
pub struct EntryView {
    pub day: u8,
    pub start: u16,
    pub end: u16,
    pub course_id: Seq<char>,
    pub kind: Seq<char>,
    pub section_id: Seq<char>,
    pub room: Seq<char>,
    pub selected: bool,
    pub color: int,
}

impl DeepView for Entry {
    type V = EntryView;

    closed spec fn deep_view(&self) -> EntryView {
        EntryView {
            day: self.day,
            start: self.start,
            end: self.end,
            course_id: self.course_id@,
            kind: self.kind@,
            section_id: self.section_id@,
            room: self.room@,
            selected: self.selected,
            color: self.color as int,
        }
    }
}

impl Duplicate for Entry {
    fn duplicate(&self) -> (r: Self) {
        Entry {
            day: self.day,
            start: self.start,
            end: self.end,
            course_id: self.course_id.clone(),
            kind: self.kind.clone(),
            section_id: self.section_id.clone(),
            room: self.room.clone(),
            selected: self.selected,
            color: self.color,
        }
    }
}

/// The condition of being white space or a control character.
pub open spec fn invisible() -> spec_fn(char) -> bool {
    |c: char| whitespace(c) || control(c)
}

fn is_invisible(c: char) -> (r: bool)
    ensures
        r == invisible()(c),
{
    is_whitespace(c) || is_control(c)
}

/// A room on one line.
pub open spec fn room_text(room: Seq<char>) -> Seq<char> {
    joined(nonempty_pieces(room, invisible()), " "@)
}

/// A meeting with a place in the week.
pub open spec fn showable(m: Meeting) -> bool {
    m.weekday < 7 && m.start_minute < m.end_minute <= 1440
}

/// What the table shows of a section, apart from its meetings.
pub open spec fn entry_for(
    section: ChosenSectionView,
    m: Meeting,
    selected: Option<Seq<char>>,
    ordered: Seq<Seq<char>>,
) -> EntryView {
    EntryView {
        day: m.weekday,
        start: m.start_minute,
        end: m.end_minute,
        course_id: section.course_id,
        kind: label_of(section.kind),
        section_id: section.section.id,
        room: room_text(section.section.room),
        selected: selected == Some(section.course_id + "/"@ + section.kind),
        color: color_index(section.course_id, ordered),
    }
}

/// The weekday entries of a section's meetings.
pub open spec fn section_entries(
    section: ChosenSectionView,
    meetings: Seq<Meeting>,
    selected: Option<Seq<char>>,
    ordered: Seq<Seq<char>>,
) -> Seq<EntryView>
    decreases meetings.len(),
{
    if meetings.len() == 0 {
        Seq::empty()
    } else {
        let rest = section_entries(section, meetings.drop_last(), selected, ordered);
        let m = meetings.last();
        if showable(m) && m.weekday < 5 {
            rest.push(entry_for(section, m, selected, ordered))
        } else {
            rest
        }
    }
}

/// The number of weekend meetings.
pub open spec fn weekend_meetings(meetings: Seq<Meeting>) -> int
    decreases meetings.len(),
{
    if meetings.len() == 0 {
        0
    } else {
        weekend_meetings(meetings.drop_last()) + (if showable(meetings.last())
            && meetings.last().weekday >= 5 {
            1int
        } else {
            0int
        })
    }
}

/// The weekday entries of all sections.
pub open spec fn all_entries(
    sections: Seq<ChosenSectionView>,
    selected: Option<Seq<char>>,
    ordered: Seq<Seq<char>>,
) -> Seq<EntryView>
    decreases sections.len(),
{
    if sections.len() == 0 {
        Seq::empty()
    } else {
        let section = sections.last();
        all_entries(sections.drop_last(), selected, ordered) + section_entries(
            section,
            section.section.meetings,
            selected,
            ordered,
        )
    }
}

/// The number of weekend meetings of all sections.
pub open spec fn weekend_count(sections: Seq<ChosenSectionView>) -> int
    decreases sections.len(),
{
    if sections.len() == 0 {
        0
    } else {
        weekend_count(sections.drop_last()) + weekend_meetings(sections.last().section.meetings)
    }
}

/// The order of entries: by time, then course, kind and section.
pub open spec fn entry_le() -> spec_fn(EntryView, EntryView) -> bool {
    |a: EntryView, b: EntryView|
        if a.day != b.day {
            a.day < b.day
        } else if a.start != b.start {
            a.start < b.start
        } else if a.end != b.end {
            a.end < b.end
        } else if a.course_id != b.course_id {
            text_before(a.course_id, b.course_id)
        } else if a.kind != b.kind {
            text_before(a.kind, b.kind)
        } else {
            !text_before(b.section_id, a.section_id)
        }
}

/// The requirement to pick out; a blank one counts as none.
pub open spec fn wanted_requirement(selected: Option<Seq<char>>) -> Option<Seq<char>> {
    match selected {
        Some(id) => if trimmed(id).len() > 0 {
            Some(trimmed(id))
        } else {
            None
        },
        None => None,
    }
}

/// The entries of the table, in order.
pub open spec fn table_entries(
    sections: Seq<ChosenSectionView>,
    selected: Option<Seq<char>>,
) -> Seq<EntryView> {
    stable_sorted(
        all_entries(
            sections,
            wanted_requirement(selected),
            distinct_ascending::<String>(course_ids(sections)),
        ),
        entry_le(),
    )
}

fn entry_may_precede(a: &Entry, b: &Entry) -> (r: bool)
    ensures
        r == entry_le()(a.deep_view(), b.deep_view()),
{
    if a.day != b.day {
        a.day < b.day
    } else if a.start != b.start {
        a.start < b.start
    } else if a.end != b.end {
        a.end < b.end
    } else if a.course_id != b.course_id {
        a.course_id.is_before(&b.course_id)
    } else if a.kind != b.kind {
        a.kind.is_before(&b.kind)
    } else {
        !b.section_id.is_before(&a.section_id)
    }
}

fn is_selected(section: &ChosenSection, selected: &Option<String>) -> (r: bool)
    ensures
        r == (selected.deep_view() == Some(section.course_id@ + "/"@ + section.kind@)),
{
    match selected {
        Some(id) => {
            let mut name = section.course_id.clone();
            name.append("/");
            name.append(section.kind.as_str());
            name == *id
        },
        None => false,
    }
}

/// Adds the weekday entries of a section; returns the number of its weekend meetings.
fn push_entries(
    section: &ChosenSection,
    selected: &Option<String>,
    ordered: &Vec<String>,
    entries: &mut Vec<Entry>,
) -> (r: usize)
    ensures
        final(entries).deep_view() == old(entries).deep_view() + section_entries(
            section.deep_view(),
            section.deep_view().section.meetings,
            selected.deep_view(),
            ordered.deep_view(),
        ),
        r == weekend_meetings(section.deep_view().section.meetings),
        r <= section.section.meetings@.len(),
{
    let ghost view = section.deep_view();
    let ghost wanted = selected.deep_view();
    let ghost order = ordered.deep_view();
    let ghost before = entries.deep_view();
    let meetings = &section.section.meetings;
    proof {
        lemma_meetings_view(*meetings);
    }
    let slice = ordered.as_slice();
    assert(slice.deep_view() =~= order);
    let color = course_color_index(section.course_id.as_str(), slice);
    let kind = component_label(section.kind.as_str());
    let room = join(
        &split_nonempty(section.section.room.as_str(), is_invisible, Ghost(invisible())),
        " ",
    );
    let picked = is_selected(section, selected);
    let mut weekend: usize = 0;
    let mut index: usize = 0;
    proof {
        assert(meetings@.take(0) =~= Seq::empty());
        assert(entries.deep_view() =~= before + section_entries(
            view,
            meetings@.take(0),
            wanted,
            order,
        ));
    }
    while index < meetings.len()
        invariant
            index <= meetings@.len(),
            meetings == section.section.meetings,
            view == section.deep_view(),
            wanted == selected.deep_view(),
            order == ordered.deep_view(),
            color == color_index(view.course_id, order),
            kind@ == label_of(view.kind),
            room@ == room_text(view.section.room),
            picked == (wanted == Some(view.course_id + "/"@ + view.kind)),
            weekend <= index,
            weekend == weekend_meetings(meetings@.take(index as int)),
            entries.deep_view() == before + section_entries(
                view,
                meetings@.take(index as int),
                wanted,
                order,
            ),
        decreases meetings@.len() - index,
    {
        let m = meetings[index];
        let ghost so_far = entries.deep_view();
        assert(meetings@.take(index + 1).drop_last() =~= meetings@.take(index as int));
        if m.weekday < 7 && m.start_minute < m.end_minute && m.end_minute <= 1440 {
            if m.weekday >= 5 {
                weekend += 1;
            } else {
                let entry = Entry {
                    day: m.weekday,
                    start: m.start_minute,
                    end: m.end_minute,
                    course_id: section.course_id.clone(),
                    kind: kind.clone(),
                    section_id: section.section.id.clone(),
                    room: room.clone(),
                    selected: picked,
                    color,
                };
                assert(entry.deep_view() =~= entry_for(view, m, wanted, order));
                entries.push(entry);
                assert(entries.deep_view() =~= so_far.push(entry.deep_view()));
            }
        }
        assert(entries.deep_view() =~= before + section_entries(
            view,
            meetings@.take(index + 1),
            wanted,
            order,
        ));
        index += 1;
    }
    assert(meetings@.take(index as int) =~= meetings@);
    weekend
}

/// The number of weekend meetings as it is shown.
pub open spec fn shown_count(count: int) -> int {
    if count <= usize::MAX {
        count
    } else {
        usize::MAX as int
    }
}

proof fn lemma_weekend_count(sections: Seq<ChosenSectionView>)
    ensures
        weekend_count(sections) >= 0,
    decreases sections.len(),
{
    if sections.len() > 0 {
        lemma_weekend_count(sections.drop_last());
        lemma_weekend_meetings(sections.last().section.meetings);
    }
}

proof fn lemma_weekend_meetings(meetings: Seq<Meeting>)
    ensures
        weekend_meetings(meetings) >= 0,
    decreases meetings.len(),
{
    if meetings.len() > 0 {
        lemma_weekend_meetings(meetings.drop_last());
    }
}

fn entries_from_sections(sections: &[ChosenSection], selected: Option<&str>) -> (r: (
    Vec<Entry>,
    usize,
))
    ensures
        r.0.deep_view() == table_entries(sections.deep_view(), selected.deep_view()),
        r.1 == shown_count(weekend_count(sections.deep_view())),
{
    let ghost all = sections.deep_view();
    let wanted: Option<String> = match selected {
        Some(id) => {
            let trimmed_id = trim(id);
            if trimmed_id.as_str().is_empty() {
                None
            } else {
                Some(trimmed_id)
            }
        },
        None => None,
    };
    let ordered = sorted_course_ids(sections);
    let ghost order = ordered.deep_view();
    let mut entries: Vec<Entry> = Vec::new();
    let mut weekend: usize = 0;
    let mut index: usize = 0;
    proof {
        assert(all.take(0) =~= Seq::empty());
        assert(entries.deep_view() =~= Seq::empty());
    }
    while index < sections.len()
        invariant
            index <= sections@.len(),
            all == sections.deep_view(),
            all.len() == sections@.len(),
            order == ordered.deep_view(),
            wanted.deep_view() == wanted_requirement(selected.deep_view()),
            entries.deep_view() == all_entries(all.take(index as int), wanted.deep_view(), order),
            weekend == shown_count(weekend_count(all.take(index as int))),
        decreases sections@.len() - index,
    {
        proof {
            assert(all.take(index + 1).drop_last() =~= all.take(index as int));
            assert(all[index as int] == sections@[index as int].deep_view());
            lemma_weekend_count(all.take(index as int));
            lemma_weekend_meetings(all[index as int].section.meetings);
        }
        let hidden: usize = push_entries(&sections[index], &wanted, &ordered, &mut entries);
        weekend = if hidden <= usize::MAX - weekend {
            weekend + hidden
        } else {
            usize::MAX
        };
        index += 1;
    }
    assert(all.take(index as int) =~= all);
    let entries = sort_by(entries, entry_may_precede, Ghost(entry_le()));
    (entries, weekend)
}

/// Leaves only the entries of one block picked out.
pub open spec fn with_block(entry: EntryView, block: (u8, u16, u16)) -> EntryView {
    EntryView {
        selected: entry.selected && entry.day == block.0 && entry.start == block.1 && entry.end
            == block.2,
        ..entry
    }
}

/// The entries of the table with a block picked out.
pub open spec fn focused_entries(
    entries: Seq<EntryView>,
    block: Option<(u8, u16, u16)>,
) -> Seq<EntryView> {
    match block {
        Some(block) => entries.map_values(|entry: EntryView| with_block(entry, block)),
        None => entries,
    }
}

fn focus_entries(entries: Vec<Entry>, block: Option<(u8, u16, u16)>) -> (r: Vec<Entry>)
    ensures
        r.deep_view() == focused_entries(entries.deep_view(), block),
{
    let chosen = match block {
        Some(chosen) => chosen,
        None => {
            return entries;
        },
    };
    let ghost view = entries.deep_view();
    let mut result: Vec<Entry> = Vec::new();
    let mut index: usize = 0;
    while index < entries.len()
        invariant
            index <= entries@.len(),
            view == entries.deep_view(),
            result@.len() == index,
            forall|i: int|
                0 <= i < index ==> (#[trigger] result@[i]).deep_view() == with_block(
                    view[i],
                    chosen,
                ),
        decreases entries@.len() - index,
    {
        let mut entry = entries[index].duplicate();
        let ghost before = entry.deep_view();
        entry.selected = entry.selected && entry.day == chosen.0 && entry.start == chosen.1
            && entry.end == chosen.2;
        assert(entry.deep_view() =~= with_block(before, chosen));
        assert(before == view[index as int]);
        result.push(entry);
        index += 1;
    }
    assert(result.deep_view() =~= focused_entries(view, block));
    result
}

/// The entries that touch a part of a day.
pub open spec fn touching(day: int, from: int, to: int) -> spec_fn(EntryView) -> bool {
    |entry: EntryView| entry.day == day && entry.start < to && entry.end > from
}

/// The entries that begin no earlier than a minute.
pub open spec fn beginning(from: int) -> spec_fn(EntryView) -> bool {
    |entry: EntryView| entry.start >= from
}

/// The entries with a room whose second row begins at a minute.
pub open spec fn second_row(from: int) -> spec_fn(EntryView) -> bool {
    |entry: EntryView| entry.start as int / 30 + 1 == from / 30 && entry.room.len() > 0
}

fn occupants_of(entries: &Vec<Entry>, day: u8, from: u16, to: u16) -> (r: Vec<Entry>)
    ensures
        r.deep_view() == entries.deep_view().filter(touching(day as int, from as int, to as int)),
{
    let ghost view = entries.deep_view();
    let ghost wanted = touching(day as int, from as int, to as int);
    let mut result: Vec<Entry> = Vec::new();
    let mut index: usize = 0;
    proof {
        reveal(Seq::filter);
        assert(view.take(0) =~= Seq::empty());
        assert(result.deep_view() =~= Seq::empty());
    }
    while index < entries.len()
        invariant
            index <= entries@.len(),
            view == entries.deep_view(),
            wanted == touching(day as int, from as int, to as int),
            result.deep_view() == view.take(index as int).filter(wanted),
        decreases entries@.len() - index,
    {
        let ghost so_far = result.deep_view();
        proof {
            reveal(Seq::filter);
            assert(view.take(index + 1).drop_last() =~= view.take(index as int));
            assert(view[index as int] == entries@[index as int].deep_view());
        }
        let entry = &entries[index];
        if entry.day == day && entry.start < to && entry.end > from {
            let copy = entry.duplicate();
            result.push(copy);
            assert(result.deep_view() =~= so_far.push(copy.deep_view()));
        }
        index += 1;
    }
    assert(view.take(index as int) =~= view);
    result
}

fn beginning_of(entries: &Vec<Entry>, from: u16) -> (r: Vec<Entry>)
    ensures
        r.deep_view() == entries.deep_view().filter(beginning(from as int)),
{
    let ghost view = entries.deep_view();
    let ghost wanted = beginning(from as int);
    let mut result: Vec<Entry> = Vec::new();
    let mut index: usize = 0;
    proof {
        reveal(Seq::filter);
        assert(view.take(0) =~= Seq::empty());
        assert(result.deep_view() =~= Seq::empty());
    }
    while index < entries.len()
        invariant
            index <= entries@.len(),
            view == entries.deep_view(),
            wanted == beginning(from as int),
            result.deep_view() == view.take(index as int).filter(wanted),
        decreases entries@.len() - index,
    {
        let ghost so_far = result.deep_view();
        proof {
            reveal(Seq::filter);
            assert(view.take(index + 1).drop_last() =~= view.take(index as int));
            assert(view[index as int] == entries@[index as int].deep_view());
        }
        if entries[index].start >= from {
            let copy = entries[index].duplicate();
            result.push(copy);
            assert(result.deep_view() =~= so_far.push(copy.deep_view()));
        }
        index += 1;
    }
    assert(view.take(index as int) =~= view);
    result
}

/// The room of an entry.
pub open spec fn room_of() -> spec_fn(EntryView) -> Seq<char> {
    |entry: EntryView| entry.room
}

/// The course of an entry.
pub open spec fn course_of() -> spec_fn(EntryView) -> Seq<char> {
    |entry: EntryView| entry.course_id
}

/// The kind of an entry.
pub open spec fn kind_of() -> spec_fn(EntryView) -> Seq<char> {
    |entry: EntryView| entry.kind
}

/// The course and the kind of an entry.
pub open spec fn pair_of() -> spec_fn(EntryView) -> Seq<char> {
    |entry: EntryView| entry.course_id + " "@ + entry.kind
}

/// The different texts of some entries, in order, on one line.
pub open spec fn summary(entries: Seq<EntryView>, text: spec_fn(EntryView) -> Seq<char>) -> Seq<
    char,
> {
    joined(distinct_ascending::<String>(entries.map_values(text)), "/"@)
}

fn room_line(entries: &Vec<Entry>, from: u16) -> (r: String)
    ensures
        r@ == summary(entries.deep_view().filter(second_row(from as int)), room_of()),
{
    let ghost view = entries.deep_view();
    let ghost wanted = second_row(from as int);
    let mut rooms: Vec<String> = Vec::new();
    let mut index: usize = 0;
    proof {
        reveal(Seq::filter);
        assert(view.take(0) =~= Seq::empty());
        assert(rooms.deep_view() =~= view.take(0).filter(wanted).map_values(room_of()));
    }
    while index < entries.len()
        invariant
            index <= entries@.len(),
            view == entries.deep_view(),
            wanted == second_row(from as int),
            rooms.deep_view() == view.take(index as int).filter(wanted).map_values(room_of()),
        decreases entries@.len() - index,
    {
        let ghost so_far = rooms.deep_view();
        let ghost before = view.take(index as int).filter(wanted);
        proof {
            reveal(Seq::filter);
            assert(view.take(index + 1).drop_last() =~= view.take(index as int));
            assert(view[index as int] == entries@[index as int].deep_view());
        }
        let entry = &entries[index];
        if entry.start / 30 + 1 == from / 30 && !entry.room.as_str().is_empty() {
            rooms.push(entry.room.clone());
            assert(rooms.deep_view() =~= so_far.push(entry.room@));
            assert(before.push(entry.deep_view()).map_values(room_of()) =~= before.map_values(
                room_of(),
            ).push(entry.room@));
        }
        index += 1;
    }
    assert(view.take(index as int) =~= view);
    join(&OrderedSet::from_vec(rooms).into_vec(), "/")
}

/// The courses, the kinds and both, for the entries of a cell.
fn legends(entries: &Vec<Entry>) -> (r: (Vec<String>, Vec<String>, Vec<String>))
    ensures
        r.0.deep_view() == distinct_ascending::<String>(
            entries.deep_view().map_values(course_of()),
        ),
        r.1.deep_view() == distinct_ascending::<String>(entries.deep_view().map_values(kind_of())),
        r.2.deep_view() == distinct_ascending::<String>(entries.deep_view().map_values(pair_of())),
{
    let ghost view = entries.deep_view();
    let mut courses: Vec<String> = Vec::new();
    let mut kinds: Vec<String> = Vec::new();
    let mut pairs: Vec<String> = Vec::new();
    let mut index: usize = 0;
    while index < entries.len()
        invariant
            index <= entries@.len(),
            view == entries.deep_view(),
            courses@.len() == index,
            kinds@.len() == index,
            pairs@.len() == index,
            forall|i: int| 0 <= i < index ==> (#[trigger] courses@[i])@ == view[i].course_id,
            forall|i: int| 0 <= i < index ==> (#[trigger] kinds@[i])@ == view[i].kind,
            forall|i: int| 0 <= i < index ==> (#[trigger] pairs@[i])@ == pair_of()(view[i]),
        decreases entries@.len() - index,
    {
        let entry = &entries[index];
        assert(view[index as int] == entries@[index as int].deep_view());
        let mut pair = entry.course_id.clone();
        pair.append(" ");
        pair.append(entry.kind.as_str());
        courses.push(entry.course_id.clone());
        kinds.push(entry.kind.clone());
        pairs.push(pair);
        index += 1;
    }
    assert(courses.deep_view() =~= view.map_values(course_of()));
    assert(kinds.deep_view() =~= view.map_values(kind_of()));
    assert(pairs.deep_view() =~= view.map_values(pair_of()));
    (
        OrderedSet::from_vec(courses).into_vec(),
        OrderedSet::from_vec(kinds).into_vec(),
        OrderedSet::from_vec(pairs).into_vec(),
    )
}

/// A subject with its component, of which the subject is cut first.
pub open spec fn component_text(
    prefix: Seq<char>,
    subject: Seq<char>,
    component: Seq<char>,
    width: int,
) -> Seq<char> {
    let suffix = if component.len() == 0 {
        Seq::empty()
    } else {
        " "@ + component
    };
    let fixed = display_width(prefix + suffix);
    if width == 0 {
        Seq::empty()
    } else if fixed < width {
        prefix + fitted(subject, width - fixed) + suffix
    } else if prefix.len() == 0 {
        fitted(component, width)
    } else if display_width(prefix) >= width {
        fitted(prefix, width)
    } else {
        prefix + fitted(component, width - display_width(prefix))
    }
}

fn fit_component_text(prefix: &str, subject: &str, component: &str, width: usize) -> (r: String)
    ensures
        r@ == component_text(prefix@, subject@, component@, width as int),
{
    if width == 0 {
        return String::new();
    }
    let mut suffix = String::new();
    if !component.is_empty() {
        suffix.append(" ");
        suffix.append(component);
    }
    assert(suffix@ =~= (if component@.len() == 0 {
        Seq::<char>::empty()
    } else {
        " "@ + component@
    }));
    let mut result = prefix.to_string();
    let mut fixed = prefix.to_string();
    fixed.append(suffix.as_str());
    let fixed_width: usize = measure(fixed.as_str());
    if fixed_width < width {
        result.append(fit_text(subject, width - fixed_width).as_str());
        result.append(suffix.as_str());
        return result;
    }
    if prefix.is_empty() {
        return fit_text(component, width);
    }
    let prefix_width: usize = measure(prefix);
    if prefix_width >= width {
        return fit_text(prefix, width);
    }
    result.append(fit_text(component, width - prefix_width).as_str());
    result
}

/// The legend of the meetings that begin in a cell.
pub open spec fn occupants_text(entries: Seq<EntryView>, width: int) -> Seq<char> {
    let count = decimal(entries.len());
    let prefix = count + "×"@;
    let courses = distinct_ascending::<String>(entries.map_values(course_of()));
    let kinds = summary(entries, kind_of());
    let pairs = prefix + summary(entries, pair_of());
    if entries.len() == 1 {
        component_text(Seq::empty(), entries[0].course_id, entries[0].kind, width)
    } else if width <= prefix.len() {
        fitted(count, width)
    } else if courses.len() == 1 {
        component_text(prefix, courses[0], kinds, width)
    } else if display_width(pairs) <= width {
        pairs
    } else {
        fitted(prefix + kinds, width)
    }
}

fn occupant_text(occupants: &Vec<Entry>, width: usize) -> (r: String)
    ensures
        r@ == occupants_text(occupants.deep_view(), width as int),
{
    let ghost view = occupants.deep_view();
    assert(view.len() == occupants@.len());
    if occupants.len() == 1 {
        let only = &occupants[0];
        assert(view[0] == only.deep_view());
        let empty = String::new();
        assert(empty@ =~= Seq::empty());
        return fit_component_text(
            empty.as_str(),
            only.course_id.as_str(),
            only.kind.as_str(),
            width,
        );
    }
    let (courses, kinds, pairs) = legends(occupants);
    let count = decimal_text(occupants.len() as u64);
    let mut prefix = count.clone();
    prefix.append("×");
    let prefix_len: usize = chars_of(prefix.as_str()).len();
    if width <= prefix_len {
        return fit_text(count.as_str(), width);
    }
    let kind_text = join(&kinds, "/");
    if courses.len() == 1 {
        assert(courses.deep_view()[0] == courses@[0]@);
        return fit_component_text(
            prefix.as_str(),
            courses[0].as_str(),
            kind_text.as_str(),
            width,
        );
    }
    let mut paired = prefix.clone();
    paired.append(join(&pairs, "/").as_str());
    if measure(paired.as_str()) <= width {
        return paired;
    }
    prefix.append(kind_text.as_str());
    fit_text(prefix.as_str(), width)
}

/// The colors of the courses, by index.
pub open spec fn palette(index: int) -> Color {
    if index == 0 {
        Color::Blue
    } else if index == 1 {
        Color::Green
    } else if index == 2 {
        Color::Magenta
    } else if index == 3 {
        Color::Cyan
    } else if index == 4 {
        Color::LightBlue
    } else if index == 5 {
        Color::LightGreen
    } else if index == 6 {
        Color::LightMagenta
    } else {
        Color::LightCyan
    }
}

fn palette_color(index: usize) -> (r: Color)
    ensures
        r == palette(index as int),
{
    match index {
        0 => Color::Blue,
        1 => Color::Green,
        2 => Color::Magenta,
        3 => Color::Cyan,
        4 => Color::LightBlue,
        5 => Color::LightGreen,
        6 => Color::LightMagenta,
        _ => Color::LightCyan,
    }
}

/// Courses of different indices are shown in different colors.
pub proof fn law_palette_is_distinct(a: int, b: int)
    requires
        0 <= a < PALETTE_LEN,
        0 <= b < PALETTE_LEN,
        a != b,
    ensures
        palette(a) != palette(b),
{
}

/// The color of a text on a background.
pub open spec fn readable(background: Color) -> Color {
    match background {
        Color::LightBlue | Color::LightGreen | Color::LightMagenta | Color::LightCyan =>
            Color::Black,
        _ => Color::White,
    }
}

fn readable_fg(background: Color) -> (r: Color)
    ensures
        r == readable(background),
{
    match background {
        Color::LightBlue | Color::LightGreen | Color::LightMagenta | Color::LightCyan =>
            Color::Black,
        _ => Color::White,
    }
}

/// A bold style.
pub open spec fn bold(fg: Color, bg: Color) -> Style {
    Style { fg: Some(fg), bg: Some(bg), bold: true }
}

/// The style of a cell: picked out, of one course, or shared.
pub open spec fn occupants_style(entries: Seq<EntryView>) -> Style {
    if exists|i: int| 0 <= i < entries.len() && (#[trigger] entries[i]).selected {
        bold(Color::Black, Color::White)
    } else if entries.len() == 1 {
        bold(readable(palette(entries[0].color)), palette(entries[0].color))
    } else {
        bold(Color::White, Color::DarkGray)
    }
}

fn occupant_style(occupants: &Vec<Entry>) -> (r: Style)
    ensures
        r == occupants_style(occupants.deep_view()),
{
    let ghost view = occupants.deep_view();
    let mut index: usize = 0;
    while index < occupants.len()
        invariant
            index <= occupants@.len(),
            view == occupants.deep_view(),
            forall|i: int| 0 <= i < index ==> !(#[trigger] view[i]).selected,
        decreases occupants@.len() - index,
    {
        assert(view[index as int] == occupants@[index as int].deep_view());
        if occupants[index].selected {
            assert(view[index as int].selected);
            return Style { fg: Some(Color::Black), bg: Some(Color::White), bold: true };
        }
        index += 1;
    }
    if occupants.len() == 1 {
        assert(view[0] == occupants@[0].deep_view());
        let background = palette_color(occupants[0].color);
        return Style { fg: Some(readable_fg(background)), bg: Some(background), bold: true };
    }
    Style { fg: Some(Color::White), bg: Some(Color::DarkGray), bold: true }
}

/// A cell of the table: the legends of what begins in it, else the rooms.
pub open spec fn day_cell(entries: Seq<EntryView>, day: int, from: int, width: int) -> SpanView {
    let occupants = entries.filter(touching(day, from, from + 30));
    let starts = occupants.filter(beginning(from));
    if occupants.len() == 0 {
        raw(cell(Seq::empty(), width))
    } else if starts.len() == 0 {
        SpanView {
            content: cell(summary(occupants.filter(second_row(from)), room_of()), width),
            style: occupants_style(occupants),
        }
    } else {
        SpanView {
            content: cell(occupants_text(starts, width), width),
            style: occupants_style(occupants),
        }
    }
}

fn day_span(entries: &Vec<Entry>, day: u8, from: u16, width: usize) -> (r: Span)
    requires
        from < 1440,
    ensures
        r.deep_view() == day_cell(entries.deep_view(), day as int, from as int, width as int),
        display_width(r.content@) == width,
{
    let occupants = occupants_of(entries, day, from, from + 30);
    assert(occupants.deep_view().len() == occupants@.len());
    if occupants.len() == 0 {
        let empty = String::new();
        assert(empty@ =~= Seq::empty());
        return raw_span(pad_cell(empty.as_str(), width));
    }
    let starts = beginning_of(&occupants, from);
    assert(starts.deep_view().len() == starts@.len());
    let text = if starts.len() == 0 {
        room_line(&occupants, from)
    } else {
        occupant_text(&starts, width)
    };
    Span { content: pad_cell(text.as_str(), width), style: occupant_style(&occupants) }
}

/// The cells of a row up to a day, each closed by a rule.
pub open spec fn day_cells(entries: Seq<EntryView>, from: int, width: int, days: int) -> Seq<
    SpanView,
>
    decreases days,
{
    if days <= 0 {
        Seq::empty()
    } else {
        day_cells(entries, from, width, days - 1).push(
            day_cell(entries, days - 1, from, column_width(width, days - 1)),
        ).push(raw("│"@))
    }
}

/// The time beside a row; only full hours have one.
pub open spec fn row_time(from: int) -> Seq<char> {
    if from % 60 == 0 {
        clock(from)
    } else {
        Seq::empty()
    }
}

/// A row of the table.
pub open spec fn row(entries: Seq<EntryView>, from: int, width: int) -> Seq<SpanView> {
    seq![raw("│"@), raw(cell(row_time(from), 5)), raw("│"@)] + day_cells(entries, from, width, 5)
}

/// The text of a day in a row.
pub open spec fn cell_of(line: Seq<SpanView>, day: int) -> Seq<char> {
    line[3 + 2 * day].content
}

/// The first cells of a line fill their columns, and a rule stands on both sides of each: the
/// time, then as many days as are given.
pub open spec fn cells_filled(line: Seq<SpanView>, width: int, days: int) -> bool {
    &&& line.len() == 3 + 2 * days
    &&& display_width(line[1].content) == 5
    &&& forall|day: int|
        0 <= day < days ==> display_width(#[trigger] cell_of(line, day)) == column_width(width, day)
    &&& line[0].content == "│"@ && line[2].content == "│"@
    &&& forall|day: int| 0 <= day < days ==> rule_after(line, day) == "│"@
}

/// What stands after a day in a row.
pub open spec fn rule_after(line: Seq<SpanView>, day: int) -> Seq<char> {
    line[4 + 2 * day].content
}

proof fn lemma_cells_filled(line: Seq<SpanView>, width: int, day: int, next: SpanView)
    requires
        0 <= day,
        cells_filled(line, width, day),
        display_width(next.content) == column_width(width, day),
    ensures
        cells_filled(line.push(next).push(raw("│"@)), width, day + 1),
{
    let longer = line.push(next).push(raw("│"@));
    assert forall|i: int| 0 <= i < day + 1 implies display_width(#[trigger] cell_of(longer, i))
        == column_width(width, i) by {
        if i < day {
            assert(cell_of(longer, i) == cell_of(line, i));
        }
    }
    assert forall|i: int| 0 <= i < day + 1 implies #[trigger] rule_after(longer, i) == "│"@ by {
        if i < day {
            assert(rule_after(longer, i) == rule_after(line, i));
        }
    }
}

fn row_line(plan: &ColumnPlan, entries: &Vec<Entry>, from: u16) -> (r: Line)
    requires
        plan.wf(),
        from < 1440,
    ensures
        r.deep_view() == row(entries.deep_view(), from as int, plan.table_width as int),
        cells_filled(r.deep_view(), plan.table_width as int, 5),
{
    let ghost view = entries.deep_view();
    let ghost width = plan.table_width as int;
    let time = if from % 60 == 0 {
        clock_text(from)
    } else {
        String::new()
    };
    assert(time@ =~= row_time(from as int));
    let mut spans: Vec<Span> = Vec::new();
    spans.push(raw_span("│".to_string()));
    spans.push(raw_span(pad_cell(time.as_str(), plan.time_width)));
    spans.push(raw_span("│".to_string()));
    let ghost head = seq![raw("│"@), raw(cell(row_time(from as int), 5)), raw("│"@)];
    let mut day: u8 = 0;
    assert(spans.deep_view() =~= head + day_cells(view, from as int, width, 0));
    while day < 5
        invariant
            day <= 5,
            from < 1440,
            plan.wf(),
            width == plan.table_width,
            view == entries.deep_view(),
            spans.deep_view() == head + day_cells(view, from as int, width, day as int),
            cells_filled(spans.deep_view(), width, day as int),
        decreases 5 - day,
    {
        let ghost so_far = spans.deep_view();
        let ghost cells = day_cells(view, from as int, width, day as int);
        assert(plan.day_widths@[day as int] == column_width(width, day as int));
        let span = day_span(entries, day, from, plan.day_widths[day as usize]);
        let rule = raw_span("│".to_string());
        let ghost added = span.deep_view();
        spans.push(span);
        spans.push(rule);
        assert(spans.deep_view() =~= so_far.push(added).push(raw("│"@)));
        assert(head + cells.push(added).push(raw("│"@)) =~= (head + cells).push(added).push(
            raw("│"@),
        ));
        proof {
            lemma_cells_filled(so_far, width, day as int, added);
        }
        day += 1;
    }
    Line { spans }
}

/// The names of the weekdays up to a day, each in its column.
pub open spec fn day_heads(width: int, days: int) -> Seq<SpanView>
    decreases days,
{
    if days <= 0 {
        Seq::empty()
    } else {
        day_heads(width, days - 1).push(
            raw(cell(day_name(days - 1), column_width(width, days - 1))),
        ).push(raw("│"@))
    }
}

/// The head of the table.
pub open spec fn header(width: int) -> Seq<SpanView> {
    seq![raw("│"@), raw(cell("Time"@, 5)), raw("│"@)] + day_heads(width, 5)
}

fn header_line(plan: &ColumnPlan) -> (r: Line)
    requires
        plan.wf(),
    ensures
        r.deep_view() == header(plan.table_width as int),
        cells_filled(r.deep_view(), plan.table_width as int, 5),
{
    let ghost width = plan.table_width as int;
    let mut spans: Vec<Span> = Vec::new();
    spans.push(raw_span("│".to_string()));
    spans.push(raw_span(pad_cell("Time", plan.time_width)));
    spans.push(raw_span("│".to_string()));
    let ghost head = seq![raw("│"@), raw(cell("Time"@, 5)), raw("│"@)];
    let mut day: u8 = 0;
    assert(spans.deep_view() =~= head + day_heads(width, 0));
    while day < 5
        invariant
            day <= 5,
            plan.wf(),
            width == plan.table_width,
            spans.deep_view() == head + day_heads(width, day as int),
            cells_filled(spans.deep_view(), width, day as int),
        decreases 5 - day,
    {
        let ghost so_far = spans.deep_view();
        let ghost heads = day_heads(width, day as int);
        assert(plan.day_widths@[day as int] == column_width(width, day as int));
        let span = raw_span(pad_cell(day_name_text(day), plan.day_widths[day as usize]));
        let ghost added = span.deep_view();
        spans.push(span);
        spans.push(raw_span("│".to_string()));
        assert(spans.deep_view() =~= so_far.push(added).push(raw("│"@)));
        assert(head + heads.push(added).push(raw("│"@)) =~= (head + heads).push(added).push(
            raw("│"@),
        ));
        proof {
            lemma_cells_filled(so_far, width, day as int, added);
        }
        day += 1;
    }
    Line { spans }
}

/// A horizontal rule.
pub open spec fn rule(n: int) -> Seq<char> {
    Seq::new(n as nat, |i: int| '─')
}

/// The rules of the weekday columns up to a day.
pub open spec fn day_rules(width: int, days: int, middle: char, right: char) -> Seq<char>
    decreases days,
{
    if days <= 0 {
        Seq::empty()
    } else {
        (day_rules(width, days - 1, middle, right) + rule(column_width(width, days - 1))).push(
            if days == 5 {
                right
            } else {
                middle
            },
        )
    }
}

/// A border of the table.
pub open spec fn border(width: int, left: char, middle: char, right: char) -> Seq<char> {
    (seq![left] + rule(5)).push(middle) + day_rules(width, 5, middle, right)
}

fn push_rule(line: &mut String, n: usize)
    ensures
        final(line)@ == old(line)@ + rule(n as int),
{
    let ghost before = line@;
    let mut done: usize = 0;
    assert(line@ =~= before + rule(0));
    while done < n
        invariant
            done <= n,
            line@ == before + rule(done as int),
        decreases n - done,
    {
        line.push('─');
        assert(line@ =~= before + rule(done + 1));
        done += 1;
    }
}

fn border_line(plan: &ColumnPlan, left: char, middle: char, right: char) -> (r: Line)
    requires
        plan.wf(),
    ensures
        r.deep_view() == seq![raw(border(plan.table_width as int, left, middle, right))],
{
    let ghost width = plan.table_width as int;
    let mut line = String::new();
    line.push(left);
    push_rule(&mut line, plan.time_width);
    line.push(middle);
    let ghost head = (seq![left] + rule(5)).push(middle);
    assert(line@ =~= head + day_rules(width, 0, middle, right));
    let mut day: usize = 0;
    while day < 5
        invariant
            day <= 5,
            plan.wf(),
            width == plan.table_width,
            line@ == head + day_rules(width, day as int, middle, right),
        decreases 5 - day,
    {
        let ghost so_far = day_rules(width, day as int, middle, right);
        assert(plan.day_widths@[day as int] == column_width(width, day as int));
        push_rule(&mut line, plan.day_widths[day]);
        line.push(
            if day == 4 {
                right
            } else {
                middle
            },
        );
        assert(line@ =~= head + day_rules(width, day + 1, middle, right));
        day += 1;
    }
    one_span_line(line)
}

pub fn one_span_line(content: String) -> (r: Line)
    ensures
        r.deep_view() == seq![raw(content@)],
{
    let mut spans: Vec<Span> = Vec::new();
    spans.push(raw_span(content));
    let line = Line { spans };
    assert(line.deep_view() =~= seq![raw(content@)]);
    line
}

/// A line of text, cut to a width.
pub open spec fn text_line(text: Seq<char>, width: int) -> Seq<SpanView> {
    seq![raw(fitted(text, width))]
}

pub fn plain_line(text: &str, width: usize) -> (r: Line)
    ensures
        r.deep_view() == text_line(text@, width as int),
{
    one_span_line(fit_text(text, width))
}

/// What is said of the weekend meetings, which the table leaves out.
pub open spec fn disclosure(count: int) -> Seq<char> {
    decimal(count as nat) + " weekend "@ + (if count == 1 {
        "meeting"@
    } else {
        "meetings"@
    }) + " hidden here. Export keeps them."@
}

fn weekend_disclosure(count: usize) -> (r: String)
    ensures
        r@ == disclosure(count as int),
{
    let mut text = decimal_text(count as u64);
    text.append(" weekend ");
    text.append(
        if count == 1 {
            "meeting"
        } else {
            "meetings"
        },
    );
    text.append(" hidden here. Export keeps them.");
    text
}

/// The last line, where the weekend has meetings.
pub open spec fn disclosed(count: int, width: int) -> Seq<Seq<SpanView>> {
    if count > 0 {
        seq![text_line(disclosure(count), width)]
    } else {
        Seq::empty()
    }
}

/// The 48 half hours of the table.
pub open spec fn rows(entries: Seq<EntryView>, width: int) -> Seq<Seq<SpanView>> {
    Seq::new(48, |k: int| row(entries, 30 * k, width))
}

/// The lines of a table.
pub open spec fn table(entries: Seq<EntryView>, weekend: int, width: int) -> Seq<Seq<SpanView>> {
    if width <= 0 {
        Seq::empty()
    } else if width < 37 {
        seq![
            text_line(
                "Width too small for the weekday table. Widen the terminal to view meetings."@,
                width,
            ),
        ] + disclosed(weekend, width)
    } else {
        seq![
            seq![raw(border(width, '┌', '┬', '┐'))],
            header(width),
            seq![raw(border(width, '├', '┼', '┤'))],
        ] + rows(entries, width) + seq![seq![raw(border(width, '└', '┴', '┘'))]]
            + disclosed(weekend, width)
    }
}

/// The week of some sections: the requirement and the block are picked out.
pub open spec fn week_table(
    sections: Seq<ChosenSectionView>,
    width: int,
    selected: Option<Seq<char>>,
    block: Option<(u8, u16, u16)>,
) -> Seq<Seq<SpanView>> {
    table(
        focused_entries(table_entries(sections, selected), block),
        shown_count(weekend_count(sections)),
        width,
    )
}

/// A line of the table that has cells: the head or a half hour.
pub open spec fn has_cells(k: int) -> bool {
    k == 1 || 3 <= k < 51
}

/// Whether every line of the table is as wide as the table: the cells of the head and of the half
/// hours fill their columns, and a border has a character for each column.
pub open spec fn columns_kept(lines: Seq<Seq<SpanView>>, width: int) -> bool {
    &&& lines.len() >= 52
    &&& forall|k: int| has_cells(k) ==> cells_filled(#[trigger] lines[k], width, 5)
    &&& forall|k: int|
        0 <= k < 52 && !has_cells(k) ==> (#[trigger] lines[k]).len() == 1
            && lines[k][0].content.len() == width
}

/// A border has a character for each column of the table.
proof fn lemma_border(width: int, left: char, middle: char, right: char)
    requires
        width >= 37,
    ensures
        border(width, left, middle, right).len() == width,
{
    reveal_with_fuel(day_rules, 6);
}

pub fn week_lines(sections: &[ChosenSection], width: u16, selected_requirement: Option<&str>) -> (r:
    Vec<Line>)
    ensures
        r.deep_view() == week_table(
            sections.deep_view(),
            width as int,
            selected_requirement.deep_view(),
            None,
        ),
        width >= 37 ==> columns_kept(r.deep_view(), width as int),
{
    week_lines_focused(sections, width, selected_requirement, None)
}

pub fn week_lines_focused(
    sections: &[ChosenSection],
    width: u16,
    selected_requirement: Option<&str>,
    selected_block: Option<(u8, u16, u16)>,
) -> (r: Vec<Line>)
    ensures
        r.deep_view() == week_table(
            sections.deep_view(),
            width as int,
            selected_requirement.deep_view(),
            selected_block,
        ),
        width >= 37 ==> columns_kept(r.deep_view(), width as int),
{
    let mut lines: Vec<Line> = Vec::new();
    if width == 0 {
        assert(lines.deep_view() =~= Seq::empty());
        return lines;
    }
    let columns: usize = width as usize;
    let (entries, weekend) = entries_from_sections(sections, selected_requirement);
    let entries = focus_entries(entries, selected_block);
    let ghost view = entries.deep_view();
    let plan = match ColumnPlan::new(columns) {
        Some(plan) => plan,
        None => {
            lines.push(
                plain_line(
                    "Width too small for the weekday table. Widen the terminal to view meetings.",
                    columns,
                ),
            );
            push_disclosure(&mut lines, weekend, columns);
            assert(lines.deep_view() =~= table(view, weekend as int, columns as int));
            return lines;
        },
    };
    lines.push(border_line(&plan, '┌', '┬', '┐'));
    lines.push(header_line(&plan));
    lines.push(border_line(&plan, '├', '┼', '┤'));
    let ghost head = lines.deep_view();
    assert(head =~= seq![
        seq![raw(border(columns as int, '┌', '┬', '┐'))],
        header(columns as int),
        seq![raw(border(columns as int, '├', '┼', '┤'))],
    ]);
    let mut slot: u16 = 0;
    while slot < 48
        invariant
            slot <= 48,
            plan.wf(),
            plan.table_width == columns,
            view == entries.deep_view(),
            head.len() == 3,
            lines@.len() == 3 + slot,
            forall|i: int| 0 <= i < 3 ==> #[trigger] lines.deep_view()[i] == head[i],
            forall|i: int|
                3 <= i < 3 + slot ==> #[trigger] lines.deep_view()[i] == row(
                    view,
                    30 * (i - 3),
                    columns as int,
                ),
            cells_filled(head[1], columns as int, 5),
            forall|i: int|
                3 <= i < 3 + slot ==> cells_filled(
                    #[trigger] lines.deep_view()[i],
                    columns as int,
                    5,
                ),
        decreases 48 - slot,
    {
        let ghost before = lines.deep_view();
        let line = row_line(&plan, &entries, slot * 30);
        let ghost added = line.deep_view();
        lines.push(line);
        assert(lines.deep_view() =~= before.push(added));
        slot += 1;
    }
    let ghost body = lines.deep_view();
    assert(body =~= head + rows(view, columns as int));
    lines.push(border_line(&plan, '└', '┴', '┘'));
    assert(lines.deep_view() =~= body + seq![
        seq![raw(border(columns as int, '└', '┴', '┘'))],
    ]);
    push_disclosure(&mut lines, weekend, columns);
    proof {
        assert(lines.deep_view() =~= table(view, weekend as int, columns as int));
        lemma_border(columns as int, '┌', '┬', '┐');
        lemma_border(columns as int, '├', '┼', '┤');
        lemma_border(columns as int, '└', '┴', '┘');
        assert forall|k: int| has_cells(k) implies cells_filled(
            #[trigger] lines.deep_view()[k],
            columns as int,
            5,
        ) by {
            assert(lines.deep_view()[k] == body[k]);
        }
    }
    lines
}

fn push_disclosure(lines: &mut Vec<Line>, weekend: usize, width: usize)
    ensures
        final(lines).deep_view() == old(lines).deep_view() + disclosed(
            weekend as int,
            width as int,
        ),
{
    let ghost before = lines.deep_view();
    if weekend > 0 {
        let line = plain_line(weekend_disclosure(weekend).as_str(), width);
        lines.push(line);
    }
    assert(lines.deep_view() =~= before + disclosed(weekend as int, width as int));
}

} // verus!
