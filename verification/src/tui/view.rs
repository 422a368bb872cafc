//! What is on the screen: where the panes stand and what each of them shows.
use vstd::prelude::*;
use crate::app::{actual_sections, sections_chosen};
use crate::model::{
    ChosenSection, CourseView, ManualEntry, ManualEntryView, SolveStatus,
};
use crate::order::lookup;
use crate::text::{chars_of, decimal, decimal_text, joined};
use crate::tui::state::{block_at, entries_of_term, AppState, AppStateView};
use crate::tui::timetable::hint_of;
use crate::tui::week::{
    measure, display_width, one_span_line, plain, raw, raw_span, spaces, week_lines_focused,
    week_table, Color, Line, Span, SpanView, Style,
};
use crate::tui::{
    field_at, field_label, field_value, fitted_viewport, meeting_texts, meetings_line, Area,
    EditorField, Focus, ManualForm, ManualFormView, ScrollViewport,
};

verus! {

/// A size that a part of an area asks for.
#[derive(Clone, Copy, Debug, PartialEq, Eq, Structural)]
pub enum Part {
    Length(u16),
    Min(u16),
    Percentage(u16),
}

/// A direction in which an area is divided.
#[derive(Clone, Copy, Debug, PartialEq, Eq, Structural)]
pub enum Direction {
    Vertical,
    Horizontal,
}

/// The number of cells of an area along a direction.
pub open spec fn extent(area: Area, direction: Direction) -> int {
    match direction {
        Direction::Vertical => capped_sum(area.y as int, area.height as int) - area.y,
        Direction::Horizontal => capped_sum(area.x as int, area.width as int) - area.x,
    }
}

/// An area that spans another one across a direction and lies within it along the direction.
pub open spec fn slice_of(area: Area, direction: Direction, slice: Area) -> bool {
    match direction {
        Direction::Vertical => {
            &&& slice.x == area.x && slice.width == area.width
            &&& area.y <= slice.y
            &&& slice.y + slice.height <= area.y + extent(area, direction)
        },
        Direction::Horizontal => {
            &&& slice.y == area.y && slice.height == area.height
            &&& area.x <= slice.x
            &&& slice.x + slice.width <= area.x + extent(area, direction)
        },
    }
}

/// The slice of an area between two distances from its start, in hundredths of a cell, each
/// rounded to a whole cell.
pub open spec fn slice(area: Area, direction: Direction, from: int, to: int) -> Area {
    let start = (from + 50) / 100;
    let end = (to + 50) / 100;
    match direction {
        Direction::Vertical => Area {
            y: (area.y + start) as u16,
            height: (end - start) as u16,
            ..area
        },
        Direction::Horizontal => Area {
            x: (area.x + start) as u16,
            width: (end - start) as u16,
            ..area
        },
    }
}

/// The size that a part asks for, in hundredths of a cell.
pub open spec fn asked(part: Part, cells: int) -> int {
    match part {
        Part::Length(n) => 100 * n,
        Part::Min(n) => 100 * n,
        Part::Percentage(n) => cells * n,
    }
}

pub open spec fn asked_in_all(parts: Seq<Part>, cells: int) -> int
    decreases parts.len(),
{
    if parts.len() == 0 {
        0
    } else {
        asked_in_all(parts.drop_last(), cells) + asked(parts.last(), cells)
    }
}

/// There are enough cells for all parts, and at most one of them takes what is left over.
pub open spec fn fits(parts: Seq<Part>, cells: int) -> bool {
    &&& asked_in_all(parts, cells) <= 100 * cells
    &&& forall|i: int, j: int|
        0 <= i < j < parts.len() ==> !((#[trigger] parts[i]) is Min && (
        #[trigger] parts[j]) is Min)
}

/// The size that a part gets where all of them fit, in hundredths of a cell.
pub open spec fn granted(parts: Seq<Part>, cells: int, i: int) -> int {
    if parts[i] is Min {
        asked(parts[i], cells) + 100 * cells - asked_in_all(parts, cells)
    } else {
        asked(parts[i], cells)
    }
}

/// How far from the start the part at `n` begins where all of them fit, in hundredths of a cell.
pub open spec fn distance(parts: Seq<Part>, cells: int, n: int) -> int
    decreases n,
{
    if n <= 0 {
        0
    } else {
        distance(parts, cells, n - 1) + granted(parts, cells, n - 1)
    }
}

/// `ratatui::layout::Layout::split`: one slice of the area for each part. Where all parts fit,
/// each gets the size that it asks for, the one with a lower bound takes what is left over, the
/// slices follow one another from the start of the area, and their edges are rounded to whole
/// cells. How long the slices are where the parts do not fit is left open: the solver behind it
/// walks seeded hash maps, and more than one division is equally good there.
#[verifier::external_body]
fn split(area: Area, direction: Direction, parts: &Vec<Part>) -> (r: Vec<Area>)
    ensures
        r@.len() == parts@.len(),
        forall|i: int| 0 <= i < r@.len() ==> slice_of(area, direction, #[trigger] r@[i]),
        fits(parts@, extent(area, direction)) ==> forall|i: int|
            0 <= i < r@.len() ==> (#[trigger] r@[i]) == slice(
                area,
                direction,
                distance(parts@, extent(area, direction), i),
                distance(parts@, extent(area, direction), i + 1),
            ),
{
    let way = match direction {
        Direction::Vertical => ratatui::layout::Direction::Vertical,
        Direction::Horizontal => ratatui::layout::Direction::Horizontal,
    };
    let sizes = parts.iter().map(|part| match part {
        Part::Length(n) => ratatui::layout::Constraint::Length(*n),
        Part::Min(n) => ratatui::layout::Constraint::Min(*n),
        Part::Percentage(n) => ratatui::layout::Constraint::Percentage(*n),
    });
    let Area { x, y, width, height } = area;
    let rects = ratatui::layout::Layout::new(way, sizes).split(ratatui::layout::Rect { x, y, width, height });
    rects.iter().map(|r| Area { x: r.x, y: r.y, width: r.width, height: r.height }).collect()
}

/// The number of lines that a line takes up when it is wrapped.
pub uninterp spec fn wrapped_line_count(text: Seq<char>, width: u16) -> usize;

/// The widths of a wrapped line can be added up in 16 bits: no sum exceeds the width of a line
/// four times, nor four columns for each character.
pub open spec fn countable(text: Seq<char>, width: u16) -> bool {
    width <= 16384 || text.len() <= 16383
}

/// `ratatui::widgets::Paragraph::line_count` of one line, wrapped without trimming. It adds the
/// widths of the characters up as `u16`, which they must not exceed. Nothing fits into no width.
#[verifier::external_body]
fn wrapped_lines(text: &str, width: u16) -> (r: usize)
    requires
        countable(text@, width),
    ensures
        r == wrapped_line_count(text@, width),
        width == 0 ==> r == 0,
{
    ratatui::widgets::Paragraph::new(ratatui::text::Line::from(text))
        .wrap(ratatui::widgets::Wrap { trim: false })
        .line_count(width)
}

/// A sum that stops at the largest number.
pub open spec fn capped_sum(a: int, b: int) -> int {
    if a + b > u16::MAX {
        u16::MAX as int
    } else {
        a + b
    }
}

fn plus(a: u16, b: u16) -> (r: u16)
    ensures
        r == capped_sum(a as int, b as int),
{
    if a > u16::MAX - b {
        u16::MAX
    } else {
        a + b
    }
}

/// A difference that stops at 0.
pub open spec fn difference(a: int, b: int) -> int {
    if a > b {
        a - b
    } else {
        0
    }
}

fn minus(a: u16, b: u16) -> (r: u16)
    ensures
        r == difference(a as int, b as int),
{
    if a > b {
        a - b
    } else {
        0
    }
}

/// The smaller of two numbers.
pub open spec fn smaller(a: int, b: int) -> int {
    if a < b {
        a
    } else {
        b
    }
}

fn lesser(a: u16, b: u16) -> (r: u16)
    ensures
        r == smaller(a as int, b as int),
{
    if a < b {
        a
    } else {
        b
    }
}

/// What a frame leaves of an area.
pub open spec fn inside(area: Area) -> Area {
    Area {
        x: smaller(
            capped_sum(area.x as int, 1),
            capped_sum(area.x as int, area.width as int),
        ) as u16,
        y: smaller(
            capped_sum(area.y as int, 1),
            capped_sum(area.y as int, area.height as int),
        ) as u16,
        width: difference(area.width as int, 2) as u16,
        height: difference(area.height as int, 2) as u16,
    }
}

fn inner(area: Area) -> (r: Area)
    ensures
        r == inside(area),
{
    Area {
        x: lesser(plus(area.x, 1), plus(area.x, area.width)),
        y: lesser(plus(area.y, 1), plus(area.y, area.height)),
        width: minus(area.width, 2),
        height: minus(area.height, 2),
    }
}

/// Where the panes and the windows over them stand.
#[derive(Clone, Copy, Debug, PartialEq, Eq, Structural)]
pub struct Screen {
    pub search: Area,
    pub subjects: Area,
    pub selected: Area,
    pub timetable: Area,
    pub footer: Area,
    pub manual: Area,
    pub help: Area,
    pub editor: Area,
}

/// The part of the screen that is used: the last column stays empty.
pub open spec fn safe(area: Area) -> Area {
    Area { width: difference(area.width as int, 1) as u16, ..area }
}

/// The slice of an area between two percentages of it.
pub open spec fn share(area: Area, direction: Direction, from: int, to: int) -> Area {
    slice(area, direction, extent(area, direction) * from, extent(area, direction) * to)
}

/// The window in the middle of an area that takes up a percentage of its width and height, with
/// margins of whole percents.
pub open spec fn middle(percent_x: int, percent_y: int, area: Area) -> Area {
    let top = (100 - percent_y) / 2;
    let left = (100 - percent_x) / 2;
    share(
        share(area, Direction::Vertical, top, top + percent_y),
        Direction::Horizontal,
        left,
        left + percent_x,
    )
}

/// Percentages that do not exceed the whole are met.
proof fn lemma_shares(parts: Seq<Part>, cells: int, a: int, b: int)
    requires
        cells >= 0,
        a + b <= 100,
        parts.len() >= 2,
        parts[0] == Part::Percentage(a as u16),
        parts[1] == Part::Percentage(b as u16),
        0 <= a <= 100,
        0 <= b <= 100,
        parts.len() == 2 || (parts.len() == 3 && parts[2] == parts[0] && 2 * a + b <= 100),
    ensures
        fits(parts, cells),
        distance(parts, cells, 0) == 0,
        distance(parts, cells, 1) == cells * a,
        distance(parts, cells, 2) == cells * (a + b),
{
    reveal_with_fuel(asked_in_all, 4);
    reveal_with_fuel(distance, 3);
    assert(cells * a + cells * b == cells * (a + b)) by (nonlinear_arith);
    assert(cells * a + cells * b + cells * a == cells * (2 * a + b)) by (nonlinear_arith);
    assert(cells * (a + b) <= cells * 100) by (nonlinear_arith)
        requires
            cells >= 0,
            a + b <= 100,
    ;
    if parts.len() == 3 {
        assert(cells * (2 * a + b) <= cells * 100) by (nonlinear_arith)
            requires
                cells >= 0,
                2 * a + b <= 100,
        ;
    }
}

/// A window in the middle of an area.
fn centered(percent_x: u16, percent_y: u16, area: Area) -> (r: Area)
    requires
        percent_x <= 100,
        percent_y <= 100,
    ensures
        r == middle(percent_x as int, percent_y as int, area),
{
    let mut rows: Vec<Part> = Vec::new();
    rows.push(Part::Percentage((100 - percent_y) / 2));
    rows.push(Part::Percentage(percent_y));
    rows.push(Part::Percentage((100 - percent_y) / 2));
    let vertical = split(area, Direction::Vertical, &rows);
    let mut columns: Vec<Part> = Vec::new();
    columns.push(Part::Percentage((100 - percent_x) / 2));
    columns.push(Part::Percentage(percent_x));
    columns.push(Part::Percentage((100 - percent_x) / 2));
    proof {
        lemma_shares(
            rows@,
            extent(area, Direction::Vertical),
            (100 - percent_y as int) / 2,
            percent_y as int,
        );
        lemma_shares(
            columns@,
            extent(vertical@[1], Direction::Horizontal),
            (100 - percent_x as int) / 2,
            percent_x as int,
        );
    }
    split(vertical[1], Direction::Horizontal, &columns)[1]
}

/// Where the help stands, given the window in the middle: it needs 24 lines, and takes all of a
/// small screen.
pub open spec fn help_place(area: Area, window: Area) -> Area {
    if area.width < 100 || area.height < 32 {
        area
    } else {
        let height = if window.height < 24 {
            24
        } else {
            window.height
        };
        Area {
            height,
            y: capped_sum(
                area.y as int,
                difference(area.height as int, height as int) / 2,
            ) as u16,
            ..window
        }
    }
}

/// Places the help over the window in the middle of the screen.
pub fn place_help(area: Area, window: Area) -> (r: Area)
    ensures
        r == help_place(area, window),
{
    if area.width < 100 || area.height < 32 {
        return area;
    }
    let height: u16 = if window.height < 24 {
        24
    } else {
        window.height
    };
    Area { height, y: plus(area.y, minus(area.height, height) / 2), ..window }
}

/// The search, the panes between and the footer as rows of an area.
pub open spec fn rows_of(area: Area, search: Area, body: Area, footer: Area) -> bool {
    let height = extent(area, Direction::Vertical);
    &&& slice_of(area, Direction::Vertical, search)
    &&& slice_of(area, Direction::Vertical, body)
    &&& slice_of(area, Direction::Vertical, footer)
    &&& height >= 8 ==> {
        &&& search == Area { height: 3, ..area }
        &&& body == Area { y: (area.y + 3) as u16, height: (height - 8) as u16, ..area }
        &&& footer == Area { y: (area.y + height - 5) as u16, height: 5, ..area }
    }
}

/// The lists stand side by side over the timetable.
pub open spec fn panes_of(body: Area, screen: Screen) -> bool {
    let lists = share(body, Direction::Vertical, 0, 40);
    &&& screen.subjects == share(lists, Direction::Horizontal, 0, 50)
    &&& screen.selected == share(lists, Direction::Horizontal, 50, 100)
    &&& screen.timetable == share(body, Direction::Vertical, 40, 100)
}

/// Divides the screen without its last column. The search takes the first three lines and the
/// footer the last five. On a screen of less than eight lines it is left open how they share
/// them.
pub fn arrange(area: Area) -> (r: Screen)
    ensures
        exists|body: Area|
            rows_of(safe(area), r.search, body, r.footer) && #[trigger] panes_of(body, r),
        r.manual == middle(90, 70, safe(area)),
        r.help == help_place(safe(area), middle(76, 54, safe(area))),
        r.editor == middle(78, 68, safe(area)),
{
    let used = Area { width: minus(area.width, 1), ..area };
    assert(used == safe(area));
    let mut rows: Vec<Part> = Vec::new();
    rows.push(Part::Length(3));
    rows.push(Part::Min(0));
    rows.push(Part::Length(5));
    let root = split(used, Direction::Vertical, &rows);
    proof {
        reveal_with_fuel(asked_in_all, 4);
        reveal_with_fuel(distance, 4);
    }
    let mut shares: Vec<Part> = Vec::new();
    shares.push(Part::Percentage(40));
    shares.push(Part::Percentage(60));
    let body = split(root[1], Direction::Vertical, &shares);
    let mut halves: Vec<Part> = Vec::new();
    halves.push(Part::Percentage(50));
    halves.push(Part::Percentage(50));
    let lists = split(body[0], Direction::Horizontal, &halves);
    proof {
        lemma_shares(shares@, extent(root@[1], Direction::Vertical), 40, 60);
        lemma_shares(halves@, extent(body@[0], Direction::Horizontal), 50, 50);
    }
    let screen = Screen {
        search: root[0],
        subjects: lists[0],
        selected: lists[1],
        timetable: body[1],
        footer: root[2],
        manual: centered(90, 70, used),
        help: place_help(used, centered(76, 54, used)),
        editor: centered(78, 68, used),
    };
    assert(rows_of(used, screen.search, root@[1], screen.footer));
    assert(panes_of(root@[1], screen));
    screen
}

/// A part of the screen with lines in it.
#[derive(Clone, Debug, PartialEq, Eq)]
pub struct Panel {
    pub area: Area,
    /// Whether what lies beneath is wiped first.
    pub clears: bool,
    /// Whether a frame stands around the lines.
    pub framed: bool,
    /// Whether the frame is picked out.
    pub active: bool,
    pub title: String,
    pub bottom_title: String,
    pub lines: Vec<Line>,
    /// Whether the lines are the items of a list, one of which the cursor may be on.
    pub list: bool,
    pub cursor: Option<usize>,
    pub wrapped: bool,
    pub skipped_lines: u16,
    pub skipped_columns: u16,
}

#[verifier::ext_equal]
pub struct PanelView {
    pub area: Area,
    pub clears: bool,
    pub framed: bool,
    pub active: bool,
    pub title: Seq<char>,
    pub bottom_title: Seq<char>,
    pub lines: Seq<Seq<SpanView>>,
    pub list: bool,
    pub cursor: Option<usize>,
    pub wrapped: bool,
    pub skipped_lines: u16,
    pub skipped_columns: u16,
}

impl DeepView for Panel {
    type V = PanelView;

    open spec fn deep_view(&self) -> PanelView {
        PanelView {
            area: self.area,
            clears: self.clears,
            framed: self.framed,
            active: self.active,
            title: self.title@,
            bottom_title: self.bottom_title@,
            lines: self.lines.deep_view(),
            list: self.list,
            cursor: self.cursor,
            wrapped: self.wrapped,
            skipped_lines: self.skipped_lines,
            skipped_columns: self.skipped_columns,
        }
    }
}

/// Lines without a frame.
pub open spec fn bare(area: Area, lines: Seq<Seq<SpanView>>) -> PanelView {
    PanelView {
        area,
        clears: false,
        framed: false,
        active: false,
        title: Seq::empty(),
        bottom_title: Seq::empty(),
        lines,
        list: false,
        cursor: None,
        wrapped: false,
        skipped_lines: 0,
        skipped_columns: 0,
    }
}

fn bare_panel(area: Area, lines: Vec<Line>) -> (r: Panel)
    ensures
        r.deep_view() == bare(area, lines.deep_view()),
{
    let panel = Panel {
        area,
        clears: false,
        framed: false,
        active: false,
        title: String::new(),
        bottom_title: String::new(),
        lines,
        list: false,
        cursor: None,
        wrapped: false,
        skipped_lines: 0,
        skipped_columns: 0,
    };
    assert(panel.deep_view() =~= bare(area, lines.deep_view()));
    panel
}

/// A title, marked where its pane is active.
pub open spec fn marked(active: bool, title: Seq<char>) -> Seq<char> {
    if active {
        "> "@ + title
    } else {
        title
    }
}

fn marked_title(active: bool, title: &str) -> (r: String)
    ensures
        r@ == marked(active, title@),
{
    if active {
        let mut text = "> ".to_string();
        text.append(title);
        text
    } else {
        title.to_string()
    }
}

/// A style of one color.
pub open spec fn colored(color: Color) -> Style {
    Style { fg: Some(color), bg: None, bold: false }
}

/// A bold style.
pub open spec fn strong() -> Style {
    Style { fg: None, bg: None, bold: true }
}

/// A line in one style.
pub open spec fn styled(content: Seq<char>, style: Style) -> Seq<SpanView> {
    seq![SpanView { content, style }]
}

fn styled_line(content: String, style: Style) -> (r: Line)
    ensures
        r.deep_view() == styled(content@, style),
{
    let mut spans: Vec<Span> = Vec::new();
    spans.push(Span { content, style });
    let line = Line { spans };
    assert(line.deep_view() =~= styled(content@, style));
    line
}

fn fg_line(content: String, color: Color) -> (r: Line)
    ensures
        r.deep_view() == styled(content@, colored(color)),
{
    styled_line(content, Style { fg: Some(color), bg: None, bold: false })
}

fn single(line: Line) -> (r: Vec<Line>)
    ensures
        r.deep_view() == seq![line.deep_view()],
{
    let mut lines: Vec<Line> = Vec::new();
    lines.push(line);
    assert(lines.deep_view() =~= seq![line.deep_view()]);
    lines
}

/// Whether the search takes the keys.
pub open spec fn searching(s: AppStateView) -> bool {
    s.focus == Focus::Search && s.editor is None && !s.show_help
}

/// What the search pane shows.
pub open spec fn search_line(s: AppStateView) -> Seq<SpanView> {
    if s.query.len() == 0 && !searching(s) {
        styled("Search by course number or title…"@, colored(Color::DarkGray))
    } else {
        styled(s.query, plain())
    }
}

/// The columns by which a long query is scrolled so that its end and the caret stay visible.
pub open spec fn search_scroll(s: AppStateView, area: Area) -> u16 {
    if s.query.len() == 0 {
        0
    } else {
        smaller(
            difference(
                display_width(search_line(s)[0].content) as int,
                difference(inside(area).width as int, 1),
            ),
            u16::MAX as int,
        ) as u16
    }
}

/// The search pane.
pub open spec fn search_panel(s: AppStateView, area: Area) -> PanelView {
    PanelView {
        framed: true,
        active: searching(s),
        title: marked(
            searching(s),
            "Search subjects | "@ + (if searching(s) {
                "Enter to browse · Ctrl+U clear"@
            } else {
                "/ to type"@
            }),
        ),
        bottom_title: " "@ + s.base.term_id + " "@,
        skipped_columns: search_scroll(s, area),
        ..bare(area, seq![search_line(s)])
    }
}

/// The place of the caret, which is shown only while searching and never on the frame.
pub open spec fn caret_place(s: AppStateView, area: Area) -> Option<(u16, u16)> {
    let room = inside(area);
    if searching(s) && room.width > 0 && room.height > 0 {
        Some(
            (
                capped_sum(
                    room.x as int,
                    smaller(
                        difference(
                            display_width(search_line(s)[0].content) as int,
                            search_scroll(s, area) as int,
                        ),
                        room.width - 1,
                    ),
                ) as u16,
                room.y,
            ),
        )
    } else {
        None
    }
}

fn draw_search(state: &AppState, area: Area) -> (r: (Panel, Option<(u16, u16)>))
    ensures
        r.0.deep_view() == search_panel(state.deep_view(), area),
        r.1 == caret_place(state.deep_view(), area),
{
    let ghost s = state.deep_view();
    let active = state.focus == Focus::Search && state.editor.is_none() && !state.show_help;
    assert(active == searching(s));
    let empty = state.query.as_str().is_empty();
    let text = if empty && !active {
        "Search by course number or title…".to_string()
    } else {
        state.query.clone()
    };
    assert(text@ == search_line(s)[0].content);
    let width: usize = measure(text.as_str());
    let line = if empty && !active {
        fg_line(text, Color::DarkGray)
    } else {
        one_span_line(text)
    };
    assert(line.deep_view() =~= search_line(s));
    let room = inner(area);
    let limit: usize = minus(room.width, 1) as usize;
    let scroll: u16 = if empty || width <= limit {
        0
    } else if width - limit > u16::MAX as usize {
        u16::MAX
    } else {
        (width - limit) as u16
    };
    assert(scroll == search_scroll(s, area));
    let mut title = "Search subjects | ".to_string();
    title.append(
        if active {
            "Enter to browse · Ctrl+U clear"
        } else {
            "/ to type"
        },
    );
    let mut bottom = " ".to_string();
    bottom.append(state.base.term_id.as_str());
    bottom.append(" ");
    let mut panel = bare_panel(area, single(line));
    panel.framed = true;
    panel.active = active;
    panel.title = marked_title(active, title.as_str());
    panel.bottom_title = bottom;
    panel.skipped_columns = scroll;
    let caret = if active && room.width > 0 && room.height > 0 {
        let shown: usize = if width > scroll as usize {
            width - scroll as usize
        } else {
            0
        };
        let last: u16 = room.width - 1;
        let column: u16 = if shown < last as usize {
            shown as u16
        } else {
            last
        };
        Some((plus(room.x, column), room.y))
    } else {
        None
    };
    assert(panel.deep_view() =~= search_panel(s, area));
    (panel, caret)
}

/// The title of a course; none where the catalog does not have it.
pub open spec fn title_of(courses: Seq<(Seq<char>, CourseView)>, id: Seq<char>) -> Seq<char> {
    match lookup(courses, id) {
        Some(course) => course.title,
        None => Seq::empty(),
    }
}

fn course_title(state: &AppState, id: &String) -> (r: String)
    ensures
        r@ == title_of(state.deep_view().base.courses, id@),
{
    match state.base.courses.get(id) {
        Some(course) => course.title.clone(),
        None => String::new(),
    }
}

/// A text filled up with spaces to a number of characters.
pub open spec fn filled(text: Seq<char>, n: int) -> Seq<char> {
    text + spaces(difference(n, text.len() as int))
}

fn fill(text: &str, n: usize) -> (r: String)
    ensures
        r@ == filled(text@, n as int),
{
    let mut output = text.to_string();
    let mut len: usize = chars_of(text).len();
    let ghost start = len as int;
    assert(output@ =~= text@ + spaces(0));
    while len < n
        invariant
            start == text@.len(),
            start <= len,
            len <= n || len == start,
            output@ == text@ + spaces(len - start),
        decreases n - len,
    {
        output.push(' ');
        assert(output@ =~= text@ + spaces(len + 1 - start));
        len += 1;
    }
    output
}

/// A subject in the list of subjects.
pub open spec fn subject_line(s: AppStateView, id: Seq<char>) -> Seq<SpanView> {
    let chosen = s.selected.contains(id);
    let color = if chosen {
        Some(Color::Green)
    } else {
        None
    };
    seq![
        SpanView {
            content: if chosen {
                "[x] "@
            } else {
                "[ ] "@
            },
            style: Style { fg: color, bg: None, bold: false },
        },
        SpanView {
            content: filled(id, 10) + " "@,
            style: Style { fg: color, bg: None, bold: true },
        },
        SpanView {
            content: title_of(s.base.courses, id),
            style: Style { fg: color, bg: None, bold: false },
        },
    ]
}

fn draw_subject(state: &AppState, id: &String) -> (r: Line)
    ensures
        r.deep_view() == subject_line(state.deep_view(), id@),
{
    let chosen = state.selected.contains(id);
    let color = if chosen {
        Some(Color::Green)
    } else {
        None
    };
    let mark = if chosen {
        "[x] "
    } else {
        "[ ] "
    };
    let mut name = fill(id.as_str(), 10);
    name.append(" ");
    let mut spans: Vec<Span> = Vec::new();
    spans.push(
        Span { content: mark.to_string(), style: Style { fg: color, bg: None, bold: false } },
    );
    spans.push(Span { content: name, style: Style { fg: color, bg: None, bold: true } });
    spans.push(
        Span {
            content: course_title(state, id),
            style: Style { fg: color, bg: None, bold: false },
        },
    );
    let line = Line { spans };
    assert(line.deep_view() =~= subject_line(state.deep_view(), id@));
    line
}

/// The list of subjects.
pub open spec fn subjects_panel(s: AppStateView, area: Area) -> PanelView {
    PanelView {
        framed: true,
        active: s.focus == Focus::Subjects,
        title: marked(
            s.focus == Focus::Subjects,
            "Subjects | "@ + decimal(s.filtered.len()) + " found"@,
        ),
        list: true,
        cursor: if s.filtered.len() > 0 {
            Some(s.cursor as usize)
        } else {
            None
        },
        ..bare(
            area,
            Seq::new(s.filtered.len(), |i: int| subject_line(s, s.filtered[i])),
        )
    }
}

fn draw_subjects(state: &AppState, area: Area) -> (r: Panel)
    ensures
        r.deep_view() == subjects_panel(state.deep_view(), area),
{
    let ghost s = state.deep_view();
    let mut lines: Vec<Line> = Vec::new();
    let mut index: usize = 0;
    while index < state.filtered.len()
        invariant
            index <= state.filtered@.len(),
            s == state.deep_view(),
            s.filtered.len() == state.filtered@.len(),
            lines@.len() == index,
            forall|i: int|
                0 <= i < index ==> (#[trigger] lines@[i]).deep_view() == subject_line(
                    s,
                    s.filtered[i],
                ),
        decreases state.filtered@.len() - index,
    {
        assert(s.filtered[index as int] == state.filtered@[index as int]@);
        lines.push(draw_subject(state, &state.filtered[index]));
        index += 1;
    }
    assert(lines.deep_view() =~= Seq::new(
        s.filtered.len(),
        |i: int| subject_line(s, s.filtered[i]),
    ));
    let active = state.focus == Focus::Subjects;
    let mut title = "Subjects | ".to_string();
    title.append(decimal_text(state.filtered.len() as u64).as_str());
    title.append(" found");
    let mut panel = bare_panel(area, lines);
    panel.framed = true;
    panel.active = active;
    panel.title = marked_title(active, title.as_str());
    panel.list = true;
    panel.cursor = if state.filtered.len() > 0 {
        Some(state.cursor)
    } else {
        None
    };
    assert(panel.deep_view() =~= subjects_panel(s, area));
    panel
}

/// A subject in the list of selected classes.
pub open spec fn selected_line(s: AppStateView, id: Seq<char>) -> Seq<SpanView> {
    seq![
        SpanView { content: id + " "@, style: strong() },
        raw(title_of(s.base.courses, id)),
    ]
}

/// The list of selected classes.
pub open spec fn selected_panel(s: AppStateView, area: Area) -> PanelView {
    let framed = PanelView {
        framed: true,
        active: s.focus == Focus::Selected,
        title: marked(
            s.focus == Focus::Selected,
            "Selected classes | "@ + decimal(s.selected.len()),
        ),
        bottom_title: " s focus · Space remove "@,
        ..bare(area, Seq::empty())
    };
    if s.selected.len() == 0 {
        PanelView {
            lines: seq![styled("No classes selected. Space in Subjects to add."@, plain())],
            wrapped: true,
            ..framed
        }
    } else {
        PanelView {
            lines: Seq::new(s.selected.len(), |i: int| selected_line(s, s.selected[i])),
            list: true,
            cursor: Some(s.selected_cursor as usize),
            ..framed
        }
    }
}

fn draw_selected(state: &AppState, area: Area) -> (r: Panel)
    ensures
        r.deep_view() == selected_panel(state.deep_view(), area),
{
    let ghost s = state.deep_view();
    let ids = state.selected.items();
    let mut lines: Vec<Line> = Vec::new();
    let mut index: usize = 0;
    while index < ids.len()
        invariant
            index <= ids@.len(),
            s == state.deep_view(),
            s.selected == ids.deep_view(),
            s.selected.len() == ids@.len(),
            lines@.len() == index,
            forall|i: int|
                0 <= i < index ==> (#[trigger] lines@[i]).deep_view() == selected_line(
                    s,
                    s.selected[i],
                ),
        decreases ids@.len() - index,
    {
        assert(s.selected[index as int] == ids@[index as int]@);
        let mut name = ids[index].clone();
        name.append(" ");
        let mut spans: Vec<Span> = Vec::new();
        spans.push(Span { content: name, style: Style { fg: None, bg: None, bold: true } });
        spans.push(raw_span(course_title(state, &ids[index])));
        let line = Line { spans };
        assert(line.deep_view() =~= selected_line(s, s.selected[index as int]));
        lines.push(line);
        index += 1;
    }
    let active = state.focus == Focus::Selected;
    let mut title = "Selected classes | ".to_string();
    title.append(decimal_text(ids.len() as u64).as_str());
    let none = ids.len() == 0;
    if none {
        lines.push(one_span_line("No classes selected. Space in Subjects to add.".to_string()));
    }
    let mut panel = bare_panel(area, lines);
    panel.framed = true;
    panel.active = active;
    panel.title = marked_title(active, title.as_str());
    panel.bottom_title = " s focus · Space remove ".to_string();
    panel.wrapped = none;
    panel.list = !none;
    panel.cursor = if none {
        None
    } else {
        Some(state.selected_cursor)
    };
    assert(panel.deep_view() =~= selected_panel(s, area));
    panel
}

/// A manual entry in the list of manual entries.
pub open spec fn entry_line(entry: ManualEntryView) -> Seq<SpanView> {
    styled(
        "["@ + (if entry.enabled {
            "on"@
        } else {
            "off"@
        }) + "] "@ + entry.course_id + " "@ + entry.kind + " "@ + entry.option.label + "  "@
            + entry.option.room + "  "@ + joined(meeting_texts(entry.option.meetings), "; "@),
        if entry.enabled {
            plain()
        } else {
            colored(Color::DarkGray)
        },
    )
}

fn draw_entry(entry: &ManualEntry) -> (r: Line)
    ensures
        r.deep_view() == entry_line(entry.deep_view()),
{
    let mut text = "[".to_string();
    text.append(
        if entry.enabled {
            "on"
        } else {
            "off"
        },
    );
    text.append("] ");
    text.append(entry.course_id.as_str());
    text.append(" ");
    text.append(entry.kind.as_str());
    text.append(" ");
    text.append(entry.option.label.as_str());
    text.append("  ");
    text.append(entry.option.room.as_str());
    text.append("  ");
    text.append(meetings_line(&entry.option.meetings, "; ").as_str());
    proof {
        crate::optimizer::lemma_meetings_view(entry.option.meetings);
    }
    if entry.enabled {
        styled_line(text, Style { fg: None, bg: None, bold: false })
    } else {
        fg_line(text, Color::DarkGray)
    }
}

/// The manual entries of the term.
pub open spec fn manual_panel(s: AppStateView, area: Area) -> PanelView {
    let visible = entries_of_term(s.manual.entries, s.base.term_id);
    PanelView {
        clears: true,
        framed: true,
        active: s.focus == Focus::Manual,
        title: marked(
            s.focus == Focus::Manual,
            "Manual entries | a add · x toggle · Esc close"@,
        ),
        list: true,
        cursor: if visible.len() > 0 {
            Some(smaller(s.manual_cursor, visible.len() - 1) as usize)
        } else {
            None
        },
        ..bare(
            area,
            Seq::new(visible.len(), |i: int| entry_line(s.manual.entries[visible[i]])),
        )
    }
}

fn draw_manual(state: &AppState, area: Area) -> (r: Panel)
    ensures
        r.deep_view() == manual_panel(state.deep_view(), area),
{
    let ghost s = state.deep_view();
    let ghost shown = entries_of_term(s.manual.entries, s.base.term_id);
    let visible = state.visible_entries();
    let mut lines: Vec<Line> = Vec::new();
    let mut index: usize = 0;
    while index < visible.len()
        invariant
            index <= visible@.len(),
            s == state.deep_view(),
            visible@.len() == shown.len(),
            forall|i: int|
                0 <= i < visible@.len() ==> #[trigger] visible@[i] == shown[i] && visible@[i]
                    < state.manual.entries@.len(),
            lines@.len() == index,
            forall|i: int|
                0 <= i < index ==> (#[trigger] lines@[i]).deep_view() == entry_line(
                    s.manual.entries[shown[i]],
                ),
        decreases visible@.len() - index,
    {
        let at: usize = visible[index];
        assert(visible@[index as int] < state.manual.entries@.len());
        assert(s.manual.entries[at as int] == state.manual.entries@[at as int].deep_view());
        lines.push(draw_entry(&state.manual.entries[at]));
        index += 1;
    }
    assert(lines.deep_view() =~= Seq::new(
        shown.len(),
        |i: int| entry_line(s.manual.entries[shown[i]]),
    ));
    let active = state.focus == Focus::Manual;
    let mut panel = bare_panel(area, lines);
    panel.clears = true;
    panel.framed = true;
    panel.active = active;
    panel.title = marked_title(active, "Manual entries | a add · x toggle · Esc close");
    panel.list = true;
    panel.cursor = if visible.len() == 0 {
        None
    } else if state.manual_cursor < visible.len() - 1 {
        Some(state.manual_cursor)
    } else {
        Some(visible.len() - 1)
    };
    assert(panel.deep_view() =~= manual_panel(s, area));
    panel
}

/// The status, the notice or the keys, and what the keys of the pane do.
pub open spec fn footer_panel(s: AppStateView, area: Area) -> PanelView {
    PanelView {
        framed: true,
        ..bare(
            area,
            seq![
                styled(s.status, plain()),
                match s.selection_notice {
                    Some(notice) => styled(notice, colored(Color::Yellow)),
                    None => styled(
                        "/ search  s selected  c cancel  t timetable  e export  ? help"@,
                        plain(),
                    ),
                },
                styled(
                    if s.focus == Focus::Manual {
                        "Enter edit | a add | x toggle | Esc/m close manual entries"@
                    } else if s.focus == Focus::Timetable {
                        hint_of(s.timetable_navigation)
                    } else {
                        "Click pane to focus | h/l ←/→ panes | j/k ↑/↓ move | Space select/remove | m manual | q quit"@
                    },
                    plain(),
                ),
            ],
        )
    }
}

fn draw_footer(state: &AppState, area: Area) -> (r: Panel)
    ensures
        r.deep_view() == footer_panel(state.deep_view(), area),
{
    let mut lines: Vec<Line> = Vec::new();
    lines.push(one_span_line(state.status.clone()));
    lines.push(
        match &state.selection_notice {
            Some(notice) => fg_line(notice.clone(), Color::Yellow),
            None => one_span_line(
                "/ search  s selected  c cancel  t timetable  e export  ? help".to_string(),
            ),
        },
    );
    let keys = if state.focus == Focus::Manual {
        "Enter edit | a add | x toggle | Esc/m close manual entries"
    } else if state.focus == Focus::Timetable {
        state.timetable_navigation.hint()
    } else {
        "Click pane to focus | h/l ←/→ panes | j/k ↑/↓ move | Space select/remove | m manual | q quit"
    };
    lines.push(one_span_line(keys.to_string()));
    let mut panel = bare_panel(area, lines);
    panel.framed = true;
    assert(panel.deep_view() =~= footer_panel(state.deep_view(), area));
    panel
}

/// The texts of the help, after its heading.
pub open spec fn help_texts() -> Seq<Seq<char>> {
    seq![
        ""@,
        "/                  Search subjects. Enter to browse, Ctrl+U to clear."@,
        "h/l or Left/Right  Previous/next pane. Tab/Shift+Tab or click also works."@,
        "j/k or Down/Up     Move within the active pane."@,
        "Space or Enter     Select a subject / remove a selected class."@,
        "a / m              Add manual section / manual overlay (Esc closes)."@,
        "Enter / x          Edit / enable-disable the selected manual entry."@,
        "c                  Cancel background optimization."@,
        "s / t              Focus selected classes / timetable."@,
        "PgUp/PgDn          Scroll the timetable."@,
        "Home/End           First/last line in the timetable."@,
        "Timetable: h/l choices, Enter blocks, hjkl move, Enter members, h/l switch, Esc back."@,
        "e                  Export chosen sections to a new local ICS file."@,
        "q / Esc            Quit. Esc closes search, help, or an editor first."@,
        ""@,
        "Editor: Tab fields, Ctrl+U clear, Enter/Ctrl+S save, Esc cancel."@,
        "Meetings: Mon 09:00-10:00;Wed 09:00-10:00. Exact minutes are kept."@,
        "Selection or manual edits automatically re-optimize the timetable."@,
        "Press ? or Esc to close help."@,
    ]
}

/// The help.
pub open spec fn help_panel(area: Area) -> PanelView {
    PanelView {
        clears: true,
        framed: true,
        title: "Help"@,
        wrapped: true,
        ..bare(
            area,
            seq![styled("Hydrant Optimizer keymap"@, strong())] + Seq::new(
                19,
                |i: int| styled(help_texts()[i], plain()),
            ),
        )
    }
}

fn draw_help(area: Area) -> (r: Panel)
    ensures
        r.deep_view() == help_panel(area),
{
    let texts: [&str; 19] = [
        "",
        "/                  Search subjects. Enter to browse, Ctrl+U to clear.",
        "h/l or Left/Right  Previous/next pane. Tab/Shift+Tab or click also works.",
        "j/k or Down/Up     Move within the active pane.",
        "Space or Enter     Select a subject / remove a selected class.",
        "a / m              Add manual section / manual overlay (Esc closes).",
        "Enter / x          Edit / enable-disable the selected manual entry.",
        "c                  Cancel background optimization.",
        "s / t              Focus selected classes / timetable.",
        "PgUp/PgDn          Scroll the timetable.",
        "Home/End           First/last line in the timetable.",
        "Timetable: h/l choices, Enter blocks, hjkl move, Enter members, h/l switch, Esc back.",
        "e                  Export chosen sections to a new local ICS file.",
        "q / Esc            Quit. Esc closes search, help, or an editor first.",
        "",
        "Editor: Tab fields, Ctrl+U clear, Enter/Ctrl+S save, Esc cancel.",
        "Meetings: Mon 09:00-10:00;Wed 09:00-10:00. Exact minutes are kept.",
        "Selection or manual edits automatically re-optimize the timetable.",
        "Press ? or Esc to close help.",
    ];
    assert(forall|i: int| 0 <= i < 19 ==> (#[trigger] texts@[i])@ == help_texts()[i]);
    let heading = styled_line(
        "Hydrant Optimizer keymap".to_string(),
        Style { fg: None, bg: None, bold: true },
    );
    let mut lines: Vec<Line> = Vec::new();
    lines.push(heading);
    let mut index: usize = 0;
    while index < 19
        invariant
            index <= 19,
            texts@.len() == 19,
            forall|i: int| 0 <= i < 19 ==> (#[trigger] texts@[i])@ == help_texts()[i],
            lines@.len() == 1 + index,
            lines@[0].deep_view() == styled("Hydrant Optimizer keymap"@, strong()),
            forall|i: int|
                1 <= i < 1 + index ==> (#[trigger] lines@[i]).deep_view() == styled(
                    help_texts()[i - 1],
                    plain(),
                ),
        decreases 19 - index,
    {
        lines.push(one_span_line(texts[index].to_string()));
        index += 1;
    }
    let mut panel = bare_panel(area, lines);
    panel.clears = true;
    panel.framed = true;
    panel.title = "Help".to_string();
    panel.wrapped = true;
    assert(panel.deep_view() =~= help_panel(area));
    panel
}

/// A field of the editor; the current one is marked.
pub open spec fn field_line(form: ManualFormView, field: EditorField) -> Seq<SpanView> {
    let current = field == form.field;
    seq![
        SpanView {
            content: (if current {
                ">"@
            } else {
                " "@
            }) + " "@ + filled(field_label(field), 14) + " "@,
            style: if current {
                colored(Color::Yellow)
            } else {
                plain()
            },
        },
        raw(field_value(form, field)),
        if current {
            SpanView { content: "_"@, style: colored(Color::Yellow) }
        } else {
            raw(Seq::empty())
        },
    ]
}

fn draw_field(form: &ManualForm, field: EditorField) -> (r: Line)
    ensures
        r.deep_view() == field_line(form.deep_view(), field),
{
    let current = field == form.field;
    let yellow = Style { fg: Some(Color::Yellow), bg: None, bold: false };
    let mut name = if current {
        ">".to_string()
    } else {
        " ".to_string()
    };
    name.append(" ");
    name.append(fill(field.label(), 14).as_str());
    name.append(" ");
    let mut spans: Vec<Span> = Vec::new();
    if current {
        spans.push(Span { content: name, style: yellow });
    } else {
        spans.push(raw_span(name));
    }
    spans.push(raw_span(form.value(field).clone()));
    if current {
        spans.push(Span { content: "_".to_string(), style: yellow });
    } else {
        spans.push(raw_span(String::new()));
    }
    let line = Line { spans };
    assert(line.deep_view() =~= field_line(form.deep_view(), field));
    line
}

/// The lines of the editor.
pub open spec fn editor_lines(form: ManualFormView) -> Seq<Seq<SpanView>> {
    seq![
        styled(
            if form.entry_id is Some {
                "Edit manual entry"@
            } else {
                "Add manual entry"@
            },
            strong(),
        ),
        styled("Tab/BackTab move fields, Ctrl+S or Enter save, Esc cancel."@, plain()),
        styled(Seq::empty(), plain()),
    ] + Seq::new(7, |i: int| field_line(form, field_at(i))) + seq![
        styled(Seq::empty(), plain()),
        styled(
            "Enabled: "@ + (if form.enabled {
                "true"@
            } else {
                "false"@
            }) + " (x toggles from manual list after saving)"@,
            plain(),
        ),
    ] + (match form.entry_id {
        Some(id) => seq![styled("ID: "@ + id, plain())],
        None => Seq::empty(),
    }) + (match form.error {
        Some(error) => seq![styled(Seq::empty(), plain()), styled(error, colored(Color::Red))],
        None => Seq::empty(),
    })
}

/// The editor.
pub open spec fn editor_panel(form: ManualFormView, area: Area) -> PanelView {
    PanelView {
        clears: true,
        framed: true,
        title: "Manual editor"@,
        wrapped: true,
        ..bare(area, editor_lines(form))
    }
}

fn draw_editor(form: &ManualForm, area: Area) -> (r: Panel)
    ensures
        r.deep_view() == editor_panel(form.deep_view(), area),
{
    let ghost f = form.deep_view();
    let mut lines: Vec<Line> = Vec::new();
    let heading = if form.entry_id.is_some() {
        "Edit manual entry"
    } else {
        "Add manual entry"
    };
    lines.push(styled_line(heading.to_string(), Style { fg: None, bg: None, bold: true }));
    lines.push(
        one_span_line("Tab/BackTab move fields, Ctrl+S or Enter save, Esc cancel.".to_string()),
    );
    let empty = String::new();
    assert(empty@ =~= Seq::empty());
    lines.push(one_span_line(empty));
    let ghost head = lines.deep_view();
    assert(head =~= seq![
        styled(heading@, strong()),
        styled("Tab/BackTab move fields, Ctrl+S or Enter save, Esc cancel."@, plain()),
        styled(Seq::empty(), plain()),
    ]);
    let fields = EditorField::all();
    let mut index: usize = 0;
    assert(lines.deep_view() =~= head + Seq::new(0, |i: int| field_line(f, field_at(i))));
    while index < 7
        invariant
            index <= 7,
            f == form.deep_view(),
            fields@.len() == 7,
            forall|i: int| 0 <= i < 7 ==> #[trigger] fields@[i] == field_at(i),
            lines.deep_view() == head + Seq::new(
                index as nat,
                |i: int| field_line(f, field_at(i)),
            ),
        decreases 7 - index,
    {
        let ghost before = lines.deep_view();
        let line = draw_field(form, fields[index]);
        let ghost added = line.deep_view();
        lines.push(line);
        assert(lines.deep_view() =~= before.push(added));
        assert(lines.deep_view() =~= head + Seq::new(
            (index + 1) as nat,
            |i: int| field_line(f, field_at(i)),
        ));
        index += 1;
    }
    let ghost body = lines.deep_view();
    let empty = String::new();
    assert(empty@ =~= Seq::empty());
    lines.push(one_span_line(empty));
    let mut enabled = "Enabled: ".to_string();
    assert(body =~= head + Seq::new(7, |i: int| field_line(f, field_at(i))));
    enabled.append(
        if form.enabled {
            "true"
        } else {
            "false"
        },
    );
    enabled.append(" (x toggles from manual list after saving)");
    lines.push(one_span_line(enabled));
    let ghost middle = lines.deep_view();
    assert(middle =~= body + seq![styled(Seq::empty(), plain()), styled(enabled@, plain())]);
    match &form.entry_id {
        Some(id) => {
            let mut text = "ID: ".to_string();
            text.append(id.as_str());
            lines.push(one_span_line(text));
        },
        None => {},
    }
    let ghost named = lines.deep_view();
    assert(named =~= middle + (match f.entry_id {
        Some(id) => seq![styled("ID: "@ + id, plain())],
        None => Seq::empty(),
    }));
    match &form.error {
        Some(error) => {
            let empty = String::new();
            assert(empty@ =~= Seq::empty());
            lines.push(one_span_line(empty));
            lines.push(fg_line(error.clone(), Color::Red));
        },
        None => {},
    }
    assert(lines.deep_view() =~= named + (match f.error {
        Some(error) => seq![styled(Seq::empty(), plain()), styled(error, colored(Color::Red))],
        None => Seq::empty(),
    }));
    assert(lines.deep_view() =~= editor_lines(f));
    let mut panel = bare_panel(area, lines);
    panel.clears = true;
    panel.framed = true;
    panel.title = "Manual editor".to_string();
    panel.wrapped = true;
    assert(panel.deep_view() =~= editor_panel(f, area));
    panel
}

/// How a search ended.
pub open spec fn status_name(status: SolveStatus) -> Seq<char> {
    match status {
        SolveStatus::OptimalKnown => "OptimalKnown"@,
        SolveStatus::Infeasible => "Infeasible"@,
        SolveStatus::Cancelled => "Cancelled"@,
    }
}

fn status_text(status: SolveStatus) -> (r: &'static str)
    ensures
        r@ == status_name(status),
{
    match status {
        SolveStatus::OptimalKnown => "OptimalKnown",
        SolveStatus::Infeasible => "Infeasible",
        SolveStatus::Cancelled => "Cancelled",
    }
}

/// What the timetable shows, and whether it is the table of the week. Without a solution that is
/// an empty table, unless a search is running.
pub open spec fn timetable_content(s: AppStateView, width: u16) -> (bool, Seq<Seq<SpanView>>) {
    match s.solution {
        None => if s.optimize_running {
            (false, seq![styled("Optimizing. The timetable will appear here."@, plain())])
        } else {
            (width >= 37, week_table(Seq::empty(), width as int, None, None))
        },
        Some(solution) => if solution.status == SolveStatus::OptimalKnown {
            match sections_chosen(s.dataset, solution, s.actual_members) {
                Ok(sections) => (
                    width >= 37,
                    week_table(
                        sections,
                        width as int,
                        if 0 <= s.result_cursor < solution.choices.len() {
                            Some(solution.choices[s.result_cursor].requirement_id)
                        } else {
                            None
                        },
                        block_at(s),
                    ),
                ),
                Err(error) => (
                    false,
                    seq![styled("Cannot render timetable: "@ + error, colored(Color::Red))],
                ),
            }
        } else {
            (
                false,
                seq![
                    styled(
                        "No feasible timetable: "@ + status_name(solution.status) + "."@,
                        plain(),
                    ),
                ],
            )
        },
    }
}

fn timetable_lines(state: &AppState, width: u16) -> (r: (bool, Vec<Line>))
    ensures
        (r.0, r.1.deep_view()) == timetable_content(state.deep_view(), width),
        r.0 ==> r.1@.len() >= 52,
{
    let ghost s = state.deep_view();
    let solution = match &state.solution {
        Some(solution) => solution,
        None => {
            if state.optimize_running {
                let text = "Optimizing. The timetable will appear here.".to_string();
                return (false, single(one_span_line(text)));
            }
            let sections: Vec<ChosenSection> = Vec::new();
            let slice = sections.as_slice();
            assert(slice.deep_view() =~= Seq::empty());
            let lines = week_lines_focused(slice, width, None, None);
            assert(lines.deep_view().len() == lines@.len());
            return (width >= 37, lines);
        },
    };
    if solution.status != SolveStatus::OptimalKnown {
        let mut text = "No feasible timetable: ".to_string();
        text.append(status_text(solution.status));
        text.append(".");
        return (false, single(one_span_line(text)));
    }
    match actual_sections(&state.dataset, solution, &state.actual_members) {
        Ok(sections) => {
            assert(s.solution->0.choices.len() == solution.choices@.len());
            let requirement: Option<&str> = if state.result_cursor < solution.choices.len() {
                assert(s.solution->0.choices[s.result_cursor]
                    == solution.choices@[s.result_cursor].deep_view());
                Some(solution.choices[state.result_cursor].requirement_id.as_str())
            } else {
                None
            };
            let slice = sections.as_slice();
            assert(slice.deep_view() =~= sections.deep_view());
            let lines = week_lines_focused(
                slice,
                width,
                requirement,
                state.selected_block(),
            );
            assert(lines.deep_view().len() == lines@.len());
            (width >= 37, lines)
        },
        Err(error) => {
            let mut text = "Cannot render timetable: ".to_string();
            text.append(error.message.as_str());
            (false, single(fg_line(text, Color::Red)))
        },
    }
}

/// The text of a line.
pub open spec fn content_of(line: Seq<SpanView>) -> Seq<char>
    decreases line.len(),
{
    if line.len() == 0 {
        Seq::empty()
    } else {
        content_of(line.drop_last()) + line.last().content
    }
}

fn line_text(line: &Line) -> (r: String)
    ensures
        r@ == content_of(line.deep_view()),
{
    let ghost view = line.deep_view();
    let mut text = String::new();
    let mut index: usize = 0;
    assert(text@ =~= content_of(view.take(0)));
    while index < line.spans.len()
        invariant
            index <= line.spans@.len(),
            view == line.deep_view(),
            view.len() == line.spans@.len(),
            text@ == content_of(view.take(index as int)),
        decreases line.spans@.len() - index,
    {
        assert(view.take(index + 1).drop_last() =~= view.take(index as int));
        assert(view[index as int] == line.spans@[index as int].deep_view());
        text.append(line.spans[index].content.as_str());
        index += 1;
    }
    assert(view.take(index as int) =~= view);
    text
}

/// The number of lines that a text takes up: those it is wrapped to, or one if it is too long for
/// its wrapped lines to be counted.
pub open spec fn lines_taken(text: Seq<char>, width: u16) -> int {
    if countable(text, width) {
        wrapped_line_count(text, width) as int
    } else {
        1
    }
}

fn count_lines(text: &str, width: u16) -> (r: usize)
    ensures
        r == lines_taken(text@, width),
{
    if width <= 16384 || chars_of(text).len() <= 16383 {
        wrapped_lines(text, width)
    } else {
        1
    }
}

/// The number of lines that some lines take up when they are wrapped.
pub open spec fn wrapped_total(lines: Seq<Seq<SpanView>>, width: u16) -> int
    decreases lines.len(),
{
    if lines.len() == 0 {
        0
    } else {
        wrapped_total(lines.drop_last(), width) + lines_taken(content_of(lines.last()), width)
    }
}

proof fn lemma_wrapped_total(lines: Seq<Seq<SpanView>>, width: u16)
    ensures
        wrapped_total(lines, width) >= 0,
    decreases lines.len(),
{
    if lines.len() > 0 {
        lemma_wrapped_total(lines.drop_last(), width);
    }
}

fn count_wrapped(lines: &Vec<Line>, width: u16) -> (r: u16)
    ensures
        r == smaller(wrapped_total(lines.deep_view(), width), u16::MAX as int),
{
    let ghost view = lines.deep_view();
    let mut total: u16 = 0;
    let mut index: usize = 0;
    assert(view.take(0) =~= Seq::empty());
    while index < lines.len()
        invariant
            index <= lines@.len(),
            view == lines.deep_view(),
            view.len() == lines@.len(),
            total == smaller(wrapped_total(view.take(index as int), width), u16::MAX as int),
        decreases lines@.len() - index,
    {
        proof {
            assert(view.take(index + 1).drop_last() =~= view.take(index as int));
            assert(view[index as int] == lines@[index as int].deep_view());
            lemma_wrapped_total(view.take(index as int), width);
        }
        let count: usize = count_lines(line_text(&lines[index]).as_str(), width);
        total = if count > (u16::MAX - total) as usize {
            u16::MAX
        } else {
            total + count as u16
        };
        index += 1;
    }
    assert(view.take(index as int) =~= view);
    total
}

/// The visible part of the timetable in an area. Of the table, the head and the closing rule are
/// always visible and the 48 half hours scroll, at first from 08:00 on.
pub open spec fn timetable_viewport(s: AppStateView, area: Area) -> ScrollViewport {
    let (table, lines) = timetable_content(s, area.width);
    let height = difference(area.height as int, 1);
    if table {
        fitted_viewport(
            s.timetable_viewport,
            48,
            smaller(48, difference(height, 4)) as u16,
            16,
        )
    } else {
        fitted_viewport(
            s.timetable_viewport,
            smaller(wrapped_total(lines, area.width), u16::MAX as int),
            height as u16,
            0,
        )
    }
}

/// The heading of the timetable.
pub open spec fn timetable_heading(s: AppStateView) -> Seq<SpanView> {
    let active = s.focus == Focus::Timetable;
    styled(
        marked(active, "Timetable"@) + " · 30-minute rows · t focus · PgUp/Dn | "@ + decimal(
            s.timetable_viewport.offset as nat,
        ) + "/"@ + decimal(s.timetable_viewport.max_offset as nat),
        if active {
            colored(Color::Cyan)
        } else {
            plain()
        },
    )
}

/// The rows of an area from `from` on.
pub open spec fn below(area: Area, from: int, height: int) -> Area {
    Area { y: capped_sum(area.y as int, from) as u16, height: height as u16, ..area }
}

/// The timetable: its heading, and the table or what is shown in its place.
pub open spec fn timetable_panels(s: AppStateView, area: Area) -> Seq<PanelView> {
    let (table, lines) = timetable_content(s, area.width);
    let viewport = s.timetable_viewport;
    let height = difference(area.height as int, 1);
    let heading = bare(
        Area { height: smaller(area.height as int, 1) as u16, ..area },
        seq![timetable_heading(s)],
    );
    if table {
        seq![
            heading,
            bare(below(area, 1, smaller(height, 3)), lines.subrange(0, 3)),
            bare(
                below(area, 4, viewport.height as int),
                lines.subrange(
                    3 + viewport.offset as int,
                    3 + viewport.offset + viewport.height as int,
                ),
            ),
            bare(
                below(area, 4 + viewport.height as int, difference(height, 3 + viewport.height)),
                lines.subrange(51, lines.len() as int),
            ),
        ]
    } else {
        seq![
            heading,
            PanelView {
                wrapped: true,
                skipped_lines: viewport.offset,
                ..bare(below(area, 1, height), lines)
            },
        ]
    }
}

fn area_below(area: Area, from: u16, height: u16) -> (r: Area)
    ensures
        r == below(area, from as int, height as int),
{
    Area { y: plus(area.y, from), height, ..area }
}

fn draw_heading(state: &AppState, area: Area) -> (r: Panel)
    ensures
        r.deep_view() == bare(
            Area { height: smaller(area.height as int, 1) as u16, ..area },
            seq![timetable_heading(state.deep_view())],
        ),
{
    let active = state.focus == Focus::Timetable;
    let mut text = marked_title(active, "Timetable");
    text.append(" · 30-minute rows · t focus · PgUp/Dn | ");
    text.append(decimal_text(state.timetable_viewport.offset as u64).as_str());
    text.append("/");
    text.append(decimal_text(state.timetable_viewport.max_offset as u64).as_str());
    let heading = if active {
        fg_line(text, Color::Cyan)
    } else {
        one_span_line(text)
    };
    bare_panel(Area { height: lesser(area.height, 1), ..area }, single(heading))
}

/// Draws the timetable, and fits its viewport to the area.
pub fn draw_timetable(state: &mut AppState, area: Area) -> (r: Vec<Panel>)
    ensures
        final(state).deep_view() == (AppStateView {
            timetable_viewport: timetable_viewport(old(state).deep_view(), area),
            ..old(state).deep_view()
        }),
        r.deep_view() == timetable_panels(final(state).deep_view(), area),
{
    let ghost before = state.deep_view();
    let (table, mut lines) = timetable_lines(state, area.width);
    let ghost content = lines.deep_view();
    let height: u16 = minus(area.height, 1);
    if table {
        state.timetable_viewport.fit(48, lesser(48, minus(height, 4)), 16);
    } else {
        state.timetable_viewport.fit(count_wrapped(&lines, area.width), height, 0);
    }
    let ghost s = state.deep_view();
    assert(s =~= AppStateView {
        timetable_viewport: timetable_viewport(before, area),
        ..before
    });
    assert(timetable_content(s, area.width) == timetable_content(before, area.width));
    let viewport = state.timetable_viewport;
    let mut panels: Vec<Panel> = Vec::new();
    panels.push(draw_heading(state, area));
    if table {
        let bottom = lines.split_off(51);
        let mut rest = lines.split_off(3);
        let mut visible = rest.split_off(viewport.offset as usize);
        visible.truncate(viewport.height as usize);
        proof {
            assert(lines.deep_view() =~= content.subrange(0, 3));
            assert(visible.deep_view() =~= content.subrange(
                3 + viewport.offset as int,
                3 + viewport.offset + viewport.height as int,
            ));
            assert(bottom.deep_view() =~= content.subrange(51, content.len() as int));
        }
        panels.push(bare_panel(area_below(area, 1, lesser(height, 3)), lines));
        panels.push(bare_panel(area_below(area, 4, viewport.height), visible));
        panels.push(
            bare_panel(
                area_below(
                    area,
                    4 + viewport.height,
                    minus(height, 3 + viewport.height),
                ),
                bottom,
            ),
        );
    } else {
        let mut panel = bare_panel(area_below(area, 1, height), lines);
        panel.wrapped = true;
        panel.skipped_lines = viewport.offset;
        assert(panel.deep_view() =~= PanelView {
            wrapped: true,
            skipped_lines: viewport.offset,
            ..bare(below(area, 1, height as int), content)
        });
        panels.push(panel);
    }
    assert(panels.deep_view() =~= timetable_panels(s, area));
    panels
}

/// What is on the screen.
#[derive(Clone, Debug, PartialEq, Eq)]
pub struct Scene {
    pub panels: Vec<Panel>,
    pub caret: Option<(u16, u16)>,
}

#[verifier::ext_equal]
pub struct SceneView {
    pub panels: Seq<PanelView>,
    pub caret: Option<(u16, u16)>,
}

impl DeepView for Scene {
    type V = SceneView;

    open spec fn deep_view(&self) -> SceneView {
        SceneView { panels: self.panels.deep_view(), caret: self.caret }
    }
}

/// The panes that a click focuses.
pub open spec fn focus_regions_of(screen: Screen) -> Seq<(Area, Focus)> {
    seq![
        (screen.search, Focus::Search),
        (screen.subjects, Focus::Subjects),
        (screen.selected, Focus::Selected),
        (screen.timetable, Focus::Timetable),
    ]
}

/// The state after it was drawn.
pub open spec fn drawn(s: AppStateView, screen: Screen) -> AppStateView {
    AppStateView {
        focus_regions: focus_regions_of(screen),
        timetable_viewport: timetable_viewport(s, screen.timetable),
        ..s
    }
}

/// The windows over the panes: manual entries, help, editor.
pub open spec fn windows(s: AppStateView, screen: Screen) -> Seq<PanelView> {
    (if s.focus == Focus::Manual {
        seq![manual_panel(s, screen.manual)]
    } else {
        Seq::empty()
    }) + (if s.show_help {
        seq![help_panel(screen.help)]
    } else {
        Seq::empty()
    }) + (match s.editor {
        Some(form) => seq![editor_panel(form, screen.editor)],
        None => Seq::empty(),
    })
}

/// The screen that shows a state.
pub open spec fn scene_of(s: AppStateView, screen: Screen) -> SceneView {
    SceneView {
        panels: seq![
            search_panel(s, screen.search),
            subjects_panel(s, screen.subjects),
            selected_panel(s, screen.selected),
        ] + timetable_panels(s, screen.timetable) + seq![footer_panel(s, screen.footer)] + windows(
            s,
            screen,
        ),
        caret: caret_place(s, screen.search),
    }
}

/// Draws the state: notes where its panes stand, and fits the timetable to its pane.
pub fn draw(state: &mut AppState, screen: &Screen) -> (r: Scene)
    ensures
        final(state).deep_view() == drawn(old(state).deep_view(), *screen),
        r.deep_view() == scene_of(final(state).deep_view(), *screen),
{
    let ghost before = state.deep_view();
    let mut regions: Vec<(Area, Focus)> = Vec::new();
    regions.push((screen.search, Focus::Search));
    regions.push((screen.subjects, Focus::Subjects));
    regions.push((screen.selected, Focus::Selected));
    regions.push((screen.timetable, Focus::Timetable));
    assert(regions@ =~= focus_regions_of(*screen));
    state.focus_regions = regions;
    let ghost placed = state.deep_view();
    assert(timetable_content(placed, screen.timetable.width) == timetable_content(
        before,
        screen.timetable.width,
    ));
    let mut timetable = draw_timetable(state, screen.timetable);
    let ghost s = state.deep_view();
    assert(s =~= drawn(before, *screen));
    let ghost grid = timetable.deep_view();
    let (search, caret) = draw_search(state, screen.search);
    let mut panels: Vec<Panel> = Vec::new();
    panels.push(search);
    panels.push(draw_subjects(state, screen.subjects));
    panels.push(draw_selected(state, screen.selected));
    let ghost lists = panels.deep_view();
    panels.append(&mut timetable);
    assert(panels.deep_view() =~= lists + grid);
    panels.push(draw_footer(state, screen.footer));
    let ghost panes = panels.deep_view();
    assert(panes =~= lists + grid + seq![footer_panel(s, screen.footer)]);
    if state.focus == Focus::Manual {
        panels.push(draw_manual(state, screen.manual));
    }
    let ghost with_manual = panels.deep_view();
    assert(with_manual =~= panes + (if s.focus == Focus::Manual {
        seq![manual_panel(s, screen.manual)]
    } else {
        Seq::empty()
    }));
    if state.show_help {
        panels.push(draw_help(screen.help));
    }
    let ghost with_help = panels.deep_view();
    assert(with_help =~= with_manual + (if s.show_help {
        seq![help_panel(screen.help)]
    } else {
        Seq::empty()
    }));
    match &state.editor {
        Some(form) => {
            panels.push(draw_editor(form, screen.editor));
        },
        None => {},
    }
    assert(panels.deep_view() =~= panes + windows(s, *screen));
    let scene = Scene { panels, caret };
    assert(scene.deep_view() =~= scene_of(s, *screen));
    scene
}

/// The caret stays within the frame of the search pane.
pub proof fn law_caret_stays_inside(s: AppStateView, area: Area)
    requires
        area.x + area.width <= u16::MAX,
        area.y + area.height <= u16::MAX,
    ensures
        match caret_place(s, area) {
            Some((column, row)) => inside(area).covers(column as int, row as int),
            None => !searching(s) || area.width <= 2 || area.height <= 2,
        },
{
}

/// Drawing changes neither the selection nor what the keys go to.
pub proof fn law_drawing_changes_no_choice(s: AppStateView, screen: Screen)
    ensures
        drawn(s, screen).selected == s.selected,
        drawn(s, screen).focus == s.focus,
        drawn(s, screen).solution == s.solution,
        drawn(s, screen).generation == s.generation,
        drawn(s, screen).timetable_viewport.offset <= drawn(
            s,
            screen,
        ).timetable_viewport.max_offset,
{
}

} // verus!
