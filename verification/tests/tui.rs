use hydrant_optimizer::adapter;
use hydrant_optimizer::app;
use hydrant_optimizer::error::Error;
use hydrant_optimizer::model::{ManualStore, SolveStatus};
use hydrant_optimizer::tui::state::{WorkerCommand, WorkerEvent};
use hydrant_optimizer::tui::view::{arrange, draw, draw_timetable, place_help, Panel, Scene};
use hydrant_optimizer::tui::week;
use hydrant_optimizer::tui::{
    AppAction, AppState, Area, Focus, Key, KeyCode, ManualForm, Mouse, KEYMAP,
};
use ratatui::backend::TestBackend;
use ratatui::layout::Rect;
use ratatui::style::{Color, Modifier, Style};
use ratatui::text::{Line, Span};
use ratatui::widgets::{Block, Borders, Clear, List, ListItem, ListState, Paragraph, Wrap};
use ratatui::{Frame, Terminal};

const CATALOG: &str = r#"{
  "lastUpdated":"2026-09-08 22:01",
  "termInfo":{"urlName":"f26","startDate":"2026-10-26","endDate":"2026-11-09","h1EndDate":"2026-10-30","h2StartDate":"2026-11-02","holidayDates":["2026-11-02"],"mondayScheduleDate":"2026-11-03"},
  "classes":{
    "A":{"number":"A","name":"Algorithms","half":false,"sectionKinds":["lecture","recitation"],"lectureSections":[[[[6,2]],"Room A"],[[[6,2]],"Room B"]],"recitationSections":[]},
    "B":{"number":"B","name":"Biology","half":false,"sectionKinds":["lecture"],"lectureSections":[[[[8,2]],"Room C"]]},
    "C":{"number":"C","name":"Conflict","half":false,"sectionKinds":["lecture"],"lectureSections":[[[[6,2]],"Room D"]]},
    "E":{"number":"E","name":"Empty","half":false,"sectionKinds":["lecture"],"lectureSections":[]},
    "P":{"number":"P","name":"Partial","half":1,"sectionKinds":["lecture"],"lectureSections":[[[[40,2]],"Room P"]]}
  }
}"#;

const TERM: &str = r#"{"semester":{"urlName":"f26","startDate":"2026-10-26","endDate":"2026-11-09","h1EndDate":"2026-10-30","h2StartDate":"2026-11-02","holidayDates":["2026-11-02"],"mondayScheduleDate":"2026-11-03"}}"#;

fn fixture_state() -> AppState {
    let dataset = adapter::parse_catalog(CATALOG, TERM).unwrap();
    let selected = vec!["A".to_string(), "B".to_string()];
    let mut solution = app::optimize(&dataset, &selected, None).unwrap();
    for i in 0..12 {
        solution
            .unresolved
            .push(format!("Notice {i:02}: unannounced meeting"));
    }
    let mut state = AppState::new(
        dataset,
        ManualStore::default(),
        "data".to_string(),
        "data/out.ics".to_string(),
        selected,
    )
    .unwrap();
    state.install_solution(solution);
    state
}

fn color(color: week::Color) -> Color {
    match color {
        week::Color::Blue => Color::Blue,
        week::Color::Green => Color::Green,
        week::Color::Magenta => Color::Magenta,
        week::Color::Cyan => Color::Cyan,
        week::Color::LightBlue => Color::LightBlue,
        week::Color::LightGreen => Color::LightGreen,
        week::Color::LightMagenta => Color::LightMagenta,
        week::Color::LightCyan => Color::LightCyan,
        week::Color::Black => Color::Black,
        week::Color::White => Color::White,
        week::Color::DarkGray => Color::DarkGray,
        week::Color::Red => Color::Red,
        week::Color::Yellow => Color::Yellow,
    }
}

fn style(style: week::Style) -> Style {
    let mut shown = Style::default();
    if let Some(fg) = style.fg {
        shown = shown.fg(color(fg));
    }
    if let Some(bg) = style.bg {
        shown = shown.bg(color(bg));
    }
    if style.bold {
        shown = shown.add_modifier(Modifier::BOLD);
    }
    shown
}

fn shown_line(line: &week::Line) -> Line<'static> {
    Line::from(
        line.spans
            .iter()
            .map(|span| Span::styled(span.content.clone(), style(span.style)))
            .collect::<Vec<_>>(),
    )
}

fn paint_panel(frame: &mut Frame<'_>, panel: &Panel) {
    let place = panel.area;
    let area = Rect::new(place.x, place.y, place.width, place.height).intersection(frame.area());
    if panel.clears {
        frame.render_widget(Clear, area);
    }
    let mut block = Block::default();
    if panel.framed {
        block = block.borders(Borders::ALL);
    }
    if panel.active {
        block = block.border_style(Style::default().fg(Color::Cyan));
    }
    if !panel.title.is_empty() {
        block = block.title(panel.title.clone());
    }
    if !panel.bottom_title.is_empty() {
        block = block.title_bottom(panel.bottom_title.clone());
    }
    let lines: Vec<Line<'static>> = panel.lines.iter().map(shown_line).collect();
    if panel.list {
        let items: Vec<ListItem<'static>> = lines.into_iter().map(ListItem::new).collect();
        let mut state = ListState::default().with_selected(panel.cursor);
        let list = List::new(items)
            .block(block)
            .highlight_symbol("> ")
            .highlight_style(Style::default().fg(Color::Yellow));
        frame.render_stateful_widget(list, area, &mut state);
    } else {
        let mut paragraph = Paragraph::new(lines)
            .block(block)
            .scroll((panel.skipped_lines, panel.skipped_columns));
        if panel.wrapped {
            paragraph = paragraph.wrap(Wrap { trim: false });
        }
        frame.render_widget(paragraph, area);
    }
}

fn paint(frame: &mut Frame<'_>, scene: &Scene) {
    for panel in &scene.panels {
        paint_panel(frame, panel);
    }
    if let Some(caret) = scene.caret {
        frame.set_cursor_position(caret);
    }
}

fn whole(width: u16, height: u16) -> Area {
    Area {
        x: 0,
        y: 0,
        width,
        height,
    }
}

fn draw_on(terminal: &mut Terminal<TestBackend>, state: &mut AppState, width: u16, height: u16) {
    let scene = draw(state, &arrange(whole(width, height)));
    terminal.draw(|frame| paint(frame, &scene)).unwrap();
}

fn contents(terminal: &Terminal<TestBackend>) -> String {
    terminal
        .backend()
        .buffer()
        .content
        .iter()
        .map(|cell| cell.symbol())
        .collect()
}

fn render(state: &mut AppState, width: u16, height: u16) -> String {
    let mut terminal = Terminal::new(TestBackend::new(width, height)).unwrap();
    draw_on(&mut terminal, state, width, height);
    contents(&terminal)
}

fn timetable_on(state: &mut AppState, width: u16, height: u16) -> Terminal<TestBackend> {
    let panels = draw_timetable(state, whole(width, height));
    let mut terminal = Terminal::new(TestBackend::new(width, height)).unwrap();
    terminal
        .draw(|frame| {
            for panel in &panels {
                paint_panel(frame, panel);
            }
        })
        .unwrap();
    terminal
}

fn press(state: &mut AppState, code: KeyCode) -> AppAction {
    state.handle_key(Key::plain(code))
}

fn click(state: &mut AppState, column: u16, row: u16) {
    state.handle_mouse(Mouse {
        left_press: true,
        column,
        row,
    });
}

#[test]
fn clicks_focus_rendered_panes_without_changing_selection() {
    let mut state = fixture_state();
    let selected = state.selected.clone();
    let generation = state.generation;
    for (width, height) in [(80, 24), (140, 50), (40, 16)] {
        render(&mut state, width, height);
        for (area, focus) in state.focus_regions.clone() {
            click(&mut state, area.x, area.y);
            assert_eq!(state.focus, focus, "pane border");
            click(
                &mut state,
                area.x + area.width / 2,
                area.y + area.height / 2,
            );
            assert_eq!(state.focus, focus, "pane interior");
        }
        let focus = state.focus;
        click(&mut state, width - 1, 0);
        click(&mut state, 0, height - 1);
        assert_eq!(state.focus, focus, "unused column and footer are inert");
    }
    assert_eq!(state.selected, selected);
    assert_eq!(state.generation, generation);
    click(&mut state, 1, 1);
    press(&mut state, KeyCode::Char('A'));
    assert_eq!(state.query, "A");
}

#[test]
fn mouse_focus_respects_overlays_and_ignores_non_click_events() {
    let mut state = fixture_state();
    render(&mut state, 80, 24);
    state.handle_mouse(Mouse {
        left_press: false,
        column: 1,
        row: 1,
    });
    assert_eq!(state.focus, Focus::Subjects);
    state.show_help = true;
    click(&mut state, 1, 1);
    assert_eq!(state.focus, Focus::Subjects);
    state.show_help = false;
    state.editor = Some(ManualForm::new("A".into()));
    click(&mut state, 1, 1);
    assert_eq!(state.focus, Focus::Subjects);
    state.editor = None;
    state.focus = Focus::Manual;
    click(&mut state, 1, 1);
    assert_eq!(state.focus, Focus::Manual);
}

/// A background search: its generation, its subjects, and whether it was told to stop.
struct Worker {
    generation: u64,
    subjects: Vec<String>,
}

fn follow(state: &mut AppState, worker: &mut Option<Worker>, attempted: &mut Option<u64>) -> bool {
    let command = state.optimize_changed_selection(*attempted);
    *attempted = Some(state.generation);
    match command {
        WorkerCommand::Keep => false,
        WorkerCommand::Stop => worker.take().is_some(),
        WorkerCommand::Start(subjects, generation) => {
            let stopped = worker.take().is_some();
            *worker = Some(Worker {
                generation,
                subjects,
            });
            stopped
        }
    }
}

#[test]
fn automatic_optimization_tracks_changes_and_respects_cancellation() {
    let mut state = fixture_state();
    let mut worker: Option<Worker> = None;
    let mut attempted = None;
    follow(&mut state, &mut worker, &mut attempted);
    assert!(
        state.optimize_running,
        "preselected classes optimize on startup"
    );
    state.focus = Focus::Selected;
    press(&mut state, KeyCode::Enter);
    assert!(follow(&mut state, &mut worker, &mut attempted));
    let current = worker.take().unwrap();
    assert_eq!(current.generation, state.generation);
    let answer = app::optimize(&state.dataset, &current.subjects, None);
    state.worker_event(WorkerEvent::Finished(
        current.generation,
        current.generation,
        answer,
    ));
    assert_eq!(
        state.solution.as_ref().unwrap().status,
        SolveStatus::OptimalKnown
    );
    assert_eq!(state.selected.items().len(), 1);
    assert_eq!(
        press(&mut state, KeyCode::Char('o')),
        AppAction::Nothing
    );
    press(&mut state, KeyCode::Char(' '));
    follow(&mut state, &mut worker, &mut attempted);
    assert!(state.selected.items().is_empty());
    assert!(state.solution.is_none());
    assert!(worker.is_none());
    assert!(!state.optimize_running);
    state.focus = Focus::Subjects;
    press(&mut state, KeyCode::Char(' '));
    follow(&mut state, &mut worker, &mut attempted);
    assert!(worker.is_some(), "adding a class starts optimization");
    worker = None;
    state.cancel_requested();
    follow(&mut state, &mut worker, &mut attempted);
    assert!(worker.is_none(), "cancelled generation must not restart");
    state.open_add_manual();
    state.editor.as_mut().unwrap().meetings = "Mon 09:00-10:00".into();
    let (manual, dataset) = state.plan_manual_save().unwrap().unwrap();
    state.commit_manual_save(manual, dataset);
    follow(&mut state, &mut worker, &mut attempted);
    assert!(worker.is_some(), "manual changes trigger optimization");
}

#[test]
fn panes_keep_right_borders_inside_the_terminal_after_resize() {
    let mut state = fixture_state();
    let mut terminal = Terminal::new(TestBackend::new(107, 61)).unwrap();
    for (width, height) in [(107, 61), (80, 24), (53, 24), (170, 55), (107, 61)] {
        terminal.backend_mut().resize(width, height);
        draw_on(&mut terminal, &mut state, width, height);
        let buffer = terminal.backend().buffer();
        let right = width - 2;
        for (row, border) in [
            (0, "┐"),
            (1, "│"),
            (2, "┘"),
            (3, "┐"),
            (height - 5, "┐"),
            (height - 1, "┘"),
        ] {
            assert_eq!(
                buffer[(right, row)].symbol(),
                border,
                "{width}x{height} row {row}"
            );
        }
        let table_top = (0..height)
            .find(|&y| {
                buffer[(0, y)].symbol() == "┌"
                    && (0..width).any(|x| buffer[(x, y)].symbol() == "┬")
            })
            .unwrap();
        assert_eq!(buffer[(right, table_top)].symbol(), "┐");
        assert_eq!(buffer[(right, table_top + 1)].symbol(), "│");
        for y in 0..height {
            assert_eq!(
                buffer[(width - 1, y)].symbol(),
                " ",
                "right gutter at {width}x{height}"
            );
        }
    }
}

#[test]
fn overlays_and_search_caret_respect_the_right_gutter_at_all_sizes() {
    let mut state = fixture_state();
    state.query = "界α".repeat(100);
    for (width, height) in [(107, 61), (80, 24), (36, 12), (12, 5), (1, 1), (0, 0)] {
        for mode in 0..4 {
            state.focus = if mode == 1 {
                Focus::Manual
            } else {
                Focus::Search
            };
            state.show_help = mode == 2;
            state.editor = if mode == 3 {
                Some(ManualForm::new("A".into()))
            } else {
                None
            };
            let mut terminal = Terminal::new(TestBackend::new(width, height)).unwrap();
            draw_on(&mut terminal, &mut state, width, height);
            if width > 0 {
                for y in 0..height {
                    assert_eq!(terminal.backend().buffer()[(width - 1, y)].symbol(), " ");
                }
            }
            if mode == 0 && width >= 12 {
                let cursor = terminal.get_cursor_position().unwrap();
                assert!(
                    cursor.x < width - 2,
                    "caret must stay inside the search border"
                );
            }
        }
    }
}

#[test]
fn search_replaces_status_header_and_week_has_full_width_at_80_columns() {
    let mut state = fixture_state();
    let screen = render(&mut state, 80, 24);
    let header = screen.chars().take(240).collect::<String>();
    assert!(header.contains("Search subjects"));
    assert!(header.contains("Search by course number or title"));
    assert!(!header.contains("Status"));
    assert!(screen.contains("> Subjects"));
    for day in ["Mon", "Tue", "Wed", "Thu", "Fri"] {
        assert!(screen.contains(day), "missing {day}: {screen}");
    }
    assert!(screen.contains("08:00"));
    assert!(screen.contains("09:00"));
    press(&mut state, KeyCode::Char('l'));
    assert!(render(&mut state, 80, 24).contains("> Selected classes"));
    press(&mut state, KeyCode::Right);
    assert!(render(&mut state, 80, 24).contains("> Timetable"));
    press(&mut state, KeyCode::Char('/'));
    for c in "hello hjkl".chars() {
        press(&mut state, KeyCode::Char(c));
    }
    let screen = render(&mut state, 80, 24);
    let header = screen.chars().take(240).collect::<String>();
    assert!(header.contains("hello hjkl"));
    assert!(header.contains("> Search subjects"));
    assert!(screen.contains("0 found"));
}

#[test]
fn removed_results_shortcuts_do_not_focus_a_hidden_pane() {
    let mut state = fixture_state();
    for focus in [Focus::Subjects, Focus::Selected, Focus::Timetable] {
        state.focus = focus;
        for code in ['r', 'n', 'p'] {
            press(&mut state, KeyCode::Char(code));
            assert_eq!(state.focus, focus);
            assert!(state.actual_members.keys().is_empty());
        }
    }
    assert!(!KEYMAP.contains("results"));
}

#[test]
fn subjects_and_selected_share_upper_row_without_results() {
    let mut state = fixture_state();
    for (width, height) in [(80, 24), (120, 40)] {
        let screen = render(&mut state, width, height);
        for title in ["Subjects", "Selected classes", "Timetable"] {
            assert!(
                screen.contains(title),
                "missing {title} at {width}x{height}"
            );
        }
        assert!(!screen.contains("Manual entries"));
        assert!(!screen.contains("Results"));
        let calendar = contents(&timetable_on(&mut state, width, height));
        for day in ["Mon", "Tue", "Wed", "Thu", "Fri"] {
            assert!(calendar.contains(day));
        }
        assert!(!calendar.contains("Score:"));
        assert!(!calendar.contains("Notice 11"));
    }
    state.query = "nonexistent".into();
    state.recompute_filter();
    let mut screen = arrange(whole(80, 24));
    screen.selected = whole(40, 8);
    let scene = draw(&mut state, &screen);
    let mut terminal = Terminal::new(TestBackend::new(40, 8)).unwrap();
    terminal
        .draw(|frame| paint_panel(frame, &scene.panels[2]))
        .unwrap();
    let selected = contents(&terminal);
    assert!(selected.contains("A ") && selected.contains("B "));
    press(&mut state, KeyCode::Char('m'));
    assert!(render(&mut state, 80, 24).contains("Manual entries"));
    press(&mut state, KeyCode::Esc);
    assert!(!render(&mut state, 80, 24).contains("Manual entries"));
    assert!(!state.should_quit);
}

#[test]
fn timetable_uses_its_full_width_without_a_parent_box_or_legend() {
    let mut state = fixture_state();
    for (width, height) in [(37, 12), (80, 24), (120, 40), (170, 55)] {
        for focus in [Focus::Subjects, Focus::Timetable] {
            state.focus = focus;
            let terminal = timetable_on(&mut state, width, height);
            let buffer = terminal.backend().buffer();
            let rows = buffer
                .content
                .chunks(width as usize)
                .map(|row| row.iter().map(|cell| cell.symbol()).collect::<String>())
                .collect::<Vec<_>>();
            let active = focus == Focus::Timetable;
            assert!(rows[0].starts_with(if active { "> Timetable" } else { "Timetable" }));
            assert!(!rows[0].contains('─'), "heading must not be a box border");
            assert_eq!(
                buffer[(0, 0)].fg,
                if active { Color::Cyan } else { Color::Reset }
            );
            assert_eq!(buffer[(0, 1)].symbol(), "┌");
            assert_eq!(buffer[(width - 1, 1)].symbol(), "┐");
            assert!(rows[2].starts_with("│Time"));
            assert_eq!(rows[2].matches('│').count(), 7, "no extra parent sides");
            assert_eq!(state.timetable_viewport.height, (height - 5).min(48));
            assert_eq!(
                state.timetable_viewport.max_offset,
                48u16.saturating_sub(height - 5)
            );
            let bottom = rows
                .iter()
                .position(|row| row.starts_with('└'))
                .expect("closing rule stays visible");
            assert!(rows[bottom].ends_with('┘'));
            assert_eq!(rows[bottom].matches('┴').count(), 5);
            if height == 40 {
                assert!(
                    rows.iter().any(|row| row.starts_with("│14:00")),
                    "afternoon is visible without scrolling"
                );
            }
            assert!(
                rows[bottom + 1..].iter().all(|row| row.trim().is_empty()),
                "no legend, parent sides, or bottom border beneath the grid"
            );
        }
    }
}

#[test]
fn timetable_scrolls_and_resets_on_invalidation() {
    let mut state = fixture_state();
    // Long daily span forces a real scroll in the normal 80x24 layout.
    let choice = &mut state.solution.as_mut().unwrap().choices[0];
    choice.meetings[0].end_minute = 23 * 60;
    for member in &mut choice.members {
        member.meetings = choice.meetings.clone();
    }
    render(&mut state, 80, 24);
    assert!(state.timetable_viewport.max_offset > 0);
    press(&mut state, KeyCode::Char('t'));
    press(&mut state, KeyCode::Home);
    for key in [KeyCode::Char('j'), KeyCode::Down] {
        press(&mut state, key);
    }
    assert_eq!(state.timetable_viewport.offset, 2);
    for key in [KeyCode::Char('k'), KeyCode::Up] {
        press(&mut state, key);
    }
    assert_eq!(state.timetable_viewport.offset, 0);
    press(&mut state, KeyCode::PageDown);
    assert!(state.timetable_viewport.offset > 0);
    press(&mut state, KeyCode::End);
    let timetable_offset = state.timetable_viewport.offset;
    assert_eq!(timetable_offset, state.timetable_viewport.max_offset);
    assert_eq!(state.timetable_viewport.offset, timetable_offset);
    press(&mut state, KeyCode::Char('t'));
    assert_eq!(state.timetable_viewport.offset, 16);
    press(&mut state, KeyCode::End);
    render(&mut state, 200, 160);
    assert_eq!(
        state.timetable_viewport.offset, 0,
        "resize clamps calendar offset"
    );
    assert_eq!(state.timetable_viewport.max_offset, 0);
    render(&mut state, 80, 24);
    press(&mut state, KeyCode::End);
    state.focus = Focus::Selected;
    press(&mut state, KeyCode::Char(' '));
    assert!(state.solution.is_none());
    assert_eq!(state.timetable_viewport.offset, 0);
    assert_eq!(state.timetable_viewport.max_offset, 0);
    assert!(render(&mut state, 80, 24).contains("08:00"));
    for (width, height) in [(36, 12), (12, 5), (1, 1), (0, 0)] {
        render(&mut state, width, height);
    }
}

#[test]
fn long_unicode_search_keeps_caret_and_tail_visible_after_resize() {
    let mut state = fixture_state();
    state.focus = Focus::Search;
    state.query = format!("{}TAIL", "界α".repeat(50));
    for (width, height) in [(80, 24), (36, 12), (12, 5), (1, 1), (0, 0), (120, 40)] {
        let mut terminal = Terminal::new(TestBackend::new(width, height)).unwrap();
        draw_on(&mut terminal, &mut state, width, height);
        if width >= 36 {
            let screen = contents(&terminal);
            assert!(
                screen.contains("TAIL"),
                "search tail clipped at {width}x{height}"
            );
            let cursor = terminal.get_cursor_position().unwrap();
            assert!(cursor.x < width && cursor.y < 3, "caret outside search bar");
        }
    }
}

#[test]
fn help_shows_all_new_controls_and_close_hint_at_common_sizes() {
    let mut state = fixture_state();
    state.show_help = true;
    for (width, height) in [(80, 24), (120, 32), (170, 55)] {
        let screen = render(&mut state, width, height);
        for text in [
            "h/l or Left/Right",
            "j/k or Down/Up",
            "Scroll the timetable.",
            "First/last line in the timetable",
            "Timetable: h/l choices",
            "Press ? or Esc to close help.",
        ] {
            assert!(screen.contains(text), "missing {text} at {width}x{height}");
        }
    }
}

#[test]
fn help_takes_a_small_screen_and_is_centered_on_a_large_one() {
    let small = whole(80, 24);
    assert_eq!(place_help(small, whole(10, 10)), small);
    let window = Area {
        x: 14,
        y: 12,
        width: 91,
        height: 17,
    };
    let placed = place_help(whole(120, 32), window);
    assert_eq!(
        placed,
        Area {
            x: 14,
            y: 4,
            width: 91,
            height: 24
        }
    );
}

#[test]
fn an_area_is_divided_over_its_full_width_without_the_last_column() {
    let screen = arrange(whole(80, 24));
    assert_eq!((screen.search.x, screen.search.width), (0, 79));
    assert_eq!((screen.search.y, screen.search.height), (0, 3));
    assert_eq!((screen.footer.y, screen.footer.height), (19, 5));
    assert_eq!((screen.timetable.x, screen.timetable.width), (0, 79));
    assert_eq!(screen.subjects.y, screen.selected.y);
    assert_eq!(screen.subjects.height, screen.selected.height);
    assert_eq!(screen.subjects.width + screen.selected.width, 79);
}

#[test]
fn control_c_ends_the_program_whatever_is_shown() {
    let mut state = fixture_state();
    let interrupt = Key {
        code: KeyCode::Char('c'),
        control: true,
        alt: false,
    };
    state.show_help = true;
    assert_eq!(state.take_key(interrupt), AppAction::Quit);
    assert!(state.show_help && !state.should_quit);
    assert_eq!(state.take_key(Key::plain(KeyCode::Esc)), AppAction::Nothing);
    assert!(!state.show_help);
    state.focus = Focus::Search;
    state.take_key(Key::plain(KeyCode::Char('c')));
    assert_eq!(state.query, "c");
    assert_eq!(state.take_key(interrupt), AppAction::Quit);
    assert_eq!(state.query, "c");
}

#[test]
fn failures_are_shown_in_the_status() {
    let mut state = fixture_state();
    let error = Error::new("disk full");
    state.export_failed(&error);
    assert_eq!(state.status, "Export failed: disk full");
    state.manual_toggle_failed(&error);
    assert_eq!(state.status, "Manual toggle failed: disk full");
    assert!(state.solution.is_some() && state.export.is_none());
}

#[test]
fn a_running_search_is_announced_in_place_of_the_table() {
    let mut state = fixture_state();
    state.solution = None;
    let area = whole(80, 24);
    let panels = draw_timetable(&mut state, area);
    assert_eq!(panels[1].lines.len(), 3);
    state.optimize_running = true;
    let panels = draw_timetable(&mut state, area);
    assert_eq!(panels.len(), 2);
    assert_eq!(
        panels[1].lines[0].spans[0].content,
        "Optimizing. The timetable will appear here."
    );
    assert_eq!(state.timetable_viewport.max_offset, 0);
}

#[test]
fn a_message_beyond_the_widest_screen_is_counted_as_one_line() {
    let mut state = fixture_state();
    state
        .actual_members
        .insert("x".repeat(70_000), "y".to_string());
    draw_timetable(&mut state, whole(u16::MAX, 2));
    assert_eq!(state.timetable_viewport.max_offset, 0);
    // The words before the long one take a line, and it takes five.
    draw_timetable(&mut state, whole(16_384, 2));
    assert_eq!(state.timetable_viewport.max_offset, 5);
}

#[test]
fn every_line_of_the_table_is_as_wide_as_the_table() {
    let mut state = fixture_state();
    for width in [37, 38, 41, 80, 121] {
        let panels = draw_timetable(&mut state, whole(width, 60));
        let mut count = 0;
        for line in panels[1..].iter().flat_map(|panel| &panel.lines) {
            let spans: Vec<Span> = line
                .spans
                .iter()
                .map(|span| Span::raw(span.content.clone()))
                .collect();
            assert_eq!(Line::from(spans).width(), usize::from(width));
            count += 1;
        }
        assert_eq!(count, 52);
    }
}

/// The cells from the start of an extent to a percentage of it.
fn cells(extent: u16, percent: u32) -> u16 {
    ((u32::from(extent) * percent + 50) / 100) as u16
}

#[test]
fn windows_stand_in_the_middle_of_the_screen() {
    let screen = arrange(whole(121, 41));
    let window = |x, y, width, height| Area {
        x,
        y,
        width,
        height,
    };
    assert_eq!(screen.manual, window(6, 6, 108, 29));
    assert_eq!(screen.editor, window(13, 7, 94, 27));
    assert_eq!(screen.help, window(14, 8, 92, 24));
    for size in 0..=260 {
        for area in [whole(size, 40), whole(80, size), whole(size, size)] {
            let width = area.width.saturating_sub(1);
            let screen = arrange(area);
            for (window, (left, across), (top, down)) in [
                (screen.manual, (5, 90), (15, 70)),
                (screen.editor, (11, 78), (16, 68)),
            ] {
                let x = cells(width, left);
                let y = cells(area.height, top);
                assert_eq!((window.x, window.y), (x, y));
                assert_eq!(window.width, cells(width, left + across) - x);
                assert_eq!(window.height, cells(area.height, top + down) - y);
            }
        }
    }
}

#[test]
fn the_panes_fill_every_screen_of_eight_lines_or_more() {
    for height in 0..=200 {
        let width = 2 * height + 3;
        let screen = arrange(Area {
            x: 2,
            y: 1,
            width: width + 1,
            height,
        });
        for pane in [screen.search, screen.footer, screen.timetable] {
            assert_eq!((pane.x, pane.width), (2, width));
            assert!(pane.y >= 1 && pane.y + pane.height <= 1 + height);
        }
        if height >= 8 {
            let body = height - 8;
            let lists = cells(body, 40);
            assert_eq!((screen.search.y, screen.search.height), (1, 3));
            assert_eq!((screen.subjects.y, screen.subjects.height), (4, lists));
            assert_eq!((screen.timetable.y, screen.timetable.height), (4 + lists, body - lists));
            assert_eq!((screen.footer.y, screen.footer.height), (height - 4, 5));
        }
        let half = cells(width, 50);
        assert_eq!((screen.subjects.x, screen.subjects.width), (2, half));
        assert_eq!((screen.selected.x, screen.selected.width), (2 + half, width - half));
    }
}

#[test]
fn windows_keep_their_place_on_the_largest_screens() {
    for (x, width) in [(0, u16::MAX), (60_000, 60_000), (65_000, 536), (u16::MAX, 9)] {
        let area = Area {
            x,
            y: x,
            width,
            height: width,
        };
        let across = (width - 1).min(u16::MAX - x);
        let down = width.min(u16::MAX - x);
        let manual = arrange(area).manual;
        assert_eq!((manual.x, manual.y), (x + cells(across, 5), x + cells(down, 15)));
        assert_eq!(manual.width, cells(across, 95) - cells(across, 5));
        assert_eq!(manual.height, cells(down, 85) - cells(down, 15));
    }
}

#[test]
fn a_long_message_scrolls_where_the_timetable_cannot_be_shown() {
    let mut state = fixture_state();
    state.solution.as_mut().unwrap().status = SolveStatus::Infeasible;
    let panels = draw_timetable(&mut state, whole(10, 3));
    let text = &panels[1].lines[0].spans[0].content;
    assert_eq!(text, "No feasible timetable: Infeasible.");
    assert!(panels[1].wrapped);
    assert_eq!(state.timetable_viewport.height, 2);
    assert!(state.timetable_viewport.max_offset >= 2);
}
