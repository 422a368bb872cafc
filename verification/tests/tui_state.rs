use hydrant_optimizer::date::Date;
use hydrant_optimizer::error::Error;
use hydrant_optimizer::model::{
    Course, Dataset, ManualStore, Meeting, Requirement, Score, SectionOption, Solution,
    SolveStatus, Source, TermCalendar, TimeChoice,
};
use hydrant_optimizer::order::{OrderedMap, OrderedSet};
use hydrant_optimizer::tui::{AppAction, AppState, EditorField, Focus, Key, KeyCode};

fn key(code: KeyCode) -> Key {
    Key::plain(code)
}

fn ctrl(c: char) -> Key {
    Key {
        code: KeyCode::Char(c),
        control: true,
        alt: false,
    }
}

/// Saves the editor as the interface does once the file is written.
fn save_current_manual(state: &mut AppState) -> Result<(), Error> {
    match state.plan_manual_save() {
        Ok(Some((manual, dataset))) => {
            state.commit_manual_save(manual, dataset);
            Ok(())
        }
        Ok(None) => Ok(()),
        Err(error) => {
            state.manual_not_saved(&error);
            Err(error)
        }
    }
}

/// Toggles the current entry as the interface does once the file is written.
fn toggle_current_manual_enabled(state: &mut AppState) -> Result<(), Error> {
    match state.plan_manual_toggle()? {
        Some((manual, dataset)) => state.commit_manual_toggle(manual, dataset),
        None => state.no_manual_selected(),
    }
    Ok(())
}

fn selects(state: &AppState, id: &str) -> bool {
    state.selected.contains(&id.to_string())
}

fn member(state: &AppState, requirement: &str) -> Option<String> {
    state.actual_members.get(&requirement.to_string()).cloned()
}

fn meeting(day: u8, start: u16, end: u16) -> Meeting {
    Meeting {
        weekday: day,
        start_minute: start,
        end_minute: end,
        start_date: None,
        end_date: None,
    }
}

fn section(id: &str, label: &str, meetings: Vec<Meeting>) -> SectionOption {
    SectionOption {
        id: id.to_string(),
        label: label.to_string(),
        room: format!("Room {label}"),
        source: Source::Api,
        meetings,
        incompatible_with: OrderedSet::new(),
        unsupported_reason: None,
    }
}

fn dataset() -> Dataset {
    let mut courses = OrderedMap::new();
    courses.insert(
        "A".to_string(),
        Course {
            id: "A".to_string(),
            title: "Algorithms".to_string(),
            requirements: vec![Requirement {
                id: "A/lecture".to_string(),
                kind: "lecture".to_string(),
                options: vec![section("A-L1", "L1", vec![meeting(0, 9 * 60, 10 * 60)])],
                has_unknown_times: false,
            }],
            notices: Vec::new(),
        },
    );
    courses.insert(
        "B".to_string(),
        Course {
            id: "B".to_string(),
            title: "Molecular Biology".to_string(),
            requirements: vec![Requirement {
                id: "B/lecture".to_string(),
                kind: "lecture".to_string(),
                options: vec![section("B-L1", "L1", vec![meeting(1, 11 * 60, 12 * 60)])],
                has_unknown_times: false,
            }],
            notices: Vec::new(),
        },
    );
    Dataset {
        term_id: "test-term".to_string(),
        last_updated: "now".to_string(),
        calendar: Some(TermCalendar {
            start: Date::from_ymd(2026, 9, 1).unwrap(),
            end: Date::from_ymd(2026, 12, 15).unwrap(),
            holidays: OrderedSet::new(),
            alternate_days: OrderedMap::new(),
        }),
        courses,
        notices: Vec::new(),
    }
}

fn state(initial: Vec<String>) -> AppState {
    AppState::new(
        dataset(),
        ManualStore::default(),
        "data".to_string(),
        "data/schedule.ics".to_string(),
        initial,
    )
    .unwrap()
}

#[test]
fn subject_search_selection_persists_across_filters() {
    let mut state = state(vec!["A".to_string()]);
    assert!(selects(&state, "A"));

    state.handle_key(key(KeyCode::Char('/')));
    assert_eq!(state.focus, Focus::Search);
    state.handle_key(key(KeyCode::Char('b')));
    state.handle_key(key(KeyCode::Char('i')));
    assert_eq!(state.filtered, vec!["B".to_string()]);
    assert!(selects(&state, "A"));

    state.handle_key(key(KeyCode::Enter));
    assert_eq!(state.focus, Focus::Subjects);
    state.handle_key(key(KeyCode::Char(' ')));
    assert!(selects(&state, "A"));
    assert!(selects(&state, "B"));

    state.query.clear();
    state.recompute_filter();
    assert_eq!(state.filtered, vec!["A".to_string(), "B".to_string()]);
    assert!(selects(&state, "A"));
    assert!(selects(&state, "B"));
}

#[test]
fn search_accepts_spaces_for_multiword_titles_and_ctrl_u_clears() {
    let mut state = state(Vec::new());

    state.handle_key(key(KeyCode::Char('/')));
    for c in "molecular".chars() {
        state.handle_key(key(KeyCode::Char(c)));
    }
    state.handle_key(key(KeyCode::Char(' ')));
    for c in "biology".chars() {
        state.handle_key(key(KeyCode::Char(c)));
    }

    assert_eq!(state.query, "molecular biology");
    assert_eq!(state.filtered, vec!["B".to_string()]);
    assert!(state.selected.items().is_empty());

    state.handle_key(ctrl('u'));
    assert!(state.query.is_empty());
    assert_eq!(state.filtered, vec!["A".to_string(), "B".to_string()]);
}

fn add_manual_entry(state: &mut AppState, course_id: &str, kind: &str) {
    state.open_add_manual();
    let form = state.editor.as_mut().unwrap();
    form.course_id = course_id.to_string();
    form.kind = kind.to_string();
    form.label = "Study group".to_string();
    form.meetings = "Mon 09:00-10:00".to_string();
    form.room = "Room Z".to_string();

    save_current_manual(state).unwrap();
}

#[test]
fn manual_editor_saves_atomic_meeting_bundle_with_dates_and_toggle_invalidates() {
    let mut state = state(Vec::new());
    state.open_add_manual();
    let form = state.editor.as_mut().unwrap();
    form.course_id = "A".to_string();
    form.kind = "recitation".to_string();
    form.label = "Study group".to_string();
    form.meetings = "Mon 09:00-10:00;Wed 09:00-10:00".to_string();
    form.room = "Room Z".to_string();
    form.start_date = "2026-09-02".to_string();
    form.end_date = "2026-12-09".to_string();

    save_current_manual(&mut state).unwrap();
    assert!(state.editor.is_none());
    assert_eq!(state.manual.entries.len(), 1);
    let entry = &state.manual.entries[0];
    assert_eq!(entry.course_id, "A");
    assert_eq!(entry.kind, "recitation");
    assert_eq!(entry.option.meetings.len(), 2);
    assert_eq!(entry.option.room, "Room Z");
    assert_eq!(
        entry.option.meetings[0].start_date.unwrap().text(),
        "2026-09-02"
    );
    assert_eq!(
        entry.option.meetings[1].end_date.unwrap().text(),
        "2026-12-09"
    );
    assert!(state.solution.is_none());

    let before = state.generation;
    state.focus = Focus::Manual;
    state.install_solution(Solution {
        status: SolveStatus::OptimalKnown,
        choices: Vec::new(),
        score: Some(Score {
            occupied_days: 0,
            gap_minutes: 0,
        }),
        unresolved: Vec::new(),
        alternatives: Vec::new(),
        alternatives_truncated: false,
    });
    toggle_current_manual_enabled(&mut state).unwrap();
    assert!(!state.manual.entries[0].enabled);
    assert!(state.solution.is_none());
    assert!(state.generation > before);
}

#[test]
fn editing_disabled_manual_entry_preserves_enabled_state() {
    let mut state = state(Vec::new());
    add_manual_entry(&mut state, "A", "recitation");

    state.focus = Focus::Manual;
    toggle_current_manual_enabled(&mut state).unwrap();
    assert!(!state.manual.entries[0].enabled);

    state.open_edit_current_manual();
    let form = state.editor.as_mut().unwrap();
    form.enabled = true;
    form.label = "Renamed study group".to_string();

    save_current_manual(&mut state).unwrap();

    assert_eq!(state.manual.entries.len(), 1);
    assert_eq!(state.manual.entries[0].option.label, "Renamed study group");
    assert!(!state.manual.entries[0].enabled);
}

#[test]
fn editing_manual_entry_cannot_move_course_or_kind_scope() {
    let mut state = state(Vec::new());
    add_manual_entry(&mut state, "A", "recitation");

    state.focus = Focus::Manual;
    state.open_edit_current_manual();
    state.editor.as_mut().unwrap().course_id = "B".to_string();
    let err = save_current_manual(&mut state).unwrap_err().message;
    assert!(err.contains("cannot move"), "unexpected error: {err}");
    assert_eq!(state.manual.entries[0].course_id, "A");
    assert_eq!(state.manual.entries[0].kind, "recitation");

    state.editor.as_mut().unwrap().course_id = "A".to_string();
    state.editor.as_mut().unwrap().kind = "lab".to_string();
    let err = save_current_manual(&mut state).unwrap_err().message;
    assert!(err.contains("cannot move"), "unexpected error: {err}");
    assert_eq!(state.manual.entries.len(), 1);
    assert_eq!(state.manual.entries[0].kind, "recitation");
}

#[test]
fn same_time_member_switching_updates_mapping_and_selection_invalidates_result() {
    let mut state = state(Vec::new());
    let meetings = vec![meeting(0, 9 * 60, 10 * 60)];
    state.install_solution(Solution {
        status: SolveStatus::OptimalKnown,
        choices: vec![TimeChoice {
            id: "A-L1".to_string(),
            requirement_id: "A/lecture".to_string(),
            meetings: meetings.clone(),
            members: vec![
                section("A-L1", "L1", meetings.clone()),
                section("A-L2", "L2", meetings),
            ],
        }],
        score: Some(Score {
            occupied_days: 1,
            gap_minutes: 0,
        }),
        unresolved: vec!["notice".to_string()],
        alternatives: Vec::new(),
        alternatives_truncated: false,
    });

    state.focus = Focus::Timetable;
    state.handle_key(key(KeyCode::Enter));
    state.handle_key(key(KeyCode::Enter));
    state.handle_key(key(KeyCode::Right));
    assert_eq!(
        member(&state, "A/lecture").as_deref(),
        Some("A-L2")
    );
    state.handle_key(key(KeyCode::Left));
    assert_eq!(
        member(&state, "A/lecture").as_deref(),
        Some("A-L1")
    );

    state.focus = Focus::Subjects;
    state.handle_key(key(KeyCode::Enter));
    assert!(state.solution.is_none());
    assert!(state.actual_members.keys().is_empty());
}

#[test]
fn editor_key_handling_tabs_fields_accepts_text_and_requests_save() {
    let mut state = state(Vec::new());
    state.open_add_manual();
    assert_eq!(state.editor.as_ref().unwrap().field, EditorField::Course);

    state.handle_key(key(KeyCode::Tab));
    assert_eq!(state.editor.as_ref().unwrap().field, EditorField::Kind);
    state.editor.as_mut().unwrap().kind.clear();
    state.handle_key(key(KeyCode::Char('l')));
    state.handle_key(key(KeyCode::Char('a')));
    state.handle_key(key(KeyCode::Char('b')));
    assert_eq!(state.editor.as_ref().unwrap().kind, "lab");

    assert_eq!(state.handle_key(ctrl('s')), AppAction::SaveManual);
}
