use hydrant_optimizer::adapter;
use hydrant_optimizer::app;
use hydrant_optimizer::error::Error;
use hydrant_optimizer::model::{Dataset, ManualStore};
use hydrant_optimizer::order::{OrderedMap, OrderedSet};
use hydrant_optimizer::session::{
    check_session_size, check_session_text, SavedSelection, SelectionSession, Sessions,
    MAX_SESSION_BYTES,
};
use hydrant_optimizer::tui::state::Restore;
use hydrant_optimizer::tui::AppState;

const CATALOG: &str = r#"{
  "lastUpdated":"2026-09-08 22:01",
  "termInfo":{"urlName":"f26","startDate":"2026-10-26","endDate":"2026-11-09","h1EndDate":"2026-10-30","h2StartDate":"2026-11-02","holidayDates":["2026-11-02"],"mondayScheduleDate":"2026-11-03"},
  "classes":{
    "A":{"number":"A","name":"Algorithms","half":false,"sectionKinds":["lecture","recitation"],"lectureSections":[[[[6,2]],"Room A"],[[[6,2]],"Room B"]],"recitationSections":[]},
    "B":{"number":"B","name":"Biology","half":false,"sectionKinds":["lecture"],"lectureSections":[[[[8,2]],"Room C"]]},
    "C":{"number":"C","name":"Conflict","half":false,"sectionKinds":["lecture"],"lectureSections":[[[[6,2]],"Room D"]]},
    "E":{"number":"E","name":"Empty","half":false,"sectionKinds":["lecture"],"lectureSections":[]},
    "P":{"number":"P","name":"Partial","half":1,"sectionKinds":["lecture"],"lectureSections":[[[[40,2]],"Room P"]]}
  }
}"#;

const TERM: &str = r#"{"semester":{"urlName":"f26","startDate":"2026-10-26","endDate":"2026-11-09","h1EndDate":"2026-10-30","h2StartDate":"2026-11-02","holidayDates":["2026-11-02"],"mondayScheduleDate":"2026-11-03"}}"#;

const NOW: &str = "2026-09-09T00:00:00Z";

/// A session file: what it stands for, and its bytes.
struct Disk {
    file: Option<(Sessions, Vec<u8>)>,
    foreign: Option<Vec<u8>>,
}

impl Disk {
    fn new() -> Disk {
        Disk {
            file: None,
            foreign: None,
        }
    }

    fn bytes(&self) -> Option<Vec<u8>> {
        match &self.foreign {
            Some(bytes) => Some(bytes.clone()),
            None => self.file.as_ref().map(|(_, bytes)| bytes.clone()),
        }
    }

    fn write(&mut self, sessions: &Sessions) -> Vec<u8> {
        let bytes = format!("{sessions:?}").into_bytes();
        self.file = Some((sessions.clone(), bytes.clone()));
        bytes
    }

    fn open(&self) -> Result<SelectionSession, Error> {
        SelectionSession::restore(self.file.clone())
    }
}

fn save(
    session: &mut SelectionSession,
    disk: &mut Disk,
    term: &str,
    selected: &OrderedSet<String>,
) -> Result<(), Error> {
    if let Some(sessions) = session.plan_save(term, selected, &disk.bytes(), NOW.to_string())? {
        let bytes = disk.write(&sessions);
        session.commit(sessions, bytes);
    }
    Ok(())
}

fn ids(values: &[&str]) -> OrderedSet<String> {
    OrderedSet::from_vec(values.iter().map(|s| (*s).to_owned()).collect())
}

fn dataset() -> Dataset {
    adapter::parse_catalog(CATALOG, TERM).unwrap()
}

/// Stores the selection of a state where it is due.
fn persist(state: &mut AppState, disk: &mut Disk) {
    match state.plan_selection_save(&disk.bytes(), NOW.to_string()) {
        Ok(Some(sessions)) => {
            let bytes = disk.write(&sessions);
            state.selection_stored(Some((sessions, bytes)));
        }
        Ok(None) => state.selection_stored(None),
        Err(error) => state.selection_not_stored(&error),
    }
}

fn settle(state: &mut AppState, disk: &mut Disk) {
    if state.save_due {
        persist(state, disk);
    }
}

fn state(disk: &mut Disk, initial: &[&str], ephemeral: bool) -> AppState {
    let restore = if ephemeral {
        Restore::Ephemeral
    } else {
        match disk.open() {
            Ok(session) => Restore::Opened(session),
            Err(error) => Restore::Failed(error),
        }
    };
    restored(disk, initial, restore)
}

fn restored(disk: &mut Disk, initial: &[&str], restore: Restore) -> AppState {
    let mut state = AppState::new_with_session(
        dataset(),
        ManualStore::default(),
        "data".to_string(),
        "data/schedule.ics".to_string(),
        initial.iter().map(|s| (*s).to_owned()).collect(),
        restore,
    )
    .unwrap();
    settle(&mut state, disk);
    state
}

#[test]
fn round_trip_empty_selection_terms_and_noop_save() {
    let mut disk = Disk::new();
    let mut session = disk.open().unwrap();
    assert!(session.selected("f26").is_none());
    save(&mut session, &mut disk, "f26", &ids(&["6.1200", "1.27"])).unwrap();
    let bytes = disk.bytes();
    save(&mut session, &mut disk, "f26", &ids(&["1.27", "6.1200"])).unwrap();
    assert_eq!(bytes, disk.bytes());
    save(&mut session, &mut disk, "s27", &ids(&["18.01"])).unwrap();
    save(&mut session, &mut disk, "f26", &ids(&[])).unwrap();
    drop(session);
    let session = disk.open().unwrap();
    assert_eq!(session.selected("f26"), Some(&ids(&[])));
    assert_eq!(session.selected("s27"), Some(&ids(&["18.01"])));
}

/// Opens a session file with the given text.
fn open_text(text: &str) -> Result<SelectionSession, Error> {
    check_session_text(text, "data/sessions.json")?;
    let value: serde_json::Value = serde_json::from_str(text).unwrap();
    let fields = value.as_object().unwrap();
    if let Some(field) = fields.keys().find(|key| *key != "version" && *key != "terms") {
        return Err(Error::new(&format!("unknown field `{field}`")));
    }
    let mut terms = OrderedMap::new();
    for (term, saved) in fields["terms"].as_object().unwrap() {
        let selected = saved["selected"].as_array().unwrap();
        let selected: Vec<&str> = selected.iter().map(|id| id.as_str().unwrap()).collect();
        terms.insert(
            term.clone(),
            SavedSelection {
                selected: ids(&selected),
                saved_at: saved["saved_at"].as_str().unwrap().to_string(),
            },
        );
    }
    let sessions = Sessions { version: 1, terms };
    SelectionSession::restore(Some((sessions, text.as_bytes().to_vec())))
}

#[test]
fn invalid_or_future_state_is_preserved_and_ui_stays_usable() {
    for text in [
        "not json",
        r#"{"version":999,"future_data":"preserve me"}"#,
        r#"{"version":1,"terms":{},"unknown_field":true}"#,
        r#"{"version":1,"terms":{"f26":{"selected":["A"],"saved_at":"bad"}}}"#,
        r#"{"version":1,"terms":{"f26":{"selected":[""],"saved_at":"2026-09-09T00:00:00Z"}}}"#,
    ] {
        let mut disk = Disk::new();
        disk.foreign = Some(text.as_bytes().to_vec());
        let restore = Restore::Failed(open_text(text).unwrap_err());
        let mut app = restored(&mut disk, &[], restore);
        assert!(
            app.selection_notice
                .as_ref()
                .unwrap()
                .contains("Selections NOT saved")
        );
        app.query = "A".into();
        app.recompute_filter();
        app.toggle_current_subject();
        settle(&mut app, &mut disk);
        assert!(!app.selected.items().is_empty());
        assert_eq!(disk.bytes(), Some(text.as_bytes().to_vec()));
    }
}

#[test]
fn the_text_of_a_session_file_is_checked_before_its_record() {
    let check = |text: &str| check_session_text(text, "data/sessions.json");
    assert_eq!(
        check("not json").unwrap_err().message,
        "parse data/sessions.json (file preserved): expected ident at line 1 column 2"
    );
    for text in [
        r#"{"version":999,"future_data":"preserve me"}"#,
        r#"{"version":0,"terms":{}}"#,
        r#"{"version":-1,"terms":{}}"#,
        r#"{"version":1.0,"terms":{}}"#,
        r#"{"version":"1","terms":{}}"#,
        r#"{"terms":{}}"#,
        r#"[{"version":1}]"#,
        "null",
    ] {
        assert_eq!(
            check(text).unwrap_err().message,
            "unsupported sessions.json version (file preserved)",
            "{text}"
        );
    }
    check(r#"{"version":1,"terms":{},"unknown_field":true}"#).unwrap();
    let text = r#"{"version":1,"terms":{"f26":{"selected":["B","A"],"saved_at":"2026-09-09T00:00:00Z"},"s27":{"selected":[],"saved_at":"2026-09-09T00:00:00Z"}}}"#;
    let session = open_text(text).unwrap();
    assert_eq!(session.selected("f26"), Some(&ids(&["A", "B"])));
    assert_eq!(session.selected("s27"), Some(&ids(&[])));
    assert_eq!(session.selected("f30"), None);
}

#[test]
fn external_edit_is_not_overwritten() {
    let mut disk = Disk::new();
    let mut session = disk.open().unwrap();
    save(&mut session, &mut disk, "f26", &ids(&["A"])).unwrap();
    disk.foreign = Some(b"external edit".to_vec());
    let error = save(&mut session, &mut disk, "f26", &ids(&["B"])).unwrap_err();
    assert!(error.message.contains("changed outside"));
    // Returning to the old in-memory baseline must not falsely clear the warning.
    assert!(save(&mut session, &mut disk, "f26", &ids(&["A"])).is_err());
    assert_eq!(disk.bytes(), Some(b"external edit".to_vec()));
    assert_eq!(session.selected("f26"), Some(&ids(&["A"])));
}

#[test]
fn explicit_selection_replaces_saved_and_ephemeral_never_opens_storage() {
    let mut disk = Disk::new();
    drop(state(&mut disk, &["A"], false));
    drop(state(&mut disk, &["B"], false));
    let bytes = disk.bytes();
    let mut app = state(&mut disk, &["A"], true);
    assert_eq!(app.selected, ids(&["A"]));
    app.toggle_current_subject();
    persist(&mut app, &mut disk);
    drop(app);
    assert_eq!(disk.bytes(), bytes);
    assert_eq!(state(&mut disk, &[], false).selected, ids(&["B"]));

    let mut empty = Disk::new();
    drop(state(&mut empty, &[], true));
    assert_eq!(empty.bytes(), None);
}

#[test]
fn unavailable_saved_ids_survive_edits_and_other_terms_do_not_leak() {
    let mut disk = Disk::new();
    let term = state(&mut disk, &[], true).dataset.term_id.clone();
    let mut session = disk.open().unwrap();
    save(&mut session, &mut disk, &term, &ids(&["A", "GONE"])).unwrap();
    save(&mut session, &mut disk, "another-term", &ids(&["B"])).unwrap();
    drop(session);
    let mut app = state(&mut disk, &[], false);
    assert_eq!(app.selected, ids(&["A"]));
    assert!(app.selection_notice.as_ref().unwrap().contains("GONE"));
    app.query = "B".into();
    app.recompute_filter();
    app.toggle_current_subject();
    settle(&mut app, &mut disk);
    drop(app);
    let session = disk.open().unwrap();
    assert_eq!(session.selected(&term), Some(&ids(&["A", "B", "GONE"])));
    assert_eq!(session.selected("another-term"), Some(&ids(&["B"])));
}

#[test]
fn invalid_explicit_seed_does_not_destroy_previous_selection() {
    let mut disk = Disk::new();
    let app = state(&mut disk, &["A"], false);
    let base = app.base().clone();
    drop(app);
    let bytes = disk.bytes();
    assert!(
        AppState::new_with_session(
            base,
            ManualStore::default(),
            "data".to_string(),
            "data/schedule.ics".to_string(),
            vec!["does-not-exist".into()],
            Restore::Opened(disk.open().unwrap()),
        )
        .is_err()
    );
    assert_eq!(disk.bytes(), bytes);
}

#[test]
fn selection_is_saved_before_solver_and_errors_survive_solver_install() {
    let mut disk = Disk::new();
    let mut app = state(&mut disk, &[], false);
    app.query = "A".into();
    app.recompute_filter();
    app.toggle_current_subject();
    assert!(app.solution.is_none());
    settle(&mut app, &mut disk);
    let session = disk.open().unwrap();
    assert_eq!(session.selected(&app.dataset.term_id), Some(&ids(&["A"])));

    disk.foreign = Some(b"external edit".to_vec());
    app.toggle_current_subject();
    settle(&mut app, &mut disk);
    let warning = app.selection_notice.clone();
    assert!(warning.as_ref().unwrap().contains("Selections NOT saved"));
    let solution = app::optimize(&app.dataset, &[], None).unwrap();
    app.install_solution(solution);
    assert_eq!(warning, app.selection_notice);
}

#[test]
fn write_failure_keeps_old_state_and_can_be_retried() {
    let mut disk = Disk::new();
    let mut session = disk.open().unwrap();
    save(&mut session, &mut disk, "f26", &ids(&["A"])).unwrap();
    let bytes = disk.bytes();
    // A plan whose write is refused is never committed.
    let plan = session
        .plan_save("f26", &ids(&["B"]), &disk.bytes(), NOW.to_string())
        .unwrap();
    assert!(plan.is_some());
    drop(plan);
    assert_eq!(session.selected("f26"), Some(&ids(&["A"])));
    assert_eq!(disk.bytes(), bytes);
    save(&mut session, &mut disk, "f26", &ids(&["B"])).unwrap();
    assert_eq!(session.selected("f26"), Some(&ids(&["B"])));
}

#[test]
fn what_was_said_of_a_missing_session_remains() {
    let mut disk = Disk::new();
    let failure = Error::new("another TUI may be using this data directory");
    let mut app = restored(&mut disk, &["A"], Restore::Failed(failure));
    let notice = app.selection_notice.clone();
    assert!(notice.as_ref().unwrap().contains("Selections NOT saved"));
    app.toggle_current_subject();
    persist(&mut app, &mut disk);
    assert_eq!(app.selection_notice, notice);
    assert!(!app.selection_saved && !app.acknowledgement_due(false));
    app.selection_not_stored(&Error::new("disk full"));
    assert_eq!(app.selection_notice, notice);
    let mut ephemeral = state(&mut disk, &["A"], true);
    persist(&mut ephemeral, &mut disk);
    assert_eq!(
        ephemeral.selection_notice.as_deref(),
        Some("Ephemeral selections (--no-restore): not saved")
    );
    assert!(!ephemeral.selection_saved);
    assert_eq!(disk.bytes(), None);
}

#[test]
fn a_toggled_subject_is_stored_for_its_term_only() {
    let mut disk = Disk::new();
    let mut session = disk.open().unwrap();
    save(&mut session, &mut disk, "s27", &ids(&["Z"])).unwrap();
    drop(session);
    let mut app = state(&mut disk, &["A"], false);
    let term = app.dataset.term_id.clone();
    app.toggle_current_subject();
    assert!(app.save_due && app.solution.is_none());
    settle(&mut app, &mut disk);
    assert!(app.selection_saved);
    assert!(app.acknowledgement_due(false) && !app.acknowledgement_due(true));
    let reopened = disk.open().unwrap();
    assert_eq!(reopened.selected(&term), Some(&app.selected));
    assert_eq!(reopened.selected("s27"), Some(&ids(&["Z"])));
    assert_eq!(reopened.selected("f30"), None);
}

#[test]
fn session_files_are_limited_in_size() {
    assert!(check_session_size(MAX_SESSION_BYTES).is_ok());
    let error = check_session_size(MAX_SESSION_BYTES + 1).unwrap_err();
    assert_eq!(error.message, "session file exceeds size limit");
}
