use hydrant_optimizer::adapter;
use hydrant_optimizer::app::{self, ExportAttempt};
use hydrant_optimizer::cache;
use hydrant_optimizer::calendar;
use hydrant_optimizer::cli;
use hydrant_optimizer::color::component_label;
use hydrant_optimizer::date::{Date, Instant, LocalTime};
use hydrant_optimizer::model::{
    natural_meetings_overlap, ChosenSection, Dataset, ManualStore, Meeting, SectionOption, Source,
    TermCalendar,
};
use hydrant_optimizer::order::{OrderedMap, OrderedSet};
use hydrant_optimizer::storage;
use hydrant_optimizer::text;
use hydrant_optimizer::tui::state::WorkerEvent;
use hydrant_optimizer::tui::view::{arrange, draw};
use hydrant_optimizer::tui::week::{fit_text, pad_cell};
use hydrant_optimizer::tui::{
    meetings_line, AppState, Area, EditorField, Focus, Key, KeyCode, ManualForm,
};
use sha2::Digest;

const CATALOG: &str = r#"{
  "lastUpdated":"2026-09-08 22:01",
  "termInfo":{"urlName":"f26","startDate":"2026-10-26","endDate":"2026-11-09","h1EndDate":"2026-10-30","h2StartDate":"2026-11-02","holidayDates":["2026-11-02"],"mondayScheduleDate":"2026-11-03"},
  "classes":{
    "A":{"number":"A","name":"Algorithms","half":false,"sectionKinds":["lecture","recitation"],"lectureSections":[[[[6,2]],"Room A"],[[[6,2]],"Room B"]],"recitationSections":[]},
    "B":{"number":"B","name":"Biology","half":false,"sectionKinds":["lecture"],"lectureSections":[[[[8,2]],"Room C"]]},
    "C":{"number":"C","name":"Conflict","half":false,"sectionKinds":["lecture"],"lectureSections":[[[[6,2]],"Room D"]]},
    "E":{"number":"E","name":"Empty","half":false,"sectionKinds":["lecture"],"lectureSections":[]},
    "P":{"number":"P","name":"Partial","half":1,"sectionKinds":["lecture"],"lectureSections":[[[[40,2]],"Room P"]]}
  }
}"#;

const TERM: &str = r#"{"semester":{"urlName":"f26","startDate":"2026-10-26","endDate":"2026-11-09","h1EndDate":"2026-10-30","h2StartDate":"2026-11-02","holidayDates":["2026-11-02"],"mondayScheduleDate":"2026-11-03"}}"#;

fn dataset() -> Dataset {
    adapter::parse_catalog(CATALOG, TERM).unwrap()
}

fn meeting(weekday: u8, start_minute: u16, end_minute: u16) -> Meeting {
    Meeting {
        weekday,
        start_minute,
        end_minute,
        start_date: None,
        end_date: None,
    }
}

fn state(selected: &[&str]) -> AppState {
    AppState::new(
        dataset(),
        ManualStore::default(),
        "data".to_string(),
        "data/schedule.ics".to_string(),
        selected.iter().map(|id| id.to_string()).collect(),
    )
    .unwrap()
}

#[test]
fn dates_are_numbered_from_the_first_of_january_of_year_one() {
    let date = Date::from_ymd(2026, 10, 26).unwrap();
    assert_eq!(date.days(), 739_915);
    assert_eq!(Date::from_ymd(1, 1, 1).unwrap().days(), 1);
    assert_eq!(Date::from_ymd(2000, 2, 29).unwrap().days(), 730_179);
    assert_eq!(date.civil(), (2026, 10, 26));
    assert_eq!(date.text(), "2026-10-26");
    assert_eq!(date.weekday(), 0);
    assert_eq!(date.next().unwrap().text(), "2026-10-27");
    assert_eq!(Date::from_ymd(2026, 2, 29), None);
    assert_eq!(Date::from_ymd(2026, 13, 1), None);
    assert_eq!(Date::parse("2026-10-26").unwrap(), date);
    assert_eq!(Date::parse_default("2026-10-26").unwrap(), date);
    assert!(Date::parse("2026-10").is_err());
    assert!(Date::parse_default("26 October").is_err());
    assert_eq!(Date::from_ymd(-5, 3, 1).unwrap().text(), "-0005-03-01");
}

#[test]
fn instants_are_seconds_and_nanoseconds_of_unix_time() {
    let at = |seconds, nanos| Instant::from_unix(seconds, nanos).unwrap();
    assert_eq!(Instant::parse("2026-09-08T22:01:00Z").unwrap(), at(1_788_904_860, 0));
    assert_eq!(
        Instant::parse("2026-09-08T18:01:00.5-04:00").unwrap(),
        at(1_788_904_860, 500_000_000)
    );
    assert_eq!(
        Instant::parse("2026-09-08T22:01:60.25Z").unwrap(),
        at(1_788_904_919, 1_250_000_000)
    );
    assert!(Instant::parse("2026-09-08 22:01").is_err());
    assert!(Instant::from_unix(1_788_904_860, 1_000_000_000).is_none());
    assert!(Instant::from_unix(1_788_904_919, 2_000_000_000).is_none());
    assert!(Instant::from_unix(-1, 1_999_999_999).is_some());
    assert!(Instant::from_unix(-8_334_601_228_800, 0).is_some());
    assert!(Instant::from_unix(-8_334_601_228_801, 0).is_none());
    assert!(Instant::from_unix(8_210_266_876_799, 0).is_some());
    assert!(Instant::from_unix(8_210_266_876_800, 0).is_none());
}

#[test]
fn leap_seconds_count_towards_an_age_within_the_day() {
    let age = |from: &str, now: &str| {
        Instant::parse(from)
            .unwrap()
            .age(&Instant::parse(now).unwrap())
    };
    for (from, now, expected) in [
        ("2026-09-08T10:00:60Z", "2026-09-08T11:00:59.5Z", (0, 1)),
        ("2026-09-08T10:00:59Z", "2026-09-08T11:00:58.5Z", (0, 0)),
        ("2026-09-08T11:00:59.5Z", "2026-09-08T10:00:60Z", (0, -1)),
        ("2026-09-08T10:00:60Z", "2026-09-09T10:00:59Z", (0, 23)),
        ("2026-09-08T10:00:60Z", "2026-09-09T10:00:60Z", (1, 24)),
        ("2026-09-08T10:00:60Z", "2026-09-09T10:01:00Z", (1, 24)),
        ("2026-09-08T10:00:00Z", "2026-09-05T09:59:59Z", (-3, -72)),
        ("2026-09-08T10:00:00+02:00", "2026-09-10T07:59:59Z", (1, 47)),
    ] {
        assert_eq!(age(from, now), expected, "{from} to {now}");
    }
    let day = 86_400i64;
    for from in [(0, 0), (59, 1_400_000_000), (day - 1, 1_000_000_000), (-1, 7)] {
        for now in [(day, 3), (59, 1_900_000_000), (3_659, 1_000_000_000), (-9 * day - 1, 5)] {
            let time = |(seconds, nanos)| chrono::DateTime::from_timestamp(seconds, nanos).unwrap();
            let expected = time(now).signed_duration_since(time(from));
            let instant = |(seconds, nanos)| Instant::from_unix(seconds, nanos).unwrap();
            assert_eq!(
                instant(from).age(&instant(now)),
                (expected.num_days(), expected.num_hours())
            );
        }
    }
}

#[test]
fn stamps_are_written_in_utc() {
    let date = |year, month, day| Date::from_ymd(year, month, day).unwrap();
    let stamp = |date: Date, second| calendar::write_utc(LocalTime::Single(date, second)).unwrap();
    assert_eq!(stamp(date(2026, 10, 26), 46_805), "20261026T130005Z");
    assert_eq!(stamp(date(7, 1, 2), 0), "00070102T000000Z");
    assert_eq!(stamp(date(12_026, 12, 31), 86_399), "+120261231T235959Z");
    assert_eq!(stamp(date(-5, 3, 1), 60), "-00050301T000100Z");
    assert!(calendar::write_utc(LocalTime::Ambiguous).is_err());
    assert!(calendar::write_utc(LocalTime::Missing).is_err());
}

#[test]
fn characters_are_classified_as_the_standard_library_does() {
    for n in 0..=0x10FFFFu32 {
        if let Some(c) = char::from_u32(n) {
            assert_eq!(text::is_whitespace(c), c.is_whitespace(), "{n:x}");
            assert_eq!(text::is_control(c), c.is_control(), "{n:x}");
            assert_eq!(text::is_alphanumeric(c), c.is_ascii_alphanumeric(), "{n:x}");
            assert_eq!(text::to_lower(c), c.to_ascii_lowercase(), "{n:x}");
        }
    }
}

#[test]
fn texts_are_taken_apart_as_the_standard_library_does() {
    for sample in ["", " ", "a", " a b ", "a\t\u{a0}b\u{2003}", "x=y=z", "=", "漢 🙂", "\u{85}q"] {
        assert_eq!(text::trim(sample), sample.trim());
        assert_eq!(
            text::split_words(sample),
            sample.split_whitespace().collect::<Vec<_>>()
        );
        assert_eq!(
            text::split_text(sample, '='),
            sample.split('=').collect::<Vec<_>>()
        );
        let halves = text::split_once_text(sample, '=');
        let expected = sample
            .split_once('=')
            .map(|(a, b)| (a.to_string(), b.to_string()));
        assert_eq!(halves, expected);
        for part in ["", "a", "=", "b ", "🙂"] {
            assert_eq!(text::contains_part(sample, part), sample.contains(part));
            assert_eq!(text::starts_with(sample, part), sample.starts_with(part));
            assert_eq!(text::is_text_before(sample, part), sample < part);
        }
    }
    assert_eq!(text::decimal_text(0), "0");
    assert_eq!(text::decimal_text(u64::MAX), u64::MAX.to_string());
    assert_eq!(text::padded_text(7, 2), "07");
    assert!(text::eq_ignore_case("PE", "pe"));
    assert!(!text::eq_ignore_case("É", "é"));
}

#[test]
fn searching_ignores_case_beyond_ascii() {
    let catalog = CATALOG.replace("Algorithms", "École d'été");
    let base = adapter::parse_catalog(&catalog, TERM).unwrap();
    assert_eq!(cli::search(&base, "ÉCOLE"), vec![0]);
    assert_eq!(cli::search(&base, "ÉTÉ"), vec![0]);
    assert_eq!(cli::search(&base, "b"), vec![1]);
    assert!(cli::search(&base, "ecole").is_empty());
}

#[test]
fn unknown_kinds_are_shortened_and_capitalized() {
    assert_eq!(component_label("éTUDE"), "Étu");
    assert_eq!(component_label("seminar"), "Sem");
    assert_eq!(component_label("SEMINAR"), "Sem");
    assert_eq!(component_label("  field trip "), "Fie");
    assert_eq!(component_label("--"), "Other");
    assert_eq!(component_label("   "), "Other");
}

#[test]
fn new_manual_ids_are_the_digest_of_the_entry() {
    let entry = app::manual_entry(
        &dataset(),
        "A",
        " Lab ",
        " Say \"hi\" ",
        "Room",
        vec![meeting(6, 1381, 1440), meeting(0, 545, 595)],
        None,
    )
    .unwrap();
    let source = concat_parts(&[
        "[\"f26\",\"A\",\"lab\",\"Say \\\"hi\\\"\",\"Room\",[",
        "{\"weekday\":0,\"start_minute\":545,\"end_minute\":595,\"start_date\":null,\"end_date\":null},",
        "{\"weekday\":6,\"start_minute\":1381,\"end_minute\":1440,\"start_date\":null,\"end_date\":null}]]",
    ]);
    let digest = sha2::Sha256::digest(source.as_bytes());
    assert_eq!(entry.option.id, format!("manual-{digest:x}"));
    assert_eq!(entry.kind, "lab");
    assert_eq!(entry.option.label, "Say \"hi\"");
    assert_eq!(
        entry.option.meetings,
        vec![meeting(0, 545, 595), meeting(6, 1381, 1440)]
    );
    storage::validate_manual_entry(&entry).unwrap();
}

#[test]
fn texts_are_quoted_as_json_has_it() {
    let room = "\u{1}\u{8}\t\n\u{b}\u{c}\r\u{1f} \"/\\\u{7f}é界\u{2028}";
    let quoted = "\"\\u0001\\b\\t\\n\\u000b\\f\\r\\u001f \\\"/\\\\\u{7f}é界\u{2028}\"";
    let inside = format!("x{room}x");
    let entry = app::manual_entry(
        &dataset(),
        "A",
        "lab",
        "Lab",
        &inside,
        vec![meeting(0, 545, 595)],
        None,
    )
    .unwrap();
    let source = concat_parts(&[
        "[\"f26\",\"A\",\"lab\",\"Lab\",\"x",
        quoted.trim_matches('"'),
        "x\",[{\"weekday\":0,\"start_minute\":545,\"end_minute\":595,",
        "\"start_date\":null,\"end_date\":null}]]",
    ]);
    let digest = sha2::Sha256::digest(source.as_bytes());
    assert_eq!(entry.option.room, inside);
    assert_eq!(entry.option.id, format!("manual-{digest:x}"));
}

fn concat_parts(parts: &[&str]) -> String {
    parts.concat()
}

#[test]
fn event_ids_are_the_digest_of_the_meeting() {
    let day = Date::parse("2026-10-26").unwrap();
    let calendar = TermCalendar {
        start: day,
        end: day,
        holidays: OrderedSet::new(),
        alternate_days: OrderedMap::new(),
    };
    let section = ChosenSection {
        course_id: "A".to_string(),
        course_title: "Algorithms".to_string(),
        kind: "lecture".to_string(),
        section: SectionOption {
            id: "L1".to_string(),
            label: "L1".to_string(),
            room: "Room".to_string(),
            source: Source::Api,
            meetings: vec![meeting(0, 540, 600)],
            incompatible_with: OrderedSet::new(),
            unsupported_reason: None,
        },
    };
    let report = calendar::export_ics(&calendar, &[section]).unwrap();
    let source =
        "[\"2026-10-26\",\"2026-10-26\",\"A\",\"lecture\",\"L1\",\"2026-10-26\",0,540,600]";
    let digest = sha2::Sha256::digest(source.as_bytes());
    let unfolded = report.ics.replace("\r\n ", "");
    assert!(unfolded.contains(&format!("UID:{digest:x}@hydrant-optimizer\r\n")));
    assert!(unfolded.contains("DTSTART:20261026T130000Z\r\nDTEND:20261026T140000Z\r\n"));
}

#[test]
fn downloads_can_be_used_from_the_cache() {
    let (dataset, envelope) = cache::accept_download(
        CATALOG.to_string(),
        TERM.to_string(),
        "2026-09-08T22:01:00Z".to_string(),
    )
    .unwrap();
    cache::check_cacheable(&envelope).unwrap();
    let cached = cache::offline_dataset(Ok(envelope), "data").unwrap();
    assert_eq!(cached.courses, dataset.courses);
    assert_eq!(cached.calendar, dataset.calendar);
}

#[test]
fn meetings_are_read_back_from_what_the_editor_shows() {
    let meetings = vec![
        meeting(0, 0, 1),
        meeting(0, 545, 595),
        meeting(3, 540, 600),
        meeting(6, 1380, 1440),
    ];
    let line = meetings_line(&meetings, ";");
    assert_eq!(
        line,
        "Mon 00:00-00:01;Mon 09:05-09:55;Thu 09:00-10:00;Sun 23:00-24:00"
    );
    assert_eq!(storage::parse_meetings(&line).unwrap(), meetings);
    let shuffled = vec![
        meetings[2],
        meetings[0],
        meetings[3],
        meetings[1],
        meetings[0],
    ];
    let line = meetings_line(&shuffled, ";");
    assert_eq!(storage::parse_meetings(&line).unwrap(), meetings);
}

#[test]
fn overlap_is_symmetric_and_adjacent_meetings_do_not_overlap() {
    let nine = meeting(0, 540, 600);
    let ten = meeting(0, 600, 660);
    let both = meeting(0, 570, 630);
    for (a, b, expected) in [(nine, ten, false), (nine, both, true), (ten, both, true)] {
        assert_eq!(natural_meetings_overlap(&a, &b), expected);
        assert_eq!(natural_meetings_overlap(&b, &a), expected);
    }
}

#[test]
fn maps_find_what_was_inserted_last() {
    let mut map: OrderedMap<String, String> = OrderedMap::new();
    assert!(map.insert("b".to_string(), "1".to_string()));
    assert!(map.insert("a".to_string(), "2".to_string()));
    assert!(!map.insert("b".to_string(), "3".to_string()));
    assert_eq!(map.keys(), &vec!["a".to_string(), "b".to_string()]);
    assert_eq!(map.get(&"b".to_string()), Some(&"3".to_string()));
    assert_eq!(map.get(&"c".to_string()), None);
}

#[test]
fn the_order_of_the_selection_changes_nothing() {
    let base = dataset();
    let ids = |wanted: &[&str]| wanted.iter().map(|id| id.to_string()).collect::<Vec<_>>();
    let first = app::optimize(&base, &ids(&["A", "B"]), None).unwrap();
    let second = app::optimize(&base, &ids(&["B", "A", "B"]), None).unwrap();
    assert_eq!(first, second);
}

#[test]
fn manual_sections_leave_the_published_ones_in_place() {
    let base = dataset();
    let entry = app::manual_entry(
        &base,
        "A",
        "lecture",
        "Extra",
        "",
        vec![meeting(2, 540, 600)],
        None,
    )
    .unwrap();
    let mut elsewhere = entry.clone();
    elsewhere.term_id = "sp27".to_string();
    elsewhere.option.id = "manual-elsewhere".to_string();
    let store = ManualStore {
        version: 1,
        entries: vec![entry.clone(), elsewhere],
    };
    let merged = storage::apply_manual(&base, &store).unwrap();
    assert_eq!(merged.courses.keys(), base.courses.keys());
    let key = "A".to_string();
    let before = &base.courses.get(&key).unwrap().requirements[0].options;
    let after = &merged.courses.get(&key).unwrap().requirements[0].options;
    assert_eq!(after.len(), before.len() + 1);
    assert!(before.iter().all(|option| after.contains(option)));
    assert!(after.contains(&entry.option));
}

#[test]
fn export_names_never_repeat() {
    let mut attempt = ExportAttempt {
        stamp: 1,
        retry: false,
    };
    let mut names = Vec::new();
    for _ in 0..6 {
        names.push(attempt.target(None, None, None));
        attempt = attempt.next();
    }
    let expected = ["1", "1-1", "2", "2-1", "3", "3-1"];
    for (name, suffix) in names.iter().zip(expected) {
        assert_eq!(name.0, ".");
        assert_eq!(name.1, format!("schedule-{suffix}.ics"));
    }
    let (directory, name) = app::timestamped_export_path(Some("out"), Some("s"), Some("cal"), 9);
    assert_eq!((directory.as_str(), name.as_str()), ("out", "s-9.cal"));
}

#[test]
fn cells_are_as_wide_as_their_column() {
    for sample in ["", "abc", "界界界", "e\u{301}e\u{301}", "👨\u{200d}👩\u{200d}👧"] {
        for width in 0..8 {
            let cell = pad_cell(sample, width);
            assert_eq!(ratatui::text::Span::raw(cell.as_str()).width(), width);
            assert!(sample.starts_with(&fit_text(sample, width)));
        }
    }
    assert_eq!(pad_cell("界界界", 5), "界界 ");
}

#[test]
fn toggling_a_subject_twice_restores_the_selection() {
    let mut state = state(&["B"]);
    state.cursor = 0;
    let before = state.selected.clone();
    state.toggle_current_subject();
    assert_ne!(state.selected, before);
    state.toggle_current_subject();
    assert_eq!(state.selected, before);
}

#[test]
fn panes_and_fields_are_visited_in_a_circle() {
    let mut state = state(&[]);
    for focus in [Focus::Subjects, Focus::Selected, Focus::Timetable] {
        state.focus = focus;
        state.handle_key(Key::plain(KeyCode::Tab));
        assert_ne!(state.focus, focus);
        state.handle_key(Key::plain(KeyCode::BackTab));
        assert_eq!(state.focus, focus);
    }
    let mut form = ManualForm::new("A".to_string());
    for field in EditorField::all() {
        assert_eq!(form.field, field);
        form.next_field(false);
        form.next_field(true);
        assert_eq!(form.field, field);
        form.next_field(false);
    }
    assert_eq!(form.field, EditorField::Course);
}

#[test]
fn typing_and_drawing_keep_the_selection_and_the_cursors() {
    let mut state = state(&["A", "B"]);
    let solution = app::optimize(&state.dataset, &state.selected_subjects(), None).unwrap();
    state.install_solution(solution.clone());
    let selected = state.selected.clone();
    state.focus = Focus::Search;
    for c in "b i?q ".chars() {
        state.handle_key(Key::plain(KeyCode::Char(c)));
    }
    state.handle_key(Key::plain(KeyCode::Down));
    let area = Area {
        x: 0,
        y: 0,
        width: 80,
        height: 24,
    };
    draw(&mut state, &arrange(area));
    assert_eq!(state.selected, selected);
    assert_eq!(state.solution, Some(solution));
    assert!(state.filtered.is_empty());
    assert_eq!(state.cursor, 0);
    assert!(state.timetable_viewport.offset <= state.timetable_viewport.max_offset);
}

#[test]
fn switching_a_member_keeps_the_timetable() {
    let mut state = state(&["A"]);
    let solution = app::optimize(&state.dataset, &state.selected_subjects(), None).unwrap();
    state.install_solution(solution.clone());
    state.cycle_current_member(1);
    let picked = state.actual_members.get(&"A/lecture".to_string()).cloned();
    assert_eq!(picked, Some(solution.choices[0].members[1].id.clone()));
    assert_eq!(state.solution, Some(solution));
}

#[test]
fn answers_to_an_earlier_selection_are_ignored() {
    let mut state = state(&["A"]);
    let solution = app::optimize(&state.dataset, &state.selected_subjects(), None);
    let earlier = state.generation;
    state.toggle_current_subject();
    state.worker_event(WorkerEvent::Finished(earlier, earlier, solution));
    assert!(state.solution.is_none());
    assert_eq!(state.status, "Ignored stale optimization result.");
    state.worker_event(WorkerEvent::Stopped);
    assert_eq!(state.status, "Optimization worker stopped unexpectedly.");
}

#[test]
fn enabling_undoes_disabling() {
    let base = dataset();
    let addition = cli::Addition {
        course: "A".to_string(),
        kind: "lab".to_string(),
        label: "Lab".to_string(),
        room: String::new(),
        meetings: "Fri 09:00-10:00".to_string(),
        id: None,
        start_date: None,
        end_date: None,
    };
    let (store, id) = cli::add_manual(&base, &ManualStore::default(), &addition).unwrap();
    let (off, _) = cli::switch_manual(&base, &store, &id, false).unwrap();
    assert!(!off.entries[0].enabled);
    let (on, _) = cli::switch_manual(&base, &off, &id, true).unwrap();
    assert_eq!(on, store);
}

#[test]
fn meetings_that_are_read_are_in_order_and_different() {
    let meetings =
        storage::parse_meetings("Wed 09:00-10:00;Mon 09:00-10:00; Mon 9:00-10:00").unwrap();
    assert_eq!(meetings, vec![meeting(0, 540, 600), meeting(2, 540, 600)]);
}

#[test]
fn keys_alone_change_nothing_that_is_stored() {
    let mut state = state(&["A"]);
    let (base, manual) = (state.base.clone(), state.manual.clone());
    for focus in [Focus::Subjects, Focus::Selected, Focus::Manual, Focus::Timetable] {
        state.focus = focus;
        for c in "xecam?qjkhl st/".chars() {
            state.handle_key(Key::plain(KeyCode::Char(c)));
            state.handle_key(Key::plain(KeyCode::Esc));
        }
    }
    assert_eq!(state.base, base);
    assert_eq!(state.manual, manual);
}

#[test]
fn exported_events_are_in_order() {
    let base = dataset();
    let ids = vec!["A".to_string(), "B".to_string()];
    let solution = app::optimize(&base, &ids, None).unwrap();
    let report = app::calendar_report(&base, &solution, &OrderedMap::new()).unwrap();
    let starts: Vec<&str> = report
        .ics
        .lines()
        .filter_map(|line| line.strip_prefix("DTSTART:"))
        .collect();
    assert_eq!(
        starts,
        [
            "20261026T130000Z",
            "20261026T140000Z",
            "20261103T140000Z",
            "20261103T150000Z",
            "20261109T140000Z",
            "20261109T150000Z",
        ]
    );
    assert_eq!(report.event_count, 6);
}
