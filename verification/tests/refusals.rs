use hydrant_optimizer::adapter;
use hydrant_optimizer::app;
use hydrant_optimizer::cache::{self, CacheEnvelope};
use hydrant_optimizer::calendar;
use hydrant_optimizer::cli;
use hydrant_optimizer::date::Date;
use hydrant_optimizer::error::Error;
use hydrant_optimizer::model::{
    ChosenSection, Dataset, ManualEntry, ManualStore, Meeting, Requirement, SectionOption,
    Solution, SolveStatus, Source, TermCalendar,
};
use hydrant_optimizer::optimizer;
use hydrant_optimizer::order::{OrderedMap, OrderedSet};
use hydrant_optimizer::storage;
use hydrant_optimizer::tui::AppState;

const CATALOG: &str = r#"{
  "lastUpdated":"2026-09-08 22:01",
  "termInfo":{"urlName":"f26","startDate":"2026-10-26","endDate":"2026-11-09","h1EndDate":"2026-10-30","h2StartDate":"2026-11-02","holidayDates":["2026-11-02"],"mondayScheduleDate":"2026-11-03"},
  "classes":{
    "A":{"number":"A","name":"Algorithms","half":false,"sectionKinds":["lecture","recitation"],"lectureSections":[[[[6,2]],"Room A"],[[[6,2]],"Room B"]],"recitationSections":[]},
    "B":{"number":"B","name":"Biology","half":false,"sectionKinds":["lecture"],"lectureSections":[[[[8,2]],"Room C"]]},
    "C":{"number":"C","name":"Conflict","half":false,"sectionKinds":["lecture"],"lectureSections":[[[[6,2]],"Room D"]]},
    "E":{"number":"E","name":"Empty","half":false,"sectionKinds":["lecture"],"lectureSections":[]},
    "P":{"number":"P","name":"Partial","half":1,"sectionKinds":["lecture"],"lectureSections":[[[[40,2]],"Room P"]]}
  }
}"#;

const TERM: &str = r#"{"semester":{"urlName":"f26","startDate":"2026-10-26","endDate":"2026-11-09","h1EndDate":"2026-10-30","h2StartDate":"2026-11-02","holidayDates":["2026-11-02"],"mondayScheduleDate":"2026-11-03"}}"#;

fn dataset() -> Dataset {
    adapter::parse_catalog(CATALOG, TERM).unwrap()
}

fn meeting(weekday: u8, start_minute: u16, end_minute: u16) -> Meeting {
    Meeting {
        weekday,
        start_minute,
        end_minute,
        start_date: None,
        end_date: None,
    }
}

fn option(id: &str, meetings: Vec<Meeting>) -> SectionOption {
    SectionOption {
        id: id.to_string(),
        label: id.to_string(),
        room: String::new(),
        source: Source::Manual,
        meetings,
        incompatible_with: OrderedSet::new(),
        unsupported_reason: None,
    }
}

fn requirement(id: &str, options: Vec<SectionOption>) -> Requirement {
    Requirement {
        id: id.to_string(),
        kind: "lecture".to_string(),
        options,
        has_unknown_times: false,
    }
}

fn message<T>(result: Result<T, Error>) -> String {
    match result {
        Ok(_) => panic!("accepted"),
        Err(error) => error.message,
    }
}

#[test]
fn meeting_notation_is_refused_with_its_reason() {
    for (text, expected) in [
        ("", "meeting 1 is empty"),
        ("Mon", "meeting 1 is missing time range"),
        ("Mon 09:00-10:00;Tue 9", "meeting 2 time range must be START-END"),
        ("Mon 09:00-10:00 x", "meeting 1 has extra text"),
        (
            "Xday 09:00-10:00",
            "invalid weekday in meeting 1: unknown weekday Xday",
        ),
        ("Mon 0900-10:00", "invalid start time in meeting 1: time must be HH:MM"),
        (
            "Mon 009:00-10:00",
            "invalid start time in meeting 1: time must be H:MM or HH:MM",
        ),
        (
            "Mon 09:00-25:00",
            "invalid end time in meeting 1: hour must be 0 through 24",
        ),
        (
            "Mon 09:60-10:00",
            "invalid start time in meeting 1: minute must be 0 through 59",
        ),
        (
            "Mon 09:00-24:01",
            "invalid end time in meeting 1: 24 hour is only valid as 24:00",
        ),
        (
            "Mon 10:00-10:00",
            "invalid time range in meeting 1: meeting must satisfy 00:00 <= start < end <= 24:00",
        ),
    ] {
        assert_eq!(message(storage::parse_meetings(text)), expected);
    }
    assert_eq!(storage::parse_weekday(" Thurs ").unwrap(), 3);
    assert_eq!(storage::parse_time("7:05").unwrap(), 425);
}

#[test]
fn meetings_are_refused_with_their_reason() {
    assert_eq!(
        message(meeting(7, 0, 1).validate()),
        "weekday must be Monday through Sunday"
    );
    assert_eq!(
        message(meeting(0, 1, 1).validate()),
        "meeting must satisfy 00:00 <= start < end <= 24:00"
    );
    let mut backwards = meeting(0, 0, 1);
    backwards.start_date = Some(Date::parse("2026-10-27").unwrap());
    backwards.end_date = Some(Date::parse("2026-10-26").unwrap());
    assert_eq!(
        message(backwards.validate()),
        "meeting start date follows end date"
    );
}

fn entry() -> ManualEntry {
    ManualEntry {
        term_id: "f26".to_string(),
        course_id: "A".to_string(),
        kind: "lecture".to_string(),
        option: option("manual-x", vec![meeting(1, 600, 660)]),
        enabled: true,
    }
}

#[test]
fn manual_entries_are_refused_with_their_reason() {
    storage::validate_manual_entry(&entry()).unwrap();
    let dated = |start: &str| Some(Date::parse(start).unwrap());
    for case in 0..15 {
        let mut bad = entry();
        let expected = match case {
            0 => {
                bad.term_id = " ".to_string();
                "manual entry term_id is empty"
            }
            1 => {
                bad.course_id = String::new();
                "manual entry course_id is empty"
            }
            2 => {
                bad.kind = "Lecture".to_string();
                "manual entry kind must be nonempty, trimmed, and lowercase"
            }
            3 => {
                bad.option.source = Source::Api;
                "manual entry manual-x must have manual source"
            }
            4 => {
                bad.option.id = "manual-a b".to_string();
                "manual entry id must start with manual- and contain a nonempty identifier without whitespace"
            }
            5 => {
                bad.option.label = " ".to_string();
                "manual entry manual-x label is empty"
            }
            6 => {
                bad.option.meetings.clear();
                "manual entry manual-x has no meetings"
            }
            7 => {
                bad.option.incompatible_with.insert("manual-x".to_string());
                "manual entry cannot be incompatible with itself"
            }
            8 => {
                bad.option.meetings[0].weekday = 7;
                "manual entry manual-x has invalid meeting: weekday must be Monday through Sunday"
            }
            9 => {
                bad.option.meetings.push(meeting(0, 600, 660));
                "manual entry manual-x meetings must be sorted"
            }
            10 => {
                bad.kind = "pe".to_string();
                "manual entry manual-x with kind pe must have complete start/end date bounds"
            }
            11 => {
                bad.kind = "pe".to_string();
                bad.option.meetings[0].start_date = dated("2026-10-26");
                bad.option.meetings[0].end_date = dated("2026-10-30");
                bad.option.unsupported_reason = Some("why".to_string());
                "manual entry manual-x with kind pe and complete bounds must not be marked unsupported"
            }
            12 => {
                bad.kind = "pe".to_string();
                bad.option.meetings[0].start_date = dated("2026-10-26");
                bad.option.meetings[0].end_date = dated("2026-10-30");
                let mut later = bad.option.meetings[0];
                later.start_minute = 630;
                later.end_minute = 690;
                bad.option.meetings.push(later);
                "manual entry manual-x has overlapping meetings"
            }
            13 => {
                bad.option.meetings[0].start_date = dated("2026-10-26");
                "manual entry manual-x with date bounds must be marked unsupported"
            }
            _ => {
                bad.option.meetings.push(meeting(1, 630, 690));
                "manual entry manual-x has overlapping meetings"
            }
        };
        assert_eq!(message(storage::validate_manual_entry(&bad)), expected);
    }
    let store = ManualStore {
        version: 2,
        entries: Vec::new(),
    };
    assert_eq!(
        message(storage::validate_manual_store(&store)),
        "unsupported manual store version 2"
    );
    let twice = ManualStore {
        version: 1,
        entries: vec![entry(), entry()],
    };
    assert_eq!(
        message(storage::validate_manual_store(&twice)),
        "duplicate manual entry manual-x for A/lecture in f26"
    );
}

fn store(entries: Vec<ManualEntry>) -> ManualStore {
    ManualStore {
        version: 1,
        entries,
    }
}

#[test]
fn merges_are_refused_with_their_reason() {
    let base = dataset();
    let mut unknown = entry();
    unknown.course_id = "X".to_string();
    assert_eq!(
        message(storage::apply_manual(&base, &store(vec![unknown]))),
        "manual section manual-x references unknown subject X in f26"
    );
    let mut component = entry();
    component.kind = "seminar".to_string();
    assert_eq!(
        message(storage::apply_manual(&base, &store(vec![component]))),
        "manual section manual-x cannot create unknown component seminar"
    );
    let mut published = dataset();
    let mut course = published.courses.get(&"A".to_string()).unwrap().clone();
    course.requirements[0].options[0].id = "manual-x".to_string();
    published.courses.insert("A".to_string(), course.clone());
    assert_eq!(
        message(storage::apply_manual(&published, &store(vec![entry()]))),
        "duplicate section id after manual merge: manual-x"
    );
    course.requirements[0].id = "Z".to_string();
    published.courses.insert("A".to_string(), course);
    assert_eq!(
        message(storage::apply_manual(&published, &store(vec![entry()]))),
        "manual section manual-x targets inconsistent component lecture"
    );
}

#[test]
fn new_manual_sections_are_refused_with_their_reason() {
    let base = dataset();
    let make = |course: &str, kind: &str, label: &str, meetings: Vec<Meeting>, id: Option<&str>| {
        message(app::manual_entry(&base, course, kind, label, "", meetings, id))
    };
    let ok = vec![meeting(0, 540, 600)];
    assert_eq!(make("X", "lab", "l", ok.clone(), None), "unknown subject X");
    assert_eq!(
        make("A", "x", "l", ok.clone(), None),
        "component must be published for this subject, or lecture, recitation, lab, design, or pe"
    );
    assert_eq!(
        make("A", "lab", " ", ok.clone(), None),
        "manual section needs a label"
    );
    assert_eq!(
        make("A", "lab", "l", Vec::new(), None),
        "manual section needs at least one meeting"
    );
    assert_eq!(
        make("A", "lab", "l", vec![meeting(9, 0, 1)], None),
        "weekday must be Monday through Sunday"
    );
    assert_eq!(
        make("A", "pe", "l", ok.clone(), None),
        "PE manual section needs complete start/end date bounds"
    );
    assert_eq!(
        make("A", "lab", "l", vec![meeting(0, 540, 600), meeting(0, 570, 630)], None),
        "meetings within one manual section overlap"
    );
    assert_eq!(
        make("A", "lab", "l", ok, Some("api-1")),
        "not a manual section ID"
    );
}

#[test]
fn searches_are_refused_with_their_reason() {
    let good = option("a", vec![meeting(0, 540, 600)]);
    let solve = |requirements: &[Requirement]| message(optimizer::solve(requirements, None));
    assert_eq!(
        solve(&[requirement(" ", vec![])]),
        "requirement id must not be empty"
    );
    assert_eq!(
        solve(&[requirement("A", vec![]), requirement("A", vec![])]),
        "duplicate requirement id A"
    );
    assert_eq!(
        solve(&[requirement("A", vec![option(" ", vec![])])]),
        "option id must not be empty"
    );
    assert_eq!(
        solve(&[
            requirement("A", vec![good.clone()]),
            requirement("B", vec![good.clone()])
        ]),
        "duplicate option id a"
    );
    assert_eq!(
        solve(&[requirement("A", vec![option("a", vec![meeting(7, 0, 1)])])]),
        "weekday must be Monday through Sunday"
    );
    let clash = vec![meeting(0, 540, 600), meeting(0, 570, 630)];
    assert_eq!(
        solve(&[requirement("A", vec![option("a", clash)])]),
        "meetings within one option overlap"
    );
    let mut calendar = TermCalendar {
        start: Date::parse("2026-10-27").unwrap(),
        end: Date::parse("2026-10-26").unwrap(),
        holidays: OrderedSet::new(),
        alternate_days: OrderedMap::new(),
    };
    assert_eq!(
        message(optimizer::check_calendar(&calendar)),
        "calendar start follows end"
    );
    calendar.end = calendar.start;
    calendar.alternate_days.insert(calendar.start, 7);
    assert_eq!(
        message(optimizer::solve_with_calendar(&[], &calendar, None)),
        "alternate calendar weekdays must be Monday through Sunday"
    );
}

fn envelope() -> CacheEnvelope {
    CacheEnvelope {
        version: 1,
        fetched_at: "2026-09-08T22:01:00Z".to_string(),
        catalog_url: cache::latest_catalog_url().to_string(),
        term_url: cache::latest_term_url().to_string(),
        catalog: CATALOG.to_string(),
        term: TERM.to_string(),
    }
}

#[test]
fn caches_are_refused_with_their_reason() {
    cache::validate_cache_envelope(&envelope()).unwrap();
    for case in 0..7 {
        let mut bad = envelope();
        let expected = match case {
            0 => {
                bad.version = 3;
                "unsupported cache version 3"
            }
            1 => {
                bad.catalog_url = "http://x".to_string();
                "only public HTTPS URLs are allowed: http://x"
            }
            2 => {
                bad.term_url = "ftp://x".to_string();
                "only public HTTPS URLs are allowed: ftp://x"
            }
            3 => {
                bad.term_url = "https://x".to_string();
                "cache source URLs do not match the public Hydrant endpoints"
            }
            4 => {
                bad.catalog = " ".to_string();
                "cached catalog is empty"
            }
            5 => {
                bad.term = String::new();
                "cached term metadata is empty"
            }
            _ => {
                bad.fetched_at = "yesterday".to_string();
                "cache fetched_at must be RFC3339"
            }
        };
        assert!(message(cache::validate_cache_envelope(&bad)).starts_with(expected));
    }
    assert!(cache::check_body_size("https://x", cache::MAX_BODY_BYTES).is_ok());
    assert_eq!(
        message(cache::check_body_size("https://x", cache::MAX_BODY_BYTES + 1)),
        "GET https://x exceeded the catalog size limit"
    );
    let mut broken = envelope();
    broken.catalog = "{".to_string();
    assert!(
        message(cache::check_cacheable(&broken)).starts_with("refusing to cache invalid catalog: ")
    );
}

#[test]
fn catalogs_are_refused_with_their_reason() {
    assert!(message(adapter::parse_catalog("not json", "")).contains("line 1 column 2"));
    assert!(message(adapter::parse_catalog(CATALOG, "{")).contains("line 1 column 1"));
    for (from, to, expected) in [
        (
            "\"startDate\":\"2026-10-26\"",
            "\"startDate\":\"2026-12-26\"",
            "term startDate follows endDate",
        ),
        (
            "\"holidayDates\":[\"2026-11-02\"]",
            "\"holidayDates\":[1]",
            "holidayDates entries must be strings",
        ),
        ("\"half\":1", "\"half\":3", "half must be a boolean or 0, 1, or 2"),
        ("[[[[40,2]]", "[[[[40]]", "raw meeting must be [slot, length]"),
        (
            "[[[[40,2]]",
            "[[[[\"x\",2]]",
            "raw meeting slot must be an integer",
        ),
        (
            "[[[[40,2]]",
            "[[[[40,0]]",
            "raw meeting length must be positive and at most one day",
        ),
        (
            "[[[[40,2]]",
            "[[[[9999,2]]",
            "raw meeting slot must be within the encoded week",
        ),
        ("\"Room P\"", "5", "section room must be a string"),
        (
            "\"sectionKinds\":[\"lecture\"],\"lectureSections\":[]",
            "\"sectionKinds\":5",
            "sectionKinds must be an array",
        ),
        ("\"number\":\"E\"", "\"number\":\" \"", "course number is empty"),
        ("\"classes\"", "\"lessons\"", "catalog is missing classes object"),
    ] {
        let catalog = CATALOG.replace(from, to);
        assert_ne!(catalog, CATALOG);
        let error = message(adapter::parse_catalog(&catalog, ""));
        assert!(error.contains(expected), "{expected}: {error}");
    }
    let term = TERM.replace("f26", "s27");
    assert!(message(adapter::parse_catalog(CATALOG, &term)).contains("f26"));
}

fn solution(status: SolveStatus) -> Solution {
    Solution {
        status,
        choices: Vec::new(),
        score: None,
        unresolved: Vec::new(),
        alternatives: Vec::new(),
        alternatives_truncated: false,
    }
}

#[test]
fn exports_are_refused_with_their_reason() {
    let base = dataset();
    let none = OrderedMap::new();
    assert_eq!(
        message(app::actual_sections(&base, &solution(SolveStatus::Infeasible), &none)),
        "only a completed feasible optimization has selected sections"
    );
    let mut members = OrderedMap::new();
    members.insert("A/lecture".to_string(), "x".to_string());
    assert_eq!(
        message(app::actual_sections(&base, &solution(SolveStatus::OptimalKnown), &members)),
        "no chosen requirement A/lecture"
    );
    let mut undated = dataset();
    undated.calendar = None;
    assert_eq!(
        message(app::calendar_report(&undated, &solution(SolveStatus::OptimalKnown), &none)),
        "term calendar is unavailable; cannot export without reliable semester dates"
    );
    assert_eq!(
        message(cli::report_lines(&solution(SolveStatus::OptimalKnown), &Vec::new())),
        "missing optimum score"
    );
    let mut state = AppState::new(
        dataset(),
        ManualStore::default(),
        "data".to_string(),
        "data/schedule.ics".to_string(),
        Vec::new(),
    )
    .unwrap();
    assert_eq!(message(state.export_report()), "optimize before exporting");
    state.install_solution(solution(SolveStatus::Infeasible));
    assert_eq!(
        message(state.export_report()),
        "only a feasible optimal solution can be exported"
    );
}

#[test]
fn local_times_are_refused_with_their_reason() {
    let export = |day: &str, start: u16, end: u16| {
        let day = Date::parse(day).unwrap();
        let calendar = TermCalendar {
            start: day,
            end: day,
            holidays: OrderedSet::new(),
            alternate_days: OrderedMap::new(),
        };
        let section = ChosenSection {
            course_id: "A".to_string(),
            course_title: "Algorithms".to_string(),
            kind: "lecture".to_string(),
            section: option("manual-x", vec![meeting(6, start, end)]),
        };
        message(calendar::export_ics(&calendar, &[section]))
    };
    assert_eq!(
        export("2026-11-01", 90, 105),
        "cannot localize start of A lecture manual-x on 2026-11-01: local time is ambiguous in America/New_York"
    );
    assert_eq!(
        export("2026-03-08", 60, 150),
        "cannot localize end of A lecture manual-x on 2026-03-08: local time does not exist in America/New_York"
    );
}
