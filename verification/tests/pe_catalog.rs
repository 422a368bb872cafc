use hydrant_optimizer::adapter;
use hydrant_optimizer::app::{self, ExportAttempt};
use hydrant_optimizer::model::{Course, Dataset, ManualStore, SolveStatus};
use hydrant_optimizer::order::OrderedMap;
use hydrant_optimizer::tui::{AppState, Focus};
use serde_json::Value;

const CATALOG: &str = r#"{
  "lastUpdated":"2026-09-08 22:01",
  "termInfo":{"urlName":"f26","startDate":"2026-10-26","endDate":"2026-11-09","holidayDates":["2026-11-02"],"mondayScheduleDate":"2026-11-03"},
  "classes":{
    "A":{"number":"A","name":"Algorithms","half":false,"sectionKinds":["lecture","recitation","lab"],"lectureSections":[[[[6,2]],"Room A"]],"recitationSections":[[[[40,2]],"Room B"]],"labSections":[[[[74,2]],"Room C"]]}
  },
  "pe":{
    "1":{
      "PE.1000":{"number":"PE.1000","name":"Swimming","quarter":1,"startDate":"2026-10-26","endDate":"2026-10-30","sectionNumbers":["1","2"],"sections":[[[[10,2]],"Pool"],[[[116,2]],"Pool"]],"rawSections":["Mon 11:00","Thu 13:00"]},
      "PE.2000":{"number":"PE.2000","name":"Trip","quarter":1,"startDate":"2026-10-26","endDate":"2026-10-30","sectionNumbers":["1"],"sections":[[[],"Trail"]],"rawSections":["To be arranged"]}
    },
    "2":{
      "PE.1000":{"number":"PE.1000","name":"Swimming","quarter":2,"startDate":"2026-11-02","endDate":"2026-11-09","sectionNumbers":["1","2"],"sections":[[[[10,2]],"Pool"],[[[116,2]],"Pool"]],"rawSections":["Mon 11:00","Thu 13:00"]}
    }
  }
}"#;

fn raw() -> Value {
    serde_json::from_str(CATALOG).unwrap()
}

fn parse(value: &Value) -> Dataset {
    adapter::parse_catalog(&value.to_string(), "").unwrap()
}

fn course<'a>(dataset: &'a Dataset, id: &str) -> &'a Course {
    dataset.courses.get(&id.to_string()).unwrap()
}

/// An object with one member.
fn object(name: &str, value: Value) -> Value {
    let mut members = serde_json::Map::new();
    members.insert(name.to_string(), value);
    Value::Object(members)
}

fn list(values: Vec<Value>) -> Value {
    Value::Array(values)
}

#[test]
fn pe_quarters_are_selectable_stable_courses_with_dated_sections() {
    let full = raw();
    let dataset = parse(&full);
    assert_eq!(dataset.courses.keys().len(), 4);
    let first = course(&dataset, "PE.1000.Q1");
    assert!(first.title.contains("Swimming") && first.title.contains("Q1"));
    assert_eq!(first.requirements[0].kind, "pe");
    assert_eq!(first.requirements[0].options.len(), 2);
    for option in &first.requirements[0].options {
        assert!(option.unsupported_reason.is_none());
        assert!(option.label.contains("2026-10-26 to 2026-10-30"));
        assert_eq!(
            option.meetings[0].start_date.unwrap().text(),
            "2026-10-26"
        );
        assert_eq!(
            option.meetings[0].end_date.unwrap().text(),
            "2026-10-30"
        );
    }
    let mut earlier = full.clone();
    earlier["pe"].as_object_mut().unwrap().remove("2");
    let earlier = parse(&earlier);
    assert_eq!(
        course(&earlier, "PE.1000.Q1").requirements[0].options,
        first.requirements[0].options
    );
    let mut reordered = full;
    for field in ["sections", "sectionNumbers", "rawSections"] {
        reordered["pe"]["1"]["PE.1000"][field]
            .as_array_mut()
            .unwrap()
            .reverse();
    }
    assert_eq!(
        course(&parse(&reordered), "PE.1000.Q1").requirements[0].options,
        first.requirements[0].options
    );
}

#[test]
fn pe_unannounced_or_missing_dates_are_disclosed_not_invented() {
    let mut data = raw();
    data["pe"]["1"]["PE.1000"]
        .as_object_mut()
        .unwrap()
        .remove("startDate");
    let dataset = parse(&data);
    let trip = course(&dataset, "PE.2000.Q1");
    assert!(trip.requirements[0].has_unknown_times);
    assert!(
        trip.notices
            .iter()
            .any(|notice| notice.contains("not machine-readable"))
    );
    assert!(
        course(&dataset, "PE.1000.Q1").requirements[0]
            .options
            .iter()
            .all(|option| option
                .unsupported_reason
                .as_ref()
                .unwrap()
                .contains("dates"))
    );
    let solution =
        app::optimize(&dataset, &["PE.1000.Q1".into(), "PE.2000.Q1".into()], None).unwrap();
    assert!(solution.choices.is_empty());
    assert!(!solution.unresolved.is_empty());
}

#[test]
fn pe_iap_and_malformed_catalog_boundaries_are_checked() {
    let mut iap = raw();
    let mut quarter = iap["pe"]["1"]["PE.1000"].clone();
    quarter["quarter"] = Value::from(5);
    iap["pe"] = object("5", object("PE.1000", quarter));
    assert!(course(&parse(&iap), "PE.1000.Q5").title.contains("IAP"));
    for invalid in [
        list(vec![]),
        object("6", Value::Object(serde_json::Map::new())),
        object("1", list(vec![])),
    ] {
        let mut data = raw();
        data["pe"] = invalid;
        assert!(adapter::parse_catalog(&data.to_string(), "").is_err());
    }
    for (field, value) in [
        ("quarter", Value::from(2)),
        ("startDate", Value::from("bad")),
        ("endDate", Value::from("2026-01-01")),
        ("sectionNumbers", list(vec![Value::from("1")])),
        ("sections", list(vec![list(vec![
                list(vec![list(vec![Value::from(999999), Value::from(2)])]),
                Value::from("Gym"),
            ])])),
    ] {
        let mut data = raw();
        data["pe"]["1"]["PE.1000"][field] = value;
        assert!(
            adapter::parse_catalog(&data.to_string(), "").is_err(),
            "accepted invalid {field}"
        );
    }
}

#[test]
fn pe_catalog_optimizes_with_academics_and_exports_only_offering_dates() {
    let dataset = parse(&raw());
    let solution = app::optimize(
        &dataset,
        &["A".into(), "PE.1000.Q1".into(), "PE.1000.Q2".into()],
        None,
    )
    .unwrap();
    assert_eq!(solution.status, SolveStatus::OptimalKnown);
    assert_eq!(solution.choices.len(), 5);
    let sections = app::actual_sections(&dataset, &solution, &OrderedMap::new()).unwrap();
    let pe: Vec<_> = sections
        .iter()
        .filter(|section| section.kind == "pe")
        .collect();
    assert_eq!(pe.len(), 2);
    assert!(
        pe.iter()
            .all(|section| section.section.meetings[0].start_minute == 660)
    );
    let attempt = ExportAttempt {
        stamp: 1_757_424_600,
        retry: false,
    };
    let (directory, name) = attempt.target(Some("exports"), Some("pe"), Some("ics"));
    assert_eq!(directory, "exports");
    assert!(
        name.starts_with("pe-"),
        "export must carry a Unix-time signature: {name}"
    );
    assert_ne!(name, "pe.ics", "the bare hint must never be written");
    let report = app::calendar_report(&dataset, &solution, &OrderedMap::new()).unwrap();
    assert_eq!(report.event_count, 9); // 6 academic + Q1 Oct26 + Q2 Nov3/Nov9.
    assert!(report.ics.contains("PE.1000.Q1 pe") && report.ics.contains("PE.1000.Q2 pe"));
    let pe_events: Vec<_> = report
        .ics
        .split("BEGIN:VEVENT")
        .skip(1)
        .filter(|event| event.contains("SUMMARY:PE."))
        .collect();
    assert_eq!(pe_events.len(), 3);
    for event in pe_events {
        if event.contains("PE.1000.Q1") {
            assert!(event.contains("DTSTART:20261026T150000Z"));
        } else {
            assert!(
                event.contains("DTSTART:20261103T160000Z")
                    || event.contains("DTSTART:20261109T160000Z")
            );
        }
    }
}

#[test]
fn pe_search_and_manual_editor_prefill_preserve_published_dates() {
    let mut state = AppState::new(
        parse(&raw()),
        ManualStore::default(),
        "data".into(),
        "data/out.ics".into(),
        vec!["A".into(), "PE.1000.Q1".into()],
    )
    .unwrap();
    state.query = "swimming".into();
    state.recompute_filter();
    assert_eq!(state.filtered, ["PE.1000.Q1", "PE.1000.Q2"]);
    state.focus = Focus::Subjects;
    state.open_add_manual();
    let form = state.editor.unwrap();
    assert_eq!(form.kind, "pe");
    assert_eq!(form.start_date, "2026-10-26");
    assert_eq!(form.end_date, "2026-10-30");
}
