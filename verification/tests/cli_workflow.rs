use hydrant_optimizer::adapter;
use hydrant_optimizer::app::{self, ExportAttempt};
use hydrant_optimizer::cache;
use hydrant_optimizer::cli::{self, Addition, Optimized};
use hydrant_optimizer::date::Date;
use hydrant_optimizer::error::Error;
use hydrant_optimizer::model::{Dataset, ManualStore, Score, SolveStatus};

const CATALOG: &str = r#"{
  "lastUpdated":"2026-09-08 22:01",
  "termInfo":{"urlName":"f26","startDate":"2026-10-26","endDate":"2026-11-09","h1EndDate":"2026-10-30","h2StartDate":"2026-11-02","holidayDates":["2026-11-02"],"mondayScheduleDate":"2026-11-03"},
  "classes":{
    "A":{"number":"A","name":"Algorithms","half":false,"sectionKinds":["lecture","recitation"],"lectureSections":[[[[6,2]],"Room A"],[[[6,2]],"Room B"]],"recitationSections":[]},
    "B":{"number":"B","name":"Biology","half":false,"sectionKinds":["lecture"],"lectureSections":[[[[8,2]],"Room C"]]},
    "C":{"number":"C","name":"Conflict","half":false,"sectionKinds":["lecture"],"lectureSections":[[[[6,2]],"Room D"]]},
    "E":{"number":"E","name":"Empty","half":false,"sectionKinds":["lecture"],"lectureSections":[]},
    "P":{"number":"P","name":"Partial","half":1,"sectionKinds":["lecture"],"lectureSections":[[[[40,2]],"Room P"]]}
  }
}"#;

const TERM: &str = r#"{"semester":{"urlName":"f26","startDate":"2026-10-26","endDate":"2026-11-09","h1EndDate":"2026-10-30","h2StartDate":"2026-11-02","holidayDates":["2026-11-02"],"mondayScheduleDate":"2026-11-03"}}"#;

fn dataset() -> Dataset {
    adapter::parse_catalog(CATALOG, TERM).unwrap()
}

fn addition(course: &str, kind: &str, label: &str, room: &str, meetings: &str) -> Addition {
    Addition {
        course: course.to_string(),
        kind: kind.to_string(),
        label: label.to_string(),
        room: room.to_string(),
        meetings: meetings.to_string(),
        id: None,
        start_date: None,
        end_date: None,
    }
}

fn optimize(
    base: &Dataset,
    manual: &ManualStore,
    subjects: &[&str],
    members: &[&str],
) -> Result<Optimized, Error> {
    let subjects: Vec<String> = subjects.iter().map(|id| id.to_string()).collect();
    let members: Vec<String> = members.iter().map(|member| member.to_string()).collect();
    cli::optimize_subjects(base, manual, &subjects, &members)
}

#[test]
fn actual_cli_selection_manual_entry_optimization_switch_and_export() {
    let base = dataset();
    let found = cli::search(&base, "algo");
    assert_eq!(found.len(), 1);
    let course = &base.courses.values()[found[0]];
    assert_eq!(course.id, "A");
    assert_eq!(cli::course_line(course), "A  Algorithms");
    let mut manual = ManualStore::default();
    let before = optimize(&base, &manual, &["A", "B"], &[]).unwrap();
    assert_eq!(before.solution.status, SolveStatus::OptimalKnown);
    assert!(
        before
            .solution
            .unresolved
            .iter()
            .any(|notice| notice.contains("recitation"))
    );

    let asked = addition(
        "A",
        "recitation",
        "Study; group, α",
        "Room Z",
        "Mon 11:00-12:00",
    );
    let (saved, id) = cli::add_manual(&base, &manual, &asked).unwrap();
    manual = saved;
    assert!(id.starts_with("manual-"));
    let after = optimize(&base, &manual, &["A", "B"], &[]).unwrap();
    assert_eq!(
        after.solution.score,
        Some(Score {
            occupied_days: 1,
            gap_minutes: 0
        })
    );
    assert_eq!(after.sections.len(), 3);
    let group = after
        .solution
        .choices
        .iter()
        .find(|choice| choice.requirement_id == "A/lecture")
        .unwrap();
    assert_eq!(group.members.len(), 2);
    let member = group.members[1].id.clone();
    let mapping = format!("A/lecture={member}");
    let exported = optimize(&base, &manual, &["A", "B"], &[&mapping]).unwrap();
    assert_eq!(exported.solution.score, after.solution.score);
    assert!(
        exported
            .sections
            .iter()
            .any(|section| section.section.id == member)
    );
    assert!(cli::exports(true, exported.solution.status));
    let report =
        app::calendar_report(&exported.dataset, &exported.solution, &exported.members).unwrap();
    let attempt = ExportAttempt {
        stamp: 1_757_424_600,
        retry: false,
    };
    let (directory, name) = attempt.target(Some("data"), Some("schedule"), Some("ics"));
    assert_eq!(directory, "data");
    assert!(
        name.starts_with("schedule-"),
        "export must carry a Unix-time signature: {name}"
    );
    assert!(name.ends_with(".ics"));
    assert_ne!(name, "schedule.ics", "the bare hint must never be written");
    let calendar: icalendar::Calendar = report.ics.parse().unwrap();
    assert!(calendar.iter().filter_map(|part| part.as_event()).count() > 0);
    assert!(report.ics.contains("DTSTART:20261026T130000Z"));
    assert!(report.ics.contains("DTSTART:20261103T140000Z"));
    assert!(!report.ics.contains("DTSTART:20261102"));
    // A repeat export must mint a fresh name, never overwrite.
    let second = attempt
        .next()
        .target(Some("data"), Some("schedule"), Some("ics"))
        .1;
    assert_ne!(second, name);

    manual = cli::switch_manual(&base, &manual, &id, false).unwrap().0;
    let disabled = optimize(&base, &manual, &["A", "B"], &[]).unwrap();
    assert_eq!(disabled.sections.len(), 2);
    let mut revision = addition("A", "recitation", "Revised", "", "Mon 11:05-12:00");
    revision.id = Some(id.clone());
    manual = cli::add_manual(&base, &manual, &revision).unwrap().0;
    assert!(!manual.entries[0].enabled);
    assert_eq!(
        optimize(&base, &manual, &["A", "B"], &[])
            .unwrap()
            .sections
            .len(),
        2
    );
    for (course, kind) in [("B", "recitation"), ("A", "lab")] {
        let mut moved = addition(course, kind, "Manual section", "", "Mon 11:05-12:00");
        moved.id = Some(id.clone());
        let error = cli::add_manual(&base, &manual, &moved).unwrap_err();
        assert!(error.message.contains("cannot change"));
    }
    manual = cli::switch_manual(&base, &manual, &id, true).unwrap().0;
    let revised = optimize(&base, &manual, &["A", "B"], &[]).unwrap();
    assert_eq!(revised.solution.score.unwrap().gap_minutes, 5);
    assert_eq!(manual.entries.len(), 1);
    assert_eq!(
        cli::manual_line(&manual.entries[0]),
        format!("{id} [on] f26 A recitation Revised")
    );
}

#[test]
fn actual_cli_failure_statuses_and_unknown_time_disclosures() {
    let base = dataset();
    let manual = ManualStore::default();
    let conflict = optimize(&base, &manual, &["A", "C"], &[]).unwrap();
    assert_eq!(cli::exit_code(conflict.solution.status), 2);
    assert_eq!(conflict.solution.status, SolveStatus::Infeasible);
    assert!(optimize(&base, &manual, &["NOT-A-SUBJECT"], &[]).is_err());
    let backwards = addition("A", "lab", "Manual section", "", "Mon 12:00-11:00");
    assert!(cli::add_manual(&base, &manual, &backwards).is_err());
    assert!(optimize(&base, &manual, &["A"], &["A/lecture=wrong"]).is_err());
    let partial = optimize(&base, &manual, &["P", "E"], &[]).unwrap();
    assert_eq!(partial.solution.score.unwrap().occupied_days, 0);
    assert!(!partial.solution.unresolved.is_empty());
    assert_eq!(cli::exit_code(partial.solution.status), 0);
    let missing = Error::new("no such file");
    assert!(cache::offline_dataset(Err(missing), "data").is_err());
}

#[test]
fn infeasible_export_preserves_status_and_never_touches_output() {
    let base = dataset();
    let result = optimize(&base, &ManualStore::default(), &["A", "C"], &[]).unwrap();
    assert_eq!(cli::exit_code(result.solution.status), 2);
    assert_eq!(result.solution.status, SolveStatus::Infeasible);
    assert!(result.solution.score.is_none());
    assert!(result.sections.is_empty());
    assert!(!cli::exports(true, result.solution.status));
    assert!(!result.solution.unresolved.is_empty());
    let lines = cli::report_lines(&result.solution, &result.sections).unwrap();
    assert!(lines.join("\n").contains("Infeasible:"));
    assert!(result.solution.unresolved.join("\n").contains("recitation"));
}

#[test]
fn dated_manual_options_remain_visible_but_do_not_enter_weekly_search() {
    let base = dataset();
    let mut dated = addition("A", "recitation", "Manual section", "", "Mon 11:00-12:00");
    dated.start_date = Some(Date::parse("2026-10-26").unwrap());
    dated.end_date = Some(Date::parse("2026-10-30").unwrap());
    let manual = cli::add_manual(&base, &ManualStore::default(), &dated)
        .unwrap()
        .0;
    let output = optimize(&base, &manual, &["A"], &[]).unwrap();
    assert_eq!(output.sections.len(), 1);
    assert!(output.solution.unresolved.join("\n").contains("date"));
    assert_eq!(
        manual.entries[0].option.meetings[0].start_date.unwrap().text(),
        "2026-10-26"
    );
}

#[test]
fn refusals_of_the_command_line_say_why() {
    let base = dataset();
    let manual = ManualStore::default();
    for members in [&["A/lecture"][..], &["=x"][..], &["A/lecture="][..]] {
        let error = optimize(&base, &manual, &["A"], members).err().unwrap();
        assert_eq!(error.message, "--member must be requirement_id=option_id");
    }
    let twice = ["A/lecture=x", "A/lecture=y"];
    let error = optimize(&base, &manual, &["A"], &twice).err().unwrap();
    assert_eq!(error.message, "duplicate --member for A/lecture");
    let mut unknown = addition("A", "lab", "Manual section", "", "Mon 11:00-12:00");
    unknown.id = Some("manual-x".to_string());
    let error = cli::add_manual(&base, &manual, &unknown).unwrap_err();
    assert_eq!(
        error.message,
        "manual section not found in this term: manual-x"
    );
    let id = "manual-x".to_string();
    let error = cli::switch_manual(&base, &manual, &id, true).unwrap_err();
    assert_eq!(error.message, "manual section not found in this term");
    assert!(cli::check_refresh(false, false).is_ok());
    for (offline, catalog) in [(true, false), (false, true), (true, true)] {
        let error = cli::check_refresh(offline, catalog).unwrap_err();
        assert_eq!(
            error.message,
            "refresh requires the network, without --offline or --catalog"
        );
    }
}

#[test]
fn reports_list_meetings_in_order_and_the_options_at_the_same_time() {
    let base = dataset();
    let result = optimize(&base, &ManualStore::default(), &["B", "A"], &[]).unwrap();
    let lines = cli::report_lines(&result.solution, &result.sections).unwrap();
    assert_eq!(
        lines[0],
        "Optimal over known supported meetings: 1 occupied days, 0 gap minutes"
    );
    assert!(lines[1].starts_with("Mon 09:00-10:00  A lecture  "));
    assert!(lines[2].starts_with("Mon 10:00-11:00  B lecture  "));
    assert_eq!(lines[3], "A/lecture: 2 same-time option(s)");
    assert_eq!(lines[4], "B/lecture: 1 same-time option(s)");
    assert_eq!(lines.len(), 5);
    assert_eq!(
        cli::refresh_line(&base),
        "f26: 5 subjects, source updated 2026-09-08 22:01"
    );
    assert_eq!(
        cli::export_line(3, "data/schedule-1.ics"),
        "Exported 3 events to data/schedule-1.ics"
    );
    assert_eq!(cli::exit_code(SolveStatus::Cancelled), 0);
}

#[test]
fn a_reload_leaves_the_start_to_the_stored_selection() {
    let asked = vec!["A".to_string()];
    assert_eq!(cli::initial_subjects(asked.clone(), false, false), asked);
    assert!(cli::initial_subjects(asked.clone(), true, false).is_empty());
    assert_eq!(cli::initial_subjects(asked.clone(), true, true), asked);
}
