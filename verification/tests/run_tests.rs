use language_evolution::error::Failure;
use language_evolution::run::{Action, Event, Run, Settings, Stage};

fn settings(version: &str, dry_run: bool) -> Settings {
    Settings {
        repo_path: "/r".to_string(),
        folders: "web,api".to_string(),
        version: version.to_string(),
        dry_run,
    }
}

fn command(a: &Action) -> String {
    match a {
        Action::Run(c) => c.clone(),
        _ => panic!("expected a command"),
    }
}

fn out(s: &str) -> Event {
    Event::Output(s.as_bytes().to_vec())
}

fn strings(v: &[&str]) -> Vec<String> {
    v.iter().map(|s| s.to_string()).collect()
}

/// Drives a run up to the percentages; returns it with the commands asked for.
fn run_to_percentages(version: &str, dry_run: bool) -> (Run, Vec<String>) {
    let (mut run, first) = Run::new(settings(version, dry_run), "2024-02-01".to_string());
    let mut asked = vec![command(&first)];
    let mut a = run.step(out(""));
    asked.push(command(&a));
    a = run.step(out("12\n"));
    asked.push(command(&a));
    a = run.step(out("0.1.0,2024-01-01,10,50%,30,50%,0,0%,5,100%\n"));
    for count in ["12\n", "3\n", "40\n"] {
        asked.push(command(&a));
        a = run.step(out(count));
    }
    asked.push(command(&a));
    a = run.step(out("0\n"));
    assert!(matches!(a, Action::Percentages));
    assert_eq!(run.stage, Stage::Percentages);
    (run, asked)
}

#[test]
fn a_full_run_reports_and_appends_three_rows() {
    let (mut run, asked) = run_to_percentages("0.2.0", false);
    assert_eq!(
        asked,
        strings(&[
            "xsv search -s 1 -n \"0.2.0\" /r/TYPESCRIPT_EVOLUTION.csv",
            "xsv count /r/TYPESCRIPT_EVOLUTION.csv",
            "xsv slice -i 10 -n /r/TYPESCRIPT_EVOLUTION.csv",
            "rg --files --type-add 'ts:*{ts,tsx}' -tts /r/web | wc -l",
            "rg --files --type-add 'ts:*{ts,tsx}' -tts /r/api | wc -l",
            "rg --files --type-add 'js:*{js,jsx}' -tjs /r/web | wc -l",
            "rg --files --type-add 'js:*{js,jsx}' -tjs /r/api | wc -l",
        ])
    );
    assert_eq!(run.figures[0][0].folder_total, 52);
    assert_eq!(run.figures[1][1].difference, -5);
    let shares = vec![strings(&["23.08%", "76.92%"]), strings(&["100.00%", "0.00%"])];
    let changes = vec![strings(&["20.00%", "33.33%"]), strings(&["100.00%", "100.00%"])];
    let a = run.step(Event::Percentages(shares, changes));
    match a {
        Action::Show(t) => assert_eq!(
            t,
            "Language Count,,web,,,,api,,,\n,,ts,,js,,ts,,js,\n0.1.0,2024-01-01,10,,30,,0,,5,\n\
             0.2.0,2024-02-01,12,23.08%,40,76.92%,3,100.00%,0,0.00%\n,,2,,10,,0,,-5,\n\
             ,,20.00%,,33.33%,,100.00%,,100.00%,"
        ),
        _ => panic!("expected the report"),
    }
    let mut writes = Vec::new();
    let mut a = run.step(Event::Shown);
    while let Action::Run(c) = a {
        writes.push(c);
        a = run.step(out(""));
    }
    assert!(matches!(a, Action::Finish));
    assert_eq!(
        writes,
        strings(&[
            "sed -i '$d' /r/TYPESCRIPT_EVOLUTION.csv",
            "sed -i '$d' /r/TYPESCRIPT_EVOLUTION.csv",
            "echo '0.2.0,2024-02-01,12,23.08%,40,76.92%,3,100.00%,0,0.00%' >> /r/TYPESCRIPT_EVOLUTION.csv",
            "echo ',,2,,10,,0,,-5,' >> /r/TYPESCRIPT_EVOLUTION.csv",
            "echo ',,20.00%,,33.33%,,100.00%,,100.00%,' >> /r/TYPESCRIPT_EVOLUTION.csv",
        ])
    );
}

#[test]
fn a_dry_run_shows_the_report_and_writes_nothing() {
    let (mut run, _) = run_to_percentages("0.2.0", true);
    let shares = vec![strings(&["a", "b"]), strings(&["c", "d"])];
    let changes = vec![strings(&["e", "f"]), strings(&["g", "h"])];
    assert!(matches!(run.step(Event::Percentages(shares, changes)), Action::Show(_)));
    assert!(matches!(run.step(Event::Shown), Action::Finish));
    assert_eq!(run.stage, Stage::Finished);
}

#[test]
fn a_recorded_version_ends_the_run() {
    let (mut run, _) = Run::new(settings("0.2.0", false), "2024-02-01".to_string());
    match run.step(out("0.2.0,2024-01-01,1\n")) {
        Action::Show(t) => assert_eq!(t, "File already has an entry for version 0.2.0."),
        _ => panic!("expected the message"),
    }
    assert!(matches!(run.step(Event::Shown), Action::Finish));
}

#[test]
fn without_a_version_the_date_is_searched() {
    let (mut run, first) = Run::new(settings("", false), "2024-02-01".to_string());
    assert_eq!(command(&first), "xsv search -s 2 -n \"2024-02-01\" /r/TYPESCRIPT_EVOLUTION.csv");
    match run.step(out("x,2024-02-01\n")) {
        Action::Show(t) => assert_eq!(t, "File already has an entry for date 2024-02-01."),
        _ => panic!("expected the message"),
    }
    assert!(matches!(run.step(Event::Shown), Action::Finish));
}

#[test]
fn an_empty_date_counts_as_recorded() {
    let (_, first) = Run::new(settings("", false), String::new());
    match first {
        Action::Show(t) => assert_eq!(t, "File already has an entry for date ."),
        _ => panic!("expected the message"),
    }
}

#[test]
fn failures_stop_the_run() {
    let (mut run, _) = Run::new(settings("0.2.0", false), "2024-02-01".to_string());
    assert!(matches!(run.step(Event::Output(vec![0xff])), Action::Fail(Failure::OutputNotUtf8)));
    let (mut run, _) = Run::new(settings("0.2.0", false), "2024-02-01".to_string());
    run.step(out(""));
    assert!(matches!(run.step(out("many")), Action::Fail(Failure::RecordCountNotANumber)));
    let (mut run, _) = Run::new(settings("0.2.0", false), "2024-02-01".to_string());
    run.step(out(""));
    run.step(out("12"));
    run.step(out("0.1.0,2024-01-01,10,50%,30,50%,0,0%,5,100%"));
    run.step(out("12"));
    run.step(out("3"));
    run.step(out("40"));
    assert!(matches!(run.step(out("")), Action::Fail(Failure::InvalidCountsJson)));
    assert_eq!(run.stage, Stage::Finished);
}

#[test]
fn the_run_starts_on_the_day_given() {
    let (run, first) = Run::start(settings("", true), 2024, 1, 5);
    assert_eq!(run.date, "2024-01-05");
    assert_eq!(command(&first), "xsv search -s 2 -n \"2024-01-05\" /r/TYPESCRIPT_EVOLUTION.csv");
    assert_eq!(Run::start(settings("", true), 12, 2, 29).0.date, "0012-02-29");
    assert_eq!(Run::start(settings("", true), 10000, 12, 31).0.date, "+10000-12-31");
    assert_eq!(Run::start(settings("", true), -1, 3, 9).0.date, "-0001-03-09");
    assert_eq!(Run::start(settings("", true), 0, 10, 10).0.date, "0000-10-10");
}

#[test]
fn the_last_entry_is_kept_until_the_report() {
    let (run, _) = run_to_percentages("0.2.0", false);
    assert_eq!(
        run.previous,
        strings(&["0.1.0", "2024-01-01", "10", "50%", "30", "50%", "0", "0%", "5", "100%"])
    );
}
