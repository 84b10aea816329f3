use language_evolution::error::Failure;
use language_evolution::report::{
    counts_json, languages, percentages, read_counts, report_figures, report_rows, CellFigures,
    Count, Percent,
};

fn strings(v: &[&str]) -> Vec<String> {
    v.iter().map(|s| s.to_string()).collect()
}

fn count(value: i64) -> Option<Count> {
    Some(Count { value, text: value.to_string() })
}

#[test]
fn the_languages_are_typescript_then_javascript() {
    let l = languages();
    assert_eq!(l.len(), 2);
    assert_eq!((l[0].name.as_str(), l[0].extensions.as_str()), ("ts", "ts,tsx"));
    assert_eq!((l[1].name.as_str(), l[1].extensions.as_str()), ("js", "js,jsx"));
}

#[test]
fn counts_json_nests_folders_in_languages() {
    let names = strings(&["ts", "js"]);
    let folders = strings(&["web", "api"]);
    let counts = vec![strings(&["12", "3"]), strings(&["40", "0"])];
    assert_eq!(
        counts_json(&names, &folders, &counts),
        r#"{"ts":{"web":12,"api":3},"js":{"web":40,"api":0}}"#
    );
}

#[test]
fn counts_are_read_back_from_the_json_object() {
    let names = strings(&["ts", "js"]);
    let folders = strings(&["web", "api"]);
    let text = r#"{"ts":{"web":12,"api":3},"js":{"web":40,"api":0}}"#;
    let t = read_counts(text, &names, &folders).ok().unwrap();
    let values: Vec<Vec<Option<i64>>> =
        t.iter().map(|r| r.iter().map(|c| c.as_ref().map(|c| c.value)).collect()).collect();
    assert_eq!(values, vec![vec![Some(12), Some(3)], vec![Some(40), Some(0)]]);
    assert_eq!(t[1][0].as_ref().unwrap().text, "40");
}

#[test]
fn a_missing_count_reads_as_zero_and_a_non_integer_as_none() {
    let names = strings(&["ts", "js"]);
    let folders = strings(&["web"]);
    let t = read_counts(r#"{"ts":{"web":"x"}}"#, &names, &folders).ok().unwrap();
    assert!(t[0][0].is_none());
    let zero = t[1][0].as_ref().unwrap();
    assert_eq!((zero.value, zero.text.as_str()), (0, "0"));
    let t = read_counts(r#"{"ts":{"web":1.5}}"#, &names, &folders).ok().unwrap();
    assert!(t[0][0].is_none());
}

#[test]
fn a_repeated_folder_reads_the_last_count() {
    let names = strings(&["ts"]);
    let folders = strings(&["web", "web"]);
    let text = counts_json(&names, &folders, &vec![strings(&["1", "2"])]);
    let t = read_counts(&text, &names, &folders).ok().unwrap();
    assert_eq!(t[0][0].as_ref().unwrap().value, 2);
    assert_eq!(t[0][1].as_ref().unwrap().value, 2);
}

#[test]
fn invalid_json_is_refused() {
    let names = strings(&["ts"]);
    let folders = strings(&["web"]);
    assert!(matches!(read_counts(r#"{"ts":{"web":}}"#, &names, &folders), Err(Failure::InvalidCountsJson)));
    assert!(matches!(read_counts(r#"{"ts":{"w"eb":1}}"#, &names, &folders), Err(Failure::InvalidCountsJson)));
}

fn previous_fields(line: &str) -> Vec<String> {
    line.split(',').map(|s| s.to_string()).collect()
}

#[test]
fn figures_compare_with_the_last_entry() {
    // counts by language, then folder: ts web 12, ts api 3, js web 40, js api 0
    let counts = vec![vec![count(12), count(3)], vec![count(40), count(0)]];
    let previous = previous_fields("0.1.0,2024-01-01,10,50%,30,50%,0,0%,5,100%");
    let f = report_figures(&counts, &previous, 2).ok().unwrap();
    assert_eq!(
        f[0][0],
        CellFigures { current: 12, previous: 10, difference: 2, folder_total: 52 }
    );
    assert_eq!(
        f[0][1],
        CellFigures { current: 40, previous: 30, difference: 10, folder_total: 52 }
    );
    assert_eq!(f[1][0], CellFigures { current: 3, previous: 0, difference: 0, folder_total: 3 });
    assert_eq!(f[1][1], CellFigures { current: 0, previous: 5, difference: -5, folder_total: 3 });
}

#[test]
fn figures_fail_as_the_tool_does() {
    let counts = vec![vec![count(1)], vec![count(2)]];
    assert_eq!(report_figures(&counts, &previous_fields("only"), 1), Err(Failure::MissingPreviousField));
    assert_eq!(report_figures(&counts, &previous_fields("a,b,1,x"), 1), Err(Failure::MissingPreviousField));
    assert_eq!(report_figures(&counts, &previous_fields("a,b,1,x,y%"), 1), Err(Failure::PreviousValueNotInteger));
    let bad = vec![vec![None], vec![count(2)]];
    assert_eq!(report_figures(&bad, &previous_fields("a,b,1,x,2"), 1), Err(Failure::CountNotInteger));
    let big = vec![vec![count(i64::MAX)], vec![count(1)]];
    assert_eq!(report_figures(&big, &previous_fields("a,b,1,x,2"), 1), Err(Failure::CountTotalOverflow));
    let low = vec![vec![count(i64::MIN)], vec![count(0)]];
    assert_eq!(report_figures(&low, &previous_fields("a,b,1,x,2"), 1), Err(Failure::DifferenceOverflow));
}

#[test]
fn rows_have_the_layout_of_the_log() {
    let folders = strings(&["web", "api"]);
    let names = strings(&["ts", "js"]);
    let counts = vec![vec![count(12), count(3)], vec![count(40), count(0)]];
    let previous = previous_fields("0.1.0,2024-01-01,10,50%,30,50%,0,0%,5,100%");
    let figures = report_figures(&counts, &previous, 2).ok().unwrap();
    let shares = vec![strings(&["23.08%", "76.92%"]), strings(&["100.00%", "0.00%"])];
    let changes = vec![strings(&["20.00%", "33.33%"]), strings(&["100.00%", "100.00%"])];
    let r = report_rows("0.2.0", "2024-02-01", &folders, &names, &previous, &counts, &figures, &shares, &changes);
    assert_eq!(r.folder_header, "Language Count,,web,,,,api,,,");
    assert_eq!(r.language_header, ",,ts,,js,,ts,,js,");
    assert_eq!(r.previous_row, "0.1.0,2024-01-01,10,,30,,0,,5,");
    assert_eq!(r.current_row, "0.2.0,2024-02-01,12,23.08%,40,76.92%,3,100.00%,0,0.00%");
    assert_eq!(r.difference_row, ",,2,,10,,0,,-5,");
    assert_eq!(r.change_row, ",,20.00%,,33.33%,,100.00%,,100.00%,");
    for row in [&r.folder_header, &r.language_header, &r.previous_row, &r.current_row, &r.difference_row, &r.change_row] {
        assert_eq!(row.split(',').count(), 2 + 2 * 2 * 2, "{}", row);
    }
}

#[test]
fn folder_totals_are_sums_and_changes_have_a_base() {
    let counts = vec![vec![count(7), count(0)], vec![count(5), count(9)], vec![count(1), count(2)]];
    let previous = previous_fields("v,d,6,x,0,x,3,x,1,x,0,x,2,x");
    let f = report_figures(&counts, &previous, 2).ok().unwrap();
    for row in &f {
        let sum: i64 = row.iter().map(|c| c.current).sum();
        for c in row {
            assert_eq!(c.folder_total, sum);
            if c.difference != 0 {
                assert_ne!(c.previous, 0);
                assert_eq!(c.difference, c.current - c.previous);
            }
        }
    }
    assert_eq!(f[0][1].difference, 0);
    assert_eq!(f[0][0].difference, 1);
}

#[test]
fn percentages_are_ratios_or_fixed() {
    let counts = vec![vec![count(12), count(0)], vec![count(40), count(0)]];
    let previous = previous_fields("v,d,10,x,30,x,0,x,5,x");
    let f = report_figures(&counts, &previous, 2).ok().unwrap();
    let (shares, changes) = percentages(&f);
    assert_eq!(shares[0][0], Percent::Ratio { part: 12, whole: 52 });
    assert_eq!(changes[0][0], Percent::Ratio { part: 2, whole: 10 });
    assert_eq!(shares[1][0], Percent::Zero);
    assert_eq!(changes[1][1], Percent::Hundred);
    for row in shares.iter().chain(changes.iter()) {
        for p in row {
            if let Percent::Ratio { whole, .. } = p {
                assert_ne!(*whole, 0);
            }
        }
    }
}
