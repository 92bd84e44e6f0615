use optimize::harness::{diff_report, normalize, QueryFile, RowWork};

fn rows(v: &[&[&str]]) -> Vec<Vec<String>> {
    v.iter().map(|r| r.iter().map(|s| s.to_string()).collect()).collect()
}

#[test]
fn order_by_is_found_in_any_case() {
    let q = |sql: &str| QueryFile { name: "q".to_string(), sql: sql.to_string(), tier: 1 };
    assert!(q("select a from t order by a").has_order_by());
    assert!(q("SELECT a FROM t ORDER BY a").has_order_by());
    assert!(!q("SELECT a FROM t ORDER  BY a").has_order_by());
    assert!(!q("SELECT border FROM t").has_order_by());
}

#[test]
fn normalize_sorts_only_unordered_results() {
    let r = rows(&[&["b", "1"], &["a", "2"], &["a", "10"], &["a"]]);
    assert_eq!(normalize(r.clone(), true), r);
    assert_eq!(normalize(r, false), rows(&[&["a"], &["a", "10"], &["a", "2"], &["b", "1"]]));
}

#[test]
fn unordered_results_compare_as_multisets() {
    let a = rows(&[&["3", "c"], &["1", "a"], &["2", "b"], &["1", "a"]]);
    let b = rows(&[&["1", "a"], &["2", "b"], &["1", "a"], &["3", "c"]]);
    assert_eq!(normalize(a.clone(), false), normalize(b.clone(), false));
    assert_eq!(diff_report("q", &normalize(a.clone(), false), &normalize(b.clone(), false)), None);
    assert_ne!(normalize(a, true), normalize(b, true));
}

#[test]
fn row_work_totals_are_sums_of_the_operators() {
    let mut w = RowWork::default();
    assert_eq!((w.total_rows, w.scan_rows, w.per_operator.len()), (0, 0, 0));
    w.record("ProjectionExec".to_string(), 4);
    w.record("DataSourceExec".to_string(), 10);
    w.record("CsvExec".to_string(), 6);
    let sum: u64 = w.per_operator.iter().map(|(_, r)| r).sum();
    assert_eq!(w.total_rows, sum);
    assert_eq!(w.scan_rows, 16);
}

#[test]
fn diff_report_names_the_first_differences() {
    let a = rows(&[&["1", "x"], &["2", "y"]]);
    assert_eq!(diff_report("q01", &a, &a.clone()), None);

    let b = rows(&[&["1", "x"], &["2", "z"]]);
    let report = diff_report("q01", &a, &b).expect("differs");
    assert_eq!(
        report,
        "q01: MISMATCH — oracle 2 rows, subject 2 rows\n  row 1:\n    oracle:  [\"2\", \"y\"]\n    subject: [\"2\", \"z\"]\n"
    );

    let c = rows(&[&["1", "x"]]);
    let report = diff_report("q02", &a, &c).expect("differs");
    assert_eq!(
        report,
        "q02: MISMATCH — oracle 2 rows, subject 1 rows\n  (rows agree on common prefix; lengths differ)\n  first missing row: [\"2\", \"y\"]\n"
    );
    let report = diff_report("q03", &c, &a).expect("differs");
    assert!(report.ends_with("  first extra row:   [\"2\", \"y\"]\n"));
}

#[test]
fn diff_report_shows_at_most_five_rows() {
    let a: Vec<Vec<String>> = (0..8).map(|i| vec![i.to_string()]).collect();
    let b: Vec<Vec<String>> = (0..8).map(|i| vec![(i + 100).to_string()]).collect();
    let report = diff_report("q", &a, &b).expect("differs");
    assert_eq!(report.matches("  row ").count(), 5);
    assert!(report.contains("  row 4:") && !report.contains("  row 5:"));
}

#[test]
fn row_work_counts_scans_apart() {
    let mut w = RowWork::default();
    w.record("DataSourceExec".to_string(), 100);
    w.record("FilterExec".to_string(), 10);
    w.record("CsvExec".to_string(), 5);
    assert_eq!(w.total_rows, 115);
    assert_eq!(w.scan_rows, 105);
    assert_eq!(w.per_operator, vec![("DataSourceExec".to_string(), 100), ("FilterExec".to_string(), 10), ("CsvExec".to_string(), 5)]);
}
