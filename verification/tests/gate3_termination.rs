use optimize::p3::seeded_ping_pong;

#[test]
fn ping_pong_pair_halts_at_budget_with_diagnostic() {
    let (tree, tripped, report) = seeded_ping_pong(60);

    assert!(tripped, "inverse rules in one class must exhaust the budget");

    assert!(
        report.contains("SPLITAND") && report.contains("MERGEFILTER"),
        "diagnostic must name both rules:\n{report}"
    );
    assert!(
        report.contains("SPLITAND -> MERGEFILTER") || report.contains("MERGEFILTER -> SPLITAND"),
        "the last-firings tail must show the alternation:\n{report}"
    );

    let packed = tree.contains("((#0.0 > 1) AND (#0.0 > 2))");
    let split = tree.contains("Filter (#0.0 > 1)") && tree.contains("Filter (#0.0 > 2)");
    assert!(packed || split, "tree must be one of the two valid forms, never a hybrid:\n{tree}");
}

#[test]
fn generous_budget_changes_nothing_but_the_stop_point() {
    let (tree, tripped, _) = seeded_ping_pong(600);
    assert!(tripped);
    assert!(tree.contains("Scan #0"));
}
