use optimize::p3::seeded_ping_pong;

#[test]
fn ping_pong_stops_split_exactly_when_the_budget_leaves_two_over_three() {
    for budget in 0..40usize {
        let (tree, _, _) = seeded_ping_pong(budget);
        let split = tree == "Filter (#0.0 > 1)\n  Filter (#0.0 > 2)\n    Scan #0\n";
        let packed = tree == "Filter ((#0.0 > 1) AND (#0.0 > 2))\n  Scan #0\n";
        assert!(split || packed, "budget {budget}:\n{tree}");
        assert_eq!(split, budget % 3 == 2, "budget {budget}");
    }
}
