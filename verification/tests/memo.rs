use optimize::ir::{ColRef, Expr, Plan, CmpOp};
use optimize::p4::{canon_on, build_memo, phys_rels, phys_to_ir, rebuild_join, lower_leaf, MExpr, Memo, PhysPlan};

fn leaves(memo: &mut Memo) -> Vec<usize> {
    (0..3).map(|rel| memo.intern(MExpr::Leaf(Plan::Scan { rel })).0).collect()
}

fn jn(l: usize, r: usize) -> MExpr {
    MExpr::Join { l, r, on: canon_on(Vec::new()), filter: None }
}

fn left_deep_memo() -> (Memo, Vec<usize>) {
    let mut memo = Memo { groups: Vec::new() };
    let g = leaves(&mut memo);
    let ab = memo.intern(jn(g[0], g[1])).0;
    memo.intern(jn(ab, g[2]));
    (memo, g)
}

fn total_exprs(memo: &Memo) -> usize {
    memo.groups.iter().map(|g| g.exprs.len()).sum()
}

#[test]
fn intern_dedups_hand_inserted_q11() {
    let mut memo = Memo { groups: Vec::new() };
    let g = leaves(&mut memo);
    assert_eq!(memo.groups.len(), 3, "three leaf groups");

    let (ab, new_ab) = memo.intern(jn(g[0], g[1]));
    let (ba, new_ba) = memo.intern(jn(g[1], g[0]));
    assert_eq!(ab, ba, "commuted join lands in the same group");
    assert!(new_ab && new_ba, "both orientations reported as new");
    assert_eq!(memo.groups.len(), 4, "no duplicate group was born");
    assert_eq!(memo.groups[ab].exprs.len(), 2, "both orientations kept");

    let (again, new_again) = memo.intern(jn(g[0], g[1]));
    assert_eq!(again, ab);
    assert!(!new_again, "re-insert reported as not new");
    assert_eq!(memo.groups[ab].exprs.len(), 2, "duplicate expr deduped");

    let top1 = memo.intern(jn(ab, g[2])).0;
    let bc = memo.intern(jn(g[1], g[2])).0;
    let top2 = memo.intern(jn(g[0], bc)).0;
    assert_eq!(top1, top2, "different shapes of {{0,1,2}} share a group");
    assert_eq!(memo.groups.len(), 6, "groups: 3 leaves + {{0,1}} + {{1,2}} + {{0,1,2}}");
}

#[test]
fn t1_flips_every_join_then_goes_quiet() {
    let mut memo = Memo { groups: Vec::new() };
    let g = leaves(&mut memo);
    let ab = memo.intern(jn(g[0], g[1])).0;
    assert_eq!(memo.groups[ab].exprs.len(), 1);
    assert_eq!(memo.apply_commutativity(), 1, "one new expression");
    assert_eq!(memo.groups.len(), 4, "no new group from T1");
    assert_eq!(memo.groups[ab].exprs.len(), 2, "both orientations present");
    assert_eq!(memo.apply_commutativity(), 0, "T1 goes quiet");
}

#[test]
fn t2_interns_the_inner_group_then_goes_quiet() {
    let (mut memo, _) = left_deep_memo();
    assert_eq!(memo.groups.len(), 5, "3 leaves + {{0,1}} + {{0,1,2}}");
    assert_eq!(memo.apply_associativity(), 2, "inner + outer are new");
    assert_eq!(memo.groups.len(), 6, "exactly one new group: {{1,2}}");
    assert_eq!(memo.apply_associativity(), 0, "T2 goes quiet");
}

#[test]
fn expansion_fixpoint_fills_the_q11_space() {
    let (mut memo, g) = left_deep_memo();
    loop {
        let added = memo.apply_commutativity() + memo.apply_associativity();
        if added == 0 {
            break;
        }
    }
    assert_eq!(memo.groups.len(), 7, "all relation subsets present");
    assert_eq!(total_exprs(&memo), 15, "3 + 3×2 + 6 expressions");
    let root = memo.groups.iter().position(|gr| gr.rels.len() == 3).expect("root group {0,1,2} exists");
    assert_eq!(memo.groups[root].exprs.len(), 6, "root: every 2-way split");
    for id in g {
        assert_eq!(memo.groups[id].exprs.len(), 1, "leaf groups stay single");
    }
}

#[test]
fn reassociation_moves_keys_to_the_join_they_span() {
    let c = |rel, col| ColRef { rel, col };
    let mut memo = Memo { groups: Vec::new() };
    let g = leaves(&mut memo);
    let ab = memo.intern(MExpr::Join { l: g[0], r: g[1], on: canon_on(vec![(c(0, 0), c(1, 0))]), filter: None }).0;
    memo.intern(MExpr::Join { l: ab, r: g[2], on: canon_on(vec![(c(2, 1), c(1, 1))]), filter: None });
    assert_eq!(memo.apply_associativity(), 2);
    let bc = memo.groups.iter().position(|gr| gr.rels == vec![1, 2]).expect("group {1,2}");
    match &memo.groups[bc].exprs[0] {
        MExpr::Join { on, filter, .. } => {
            assert_eq!(*on, vec![(c(1, 1), c(2, 1))], "the key spanning 1 and 2, smaller column first");
            assert!(filter.is_none());
        }
        other => panic!("expected a join, got {other:?}"),
    }
}

#[test]
fn harvest_builds_groups_for_the_join_tree() {
    let c = |rel, col| ColRef { rel, col };
    let plan = Plan::Project {
        input: Box::new(Plan::Join {
            left: Box::new(Plan::Filter {
                input: Box::new(Plan::Scan { rel: 0 }),
                predicate: Expr::Cmp { op: CmpOp::Gt, l: Box::new(Expr::Col(c(0, 1))), r: Box::new(Expr::Int(3)) },
            }),
            right: Box::new(Plan::Scan { rel: 1 }),
            on: vec![(c(1, 0), c(0, 0))],
            filter: None,
        }),
        exprs: vec![Expr::Col(c(0, 0))],
    };
    let mut memo = Memo { groups: Vec::new() };
    let root = build_memo(&plan, &mut memo);
    assert_eq!(memo.groups.len(), 3);
    assert_eq!(memo.groups[root].rels, vec![0, 1]);
    match &memo.groups[root].exprs[0] {
        MExpr::Join { on, .. } => assert_eq!(*on, vec![(c(0, 0), c(1, 0))]),
        other => panic!("expected a join, got {other:?}"),
    }
}

#[test]
fn canon_on_orients_and_sorts_pairs() {
    let c = |rel, col| ColRef { rel, col };
    let on = canon_on(vec![(c(2, 0), c(1, 5)), (c(0, 3), c(1, 0)), (c(1, 0), c(0, 1))]);
    assert_eq!(on, vec![(c(0, 1), c(1, 0)), (c(0, 3), c(1, 0)), (c(1, 5), c(2, 0))]);
}

#[test]
fn physical_plans_render_and_map_back() {
    let c = |rel, col| ColRef { rel, col };
    let p = PhysPlan::SortPhys {
        input: Box::new(PhysPlan::HashJoinPhys {
            build: Box::new(PhysPlan::ScanPhys { rel: 1 }),
            probe: Box::new(PhysPlan::FilterPhys {
                input: Box::new(PhysPlan::ScanPhys { rel: 0 }),
                predicate: Expr::Bool(true),
            }),
            on: vec![(c(0, 0), c(1, 0))],
        }),
        keys: vec![(Expr::Col(c(0, 0)), true)],
    };
    assert_eq!(
        p.to_string(),
        "SortPhys [#0.0 DESC]\n  HashJoinPhys on=[#0.0 = #1.0] (build, probe)\n    ScanPhys #1\n    FilterPhys true\n      ScanPhys #0\n"
    );
    assert_eq!(phys_rels(&p), vec![0, 1]);
    let logical = phys_to_ir(&p);
    assert_eq!(
        logical.to_string(),
        "Sort [#0.0 DESC]\n  Join on=[#0.0 = #1.0]\n    Filter true\n      Scan #0\n    Scan #1\n"
    );
    let nl = PhysPlan::NestedLoopPhys {
        left: Box::new(PhysPlan::ScanPhys { rel: 1 }),
        right: Box::new(PhysPlan::EmptyScanPhys { rels: vec![2, 0, 2] }),
        on: vec![(c(0, 0), c(1, 0))],
        filter: Some(Expr::Bool(false)),
    };
    assert_eq!(
        nl.to_string(),
        "NestedLoopPhys on=[#0.0 = #1.0] filter=false\n  ScanPhys #1\n  EmptyScanPhys [#2, #0, #2]\n"
    );
    assert_eq!(phys_rels(&nl), vec![0, 1, 2]);
    match phys_to_ir(&nl) {
        Plan::Join { on, .. } => assert_eq!(on, vec![(c(1, 0), c(0, 0))], "oriented by the left input"),
        other => panic!("expected a join, got {other:?}"),
    }
    let rebuilt = rebuild_join(Plan::Scan { rel: 3 }, Plan::Scan { rel: 4 }, &vec![(c(4, 1), c(3, 2))], &None);
    assert_eq!(rebuilt.to_string(), "Join on=[#3.2 = #4.1]\n  Scan #3\n  Scan #4\n");
    let leaf = lower_leaf(&Plan::Limit { input: Box::new(Plan::Scan { rel: 0 }), n: 7 });
    assert_eq!(leaf.to_string(), "LimitPhys 7\n  ScanPhys #0\n");
}

#[test]
fn expansion_rounds_reach_the_fixpoint_and_then_add_nothing() {
    let (mut memo, _) = left_deep_memo();
    let mut rounds = 0;
    while memo.expand_round() > 0 {
        rounds += 1;
        assert!(rounds < 10, "the q11 space is finite");
    }
    assert_eq!(total_exprs(&memo), 15);
    let before = total_exprs(&memo);
    assert_eq!(memo.expand_round(), 0);
    assert_eq!(memo.apply_commutativity(), 0);
    assert_eq!(memo.apply_associativity(), 0);
    assert_eq!(total_exprs(&memo), before);
}

#[test]
fn expand_runs_to_the_fixpoint_and_counts_what_it_added() {
    let (mut memo, _) = left_deep_memo();
    let before = total_exprs(&memo);
    let added = memo.expand();
    assert_eq!(total_exprs(&memo), 15);
    assert_eq!(added, 15 - before);
    assert_eq!(memo.expand(), 0, "a second expansion finds nothing");
    assert_eq!(memo.apply_commutativity(), 0);
    assert_eq!(memo.apply_associativity(), 0);
}

#[test]
fn each_round_adds_as_many_expressions_as_it_reports() {
    let (mut memo, _) = left_deep_memo();
    loop {
        let before = total_exprs(&memo);
        let added = memo.expand_round();
        assert_eq!(total_exprs(&memo), before + added);
        if added == 0 {
            break;
        }
    }
}

#[test]
fn a_key_pair_repeated_across_levels_keeps_expansion_growing() {
    // (0 ⋈ 1 on p) ⋈ 2 on p, with p joining relations 0 and 1 at both levels.
    let p = (ColRef { rel: 0, col: 0 }, ColRef { rel: 1, col: 0 });
    let mut memo = Memo { groups: Vec::new() };
    let g = leaves(&mut memo);
    let ab = memo.intern(MExpr::Join { l: g[0], r: g[1], on: vec![p], filter: None }).0;
    memo.intern(MExpr::Join { l: ab, r: g[2], on: vec![p], filter: None });
    let longest = |memo: &Memo| {
        memo.groups
            .iter()
            .flat_map(|gr| gr.exprs.iter())
            .map(|e| match e {
                MExpr::Join { on, .. } => on.len(),
                MExpr::Leaf(_) => 0,
            })
            .max()
            .unwrap_or(0)
    };
    for _ in 0..8 {
        assert!(memo.expand_round() > 0, "every round finds new joins");
    }
    assert!(longest(&memo) >= 3, "key lists keep lengthening: {}", longest(&memo));
}
