use optimize::bind::bind;
use optimize::ir::{CmpOp, ColRef, Expr, Ir, Plan, RelInfo};
use optimize::opt::{IdentityOptimizer, CascadesOptimizer, Optimizer};
use optimize::p1::HeuristicOptimizer;
use optimize::p3::{rewrite_fixpoint, rewrite_fixpoint_counted, rewrite_fixpoint_reported, seeded_ping_pong};
use optimize::error::{is_todo, OptError};
use optimize::sql::{FromItem, QueryBody, Select, SelectItem, SqlBinOp, SqlExpr, SqlQuery, Statement, TableRef};
use optimize::stats::{OptContext, Stats};

fn ident(s: &str) -> SqlExpr {
    SqlExpr::Ident(s.to_string())
}

fn num(s: &str) -> SqlExpr {
    SqlExpr::Number { text: s.to_string(), float_bits: s.parse::<f64>().ok().map(f64::to_bits) }
}

fn bin(l: SqlExpr, op: SqlBinOp, r: SqlExpr) -> SqlExpr {
    SqlExpr::Binary { left: Box::new(l), op, right: Box::new(r) }
}

fn table(name: &str) -> FromItem {
    FromItem { relation: TableRef::Table { name: Some(name.to_string()), alias: None, has_args: false }, joins: vec![] }
}

fn q07() -> Ir {
    let sel = Select {
        distinct: false,
        top: false,
        having: false,
        group_by: false,
        from: vec![table("orders"), table("lineitem")],
        selection: Some(bin(
            bin(ident("o_orderkey"), SqlBinOp::Eq, ident("l_orderkey")),
            SqlBinOp::And,
            bin(ident("l_quantity"), SqlBinOp::Gt, bin(num("20"), SqlBinOp::Plus, num("10"))),
        )),
        projection: vec![SelectItem::Expr(ident("o_orderkey")), SelectItem::Expr(ident("l_partkey"))],
    };
    let stmt = Statement::Query(SqlQuery { with: false, fetch_or_locks: false, body: QueryBody::Select(sel), order_by: None, limit: None });
    bind(stmt).expect("binds")
}

fn ctx() -> OptContext {
    OptContext { stats: Stats::default() }
}

#[test]
fn fixpoint_rewrite_matches_the_heuristic_passes() {
    let heuristic = HeuristicOptimizer.optimize(q07(), &ctx()).expect("optimizes");
    let fixpoint = rewrite_fixpoint(q07());
    assert_eq!(fixpoint.to_string(), heuristic.to_string());
    assert_eq!(
        fixpoint.to_string(),
        "Project [#0.0, #1.1]\n  Join on=[#0.0 = #1.0]\n    Project [#0.0]\n      Scan #0\n    Filter (#1.3 > 30)\n      Project [#1.0, #1.1, #1.3]\n        Scan #1\n"
    );
}

#[test]
fn fixpoint_counts_its_firings_and_reports_no_trip() {
    let (ir, apps) = rewrite_fixpoint_counted(q07());
    assert_eq!(ir.to_string(), rewrite_fixpoint(q07()).to_string());
    assert!(apps >= 3, "folding, splitting and migrating all fire: {apps}");
    let (_, reports) = rewrite_fixpoint_reported(q07());
    assert!(reports.is_empty());
}

#[test]
fn ping_pong_trips_whatever_the_budget() {
    for budget in [0usize, 1, 2, 3, 7, 60] {
        let (tree, tripped, _) = seeded_ping_pong(budget);
        assert!(tripped, "budget {budget}");
        let packed = tree == "Filter ((#0.0 > 1) AND (#0.0 > 2))\n  Scan #0\n";
        let split = tree == "Filter (#0.0 > 1)\n  Filter (#0.0 > 2)\n    Scan #0\n";
        assert!(packed || split, "budget {budget}:\n{tree}");
    }
}

#[test]
fn trip_report_tallies_each_rule() {
    let (tree, tripped, report) = seeded_ping_pong(7);
    assert!(tripped);
    assert_eq!(tree, "Filter ((#0.0 > 1) AND (#0.0 > 2))\n  Scan #0\n");
    assert_eq!(
        report,
        "rule class 'BROKEN' tripped its budget (7 considerations):\n  MERGEFILTER    considered     5  fired     2\n  SPLITAND       considered     2  fired     2\n  last firings: SPLITAND -> MERGEFILTER -> SPLITAND -> MERGEFILTER"
    );
}

#[test]
fn trip_report_keeps_the_last_six_firings() {
    let (_, _, report) = seeded_ping_pong(60);
    let tail = report.rsplit("last firings: ").next().expect("tail");
    assert_eq!(tail.split(" -> ").count(), 6);
}

#[test]
fn identity_and_stub_optimizers() {
    let ir = q07();
    let text = ir.to_string();
    let out = IdentityOptimizer.optimize(ir, &ctx()).expect("identity");
    assert_eq!(out.to_string(), text);
    assert_eq!(IdentityOptimizer.name(), "identity");
    match CascadesOptimizer.optimize(q07(), &ctx()) {
        Err(e) => {
            assert!(is_todo(&e));
            assert_eq!(e.message(), "not yet implemented: p5 cascades");
        }
        Ok(_) => panic!("cascades is not written yet"),
    }
    assert!(!matches!(OptError::Other("x".to_string()), OptError::Todo(_)));
}

fn select_from(from: Vec<FromItem>, selection: Option<SqlExpr>, projection: Vec<SelectItem>) -> Ir {
    let sel = Select { distinct: false, top: false, having: false, group_by: false, from, selection, projection };
    let stmt = Statement::Query(SqlQuery {
        with: false,
        fetch_or_locks: false,
        body: QueryBody::Select(sel),
        order_by: None,
        limit: None,
    });
    bind(stmt).expect("binds")
}

// SELECT * FROM lineitem WHERE 1 = 0
fn q21() -> Ir {
    select_from(
        vec![table("lineitem")],
        Some(bin(num("1"), SqlBinOp::Eq, num("0"))),
        vec![SelectItem::Wildcard],
    )
}

// SELECT c_name FROM customer, orders, lineitem
//   WHERE c_custkey = o_custkey AND o_orderkey = l_orderkey AND l_quantity > 40
fn q11_shape() -> Ir {
    let conj = bin(
        bin(
            bin(ident("c_custkey"), SqlBinOp::Eq, ident("o_custkey")),
            SqlBinOp::And,
            bin(ident("o_orderkey"), SqlBinOp::Eq, ident("l_orderkey")),
        ),
        SqlBinOp::And,
        bin(ident("l_quantity"), SqlBinOp::Gt, num("40")),
    );
    select_from(
        vec![table("customer"), table("orders"), table("lineitem")],
        Some(conj),
        vec![SelectItem::Expr(ident("c_name"))],
    )
}

#[test]
fn false_filter_folds_to_an_empty_scan_of_its_relations() {
    let folded = optimize::p1::fold_constants(q21());
    assert!(folded.to_string().starts_with("Project ["));
    assert!(folded.to_string().ends_with("  EmptyScan [#0]\n"));
    let heuristic = HeuristicOptimizer.optimize(q21(), &ctx()).expect("optimizes");
    assert!(heuristic.to_string().contains("EmptyScan [#0]"));
    assert!(!heuristic.to_string().contains("Scan #0"));
    assert_eq!(rewrite_fixpoint(q21()).to_string(), heuristic.to_string());
}

#[test]
fn fixpoint_matches_the_heuristic_passes_on_a_three_way_join() {
    let heuristic = HeuristicOptimizer.optimize(q11_shape(), &ctx()).expect("optimizes");
    let fixpoint = rewrite_fixpoint(q11_shape());
    assert_eq!(fixpoint.to_string(), heuristic.to_string());
    assert!(heuristic.to_string().contains("Join on=["));
    assert!(!heuristic.to_string().contains("Join on=[]"));
}

#[test]
fn empty_join_holds_the_sorted_set_of_its_relations() {
    let rel = |t: &str| RelInfo { table: t.to_string(), qualifier: t.to_string() };
    let ir = Ir {
        rels: vec![rel("customer"), rel("orders")],
        root: Plan::Project {
            input: Box::new(Plan::Join {
                left: Box::new(Plan::Scan { rel: 1 }),
                right: Box::new(Plan::Filter {
                    input: Box::new(Plan::Scan { rel: 0 }),
                    predicate: Expr::Cmp { op: CmpOp::Eq, l: Box::new(Expr::Int(1)), r: Box::new(Expr::Int(0)) },
                }),
                on: vec![],
                filter: None,
            }),
            exprs: vec![Expr::Col(ColRef { rel: 1, col: 0 })],
        },
    };
    assert_eq!(rewrite_fixpoint(ir).to_string(), "Project [#1.0]\n  EmptyScan [#0, #1]\n");
}
