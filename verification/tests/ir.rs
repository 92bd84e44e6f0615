use std::hash::{Hash, Hasher};
use optimize::canon::{canon_expr, canonicalize};
use optimize::ir::{CmpOp, ColRef, Expr, Ir, Plan, RelInfo};
use optimize::remap::ColumnRemap;

fn col(rel: usize, col: usize) -> Expr {
    Expr::Col(ColRef { rel, col })
}

fn rel(table: &str) -> RelInfo {
    RelInfo { table: table.into(), qualifier: table.into() }
}

fn cmp(op: CmpOp, l: Expr, r: Expr) -> Expr {
    Expr::Cmp { op, l: Box::new(l), r: Box::new(r) }
}

fn hash_of<T: Hash>(t: &T) -> u64 {
    let mut h = std::collections::hash_map::DefaultHasher::new();
    t.hash(&mut h);
    h.finish()
}

#[test]
fn golden_display_q07_shape() {
    let ir = Ir {
        rels: vec![rel("orders"), rel("lineitem")],
        root: Plan::Project {
            input: Box::new(Plan::Filter {
                input: Box::new(Plan::Join {
                    left: Box::new(Plan::Scan { rel: 0 }),
                    right: Box::new(Plan::Scan { rel: 1 }),
                    on: vec![],
                    filter: None,
                }),
                predicate: Expr::And(vec![
                    Expr::Cmp { op: CmpOp::Eq, l: Box::new(col(0, 0)), r: Box::new(col(1, 0)) },
                    Expr::Cmp { op: CmpOp::Gt, l: Box::new(col(1, 3)), r: Box::new(Expr::Int(30)) },
                ]),
            }),
            exprs: vec![col(0, 0), col(1, 1), col(1, 3)],
        },
    };

    let expected = "\
Project [#0.0, #1.1, #1.3]
  Filter ((#0.0 = #1.0) AND (#1.3 > 30))
    Join on=[]
      Scan #0
      Scan #1
";
    assert_eq!(ir.to_string(), expected);
}

#[test]
fn canonical_equality() {
    let a = cmp(CmpOp::Eq, col(0, 0), col(1, 0));
    let b = cmp(CmpOp::Gt, col(1, 3), Expr::Int(30));

    let x = canon_expr(Expr::And(vec![a.clone(), b.clone()]));
    let y = canon_expr(Expr::And(vec![b, a]));

    assert_eq!(x, y);
    assert_eq!(hash_of(&x), hash_of(&y));
}

#[test]
fn canonical_inequality() {
    let a = cmp(CmpOp::Eq, col(0, 0), col(1, 0));
    let b = cmp(CmpOp::Gt, col(1, 3), Expr::Int(30));

    let x = canon_expr(Expr::Or(vec![a.clone(), b.clone()]));
    let y = canon_expr(Expr::And(vec![b, a]));

    assert_ne!(x, y);
    assert_ne!(hash_of(&x), hash_of(&y));
}

#[test]
fn column_remap_round_trip() {
    let p = |r: usize, c: usize| ColRef { rel: r, col: c };
    let remap = ColumnRemap::from_pairs(vec![(p(0, 0), p(0, 2)), (p(0, 2), p(0, 1)), (p(0, 1), p(0, 0))]);

    let e = Expr::And(vec![
        cmp(CmpOp::Eq, col(0, 0), col(0, 1)),
        cmp(CmpOp::Gt, col(0, 2), Expr::Int(5)),
        cmp(CmpOp::Lt, col(1, 4), Expr::Int(9)),
    ]);

    let there = remap.apply_expr(e.clone());
    assert_ne!(there, e, "permutation must actually move refs");
    let back = remap.inverse().apply_expr(there);
    assert_eq!(back, e, "remap then inverse must be identity");
}

#[test]
fn canonicalize_plan_reaches_predicates() {
    let a = cmp(CmpOp::Eq, col(0, 0), col(1, 0));
    let b = cmp(CmpOp::Gt, col(1, 3), Expr::Int(30));

    let scrambled = Plan::Filter {
        input: Box::new(Plan::Scan { rel: 0 }),
        predicate: Expr::And(vec![b.clone(), a.clone()]),
    };
    let sorted = Plan::Filter {
        input: Box::new(Plan::Scan { rel: 0 }),
        predicate: canon_expr(Expr::And(vec![a, b])),
    };
    assert_eq!(canonicalize(scrambled), sorted);
}

#[test]
fn canonical_idempotent() {
    let a = cmp(CmpOp::Eq, col(0, 0), col(1, 0));
    let b = cmp(CmpOp::Gt, col(1, 3), Expr::Int(30));
    let c = cmp(CmpOp::Ne, col(0, 0), col(2, 3));

    let x = canon_expr(Expr::And(vec![Expr::And(vec![b, a]), c]));

    assert_eq!(canon_expr(x.clone()), x);
}
