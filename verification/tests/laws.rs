use optimize::canon::canon_expr;
use optimize::ir::{ArithOp, CmpOp, ColRef, Expr};
use optimize::p1::{dedup_expr, fold_expr};
use optimize::remap::ColumnRemap;

fn c(rel: usize, col: usize) -> ColRef {
    ColRef { rel, col }
}

fn col(rel: usize, k: usize) -> Expr {
    Expr::Col(c(rel, k))
}

fn gt(l: Expr, n: i64) -> Expr {
    Expr::Cmp { op: CmpOp::Gt, l: Box::new(l), r: Box::new(Expr::Int(n)) }
}

fn not(e: Expr) -> Expr {
    Expr::Not(Box::new(e))
}

#[test]
fn folding_a_folded_expression_changes_nothing() {
    let sum = Expr::Arith { op: ArithOp::Add, l: Box::new(Expr::Int(20)), r: Box::new(Expr::Int(10)) };
    let e = Expr::And(vec![
        gt(col(0, 1), 3),
        Expr::Cmp { op: CmpOp::Lt, l: Box::new(Expr::Int(1)), r: Box::new(Expr::Int(2)) },
        Expr::Or(vec![gt(col(1, 0), 4), Expr::Bool(false)]),
        Expr::Cmp { op: CmpOp::Gt, l: Box::new(col(0, 2)), r: Box::new(sum) },
    ]);
    let once = fold_expr(e);
    assert_eq!(
        once,
        Expr::And(vec![gt(col(0, 1), 3), gt(col(1, 0), 4), gt(col(0, 2), 30)])
    );
    assert_eq!(fold_expr(once.clone()), once);
}

#[test]
fn removing_redundancy_twice_changes_nothing() {
    let a = gt(col(0, 1), 3);
    let b = gt(col(1, 0), 4);
    let e = Expr::And(vec![a.clone(), not(not(not(b.clone()))), a.clone(), Expr::Or(vec![b.clone(), b.clone()])]);
    let once = dedup_expr(e);
    assert_eq!(once, Expr::And(vec![a, not(b.clone()), b]));
    assert_eq!(dedup_expr(once.clone()), once);
    let nested = not(not(not(not(gt(col(2, 2), 1)))));
    let once = dedup_expr(nested);
    assert_eq!(once, gt(col(2, 2), 1));
    assert_eq!(dedup_expr(once.clone()), once);
}

#[test]
fn nested_conjunctions_canonicalize_like_the_flat_list() {
    let (x, y1, y2, z) = (gt(col(0, 0), 1), gt(col(1, 1), 2), gt(col(0, 3), 5), gt(col(2, 0), 7));
    let nested = Expr::And(vec![x.clone(), Expr::And(vec![y1.clone(), y2.clone()]), z.clone()]);
    let flat = Expr::And(vec![x.clone(), y1.clone(), y2.clone(), z.clone()]);
    assert_eq!(canon_expr(nested), canon_expr(flat));
    let nested = Expr::Or(vec![Expr::Or(vec![z.clone(), x.clone()]), y1.clone()]);
    let flat = Expr::Or(vec![z, x, y1]);
    assert_eq!(canon_expr(nested), canon_expr(flat));
}

#[test]
fn a_remap_round_trips_both_ways_and_the_empty_remap_changes_nothing() {
    let r = ColumnRemap::from_pairs(vec![(c(0, 0), c(1, 2)), (c(1, 2), c(0, 1)), (c(0, 1), c(0, 0))]);
    let e = Expr::And(vec![gt(col(0, 0), 1), Expr::Cmp { op: CmpOp::Eq, l: Box::new(col(1, 2)), r: Box::new(col(0, 1)) }]);
    let inv = r.inverse();
    assert_eq!(inv.apply_expr(r.apply_expr(e.clone())), e);
    assert_eq!(r.apply_expr(inv.apply_expr(e.clone())), e);
    assert_eq!(ColumnRemap::from_pairs(Vec::new()).apply_expr(e.clone()), e);
    for k in [c(0, 0), c(1, 2), c(0, 1)] {
        assert_eq!(inv.get(r.get(k)), k);
        assert_eq!(inv.inverse().get(k), r.get(k));
    }
}
