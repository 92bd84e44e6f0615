//! Heuristic rewriting: four fixed passes over the IR, applied once in
//! order: constant folding (with empty-scan annihilation), predicate
//! pushdown, projection pruning, and redundancy removal.

use vstd::prelude::*;
use crate::ir::{
    ArithOp, CmpOp, ColRef, Expr, Ir, Plan, SExpr, SPlan, expr_cols, view_expr, view_exprs,
    view_keys, view_opt, view_plan, lemma_view_exprs,
};
use crate::sorting::{sort_dedup, sorted_set, lemma_sorted_set_contains};
use crate::ir::{RelInfo, seq_cols};
use crate::catalog::{columns_for, known_table, table_columns};
use crate::order::expr_eq;
use crate::error::OptError;
use crate::stats::OptContext;
use crate::opt::Optimizer;

verus! {

/// The folded value of integer arithmetic, or `None` when it overflows or
/// divides by zero.
pub open spec fn fold_arith(op: ArithOp, a: i64, b: i64) -> Option<i64> {
    match op {
        ArithOp::Add => a.checked_add(b),
        ArithOp::Sub => a.checked_sub(b),
        ArithOp::Mul => a.checked_mul(b),
        ArithOp::Div => a.checked_div(b),
    }
}

/// The truth of an integer comparison.
pub open spec fn compare_ints(op: CmpOp, a: i64, b: i64) -> bool {
    match op {
        CmpOp::Eq => a == b,
        CmpOp::Ne => a != b,
        CmpOp::Lt => a < b,
        CmpOp::Le => a <= b,
        CmpOp::Gt => a > b,
        CmpOp::Ge => a >= b,
    }
}

pub open spec fn is_false(e: SExpr) -> bool {
    e == SExpr::Bool(false)
}

pub open spec fn is_true(e: SExpr) -> bool {
    e == SExpr::Bool(true)
}

/// Constant folding: integer arithmetic and comparisons on literals are
/// evaluated (arithmetic only when it neither overflows nor divides by
/// zero), NOT of a literal is negated, and conjunctions/disjunctions absorb
/// their literal children.
pub open spec fn fold(e: SExpr) -> SExpr
    decreases e, 0nat,
{
    match e {
        SExpr::Arith { op, l, r } => {
            let l2 = fold(*l);
            let r2 = fold(*r);
            match (l2, r2) {
                (SExpr::Int(a), SExpr::Int(b)) => match fold_arith(op, a, b) {
                    Some(n) => SExpr::Int(n),
                    None => SExpr::Arith { op, l: Box::new(l2), r: Box::new(r2) },
                },
                _ => SExpr::Arith { op, l: Box::new(l2), r: Box::new(r2) },
            }
        },
        SExpr::Cmp { op, l, r } => {
            let l2 = fold(*l);
            let r2 = fold(*r);
            match (l2, r2) {
                (SExpr::Int(a), SExpr::Int(b)) => SExpr::Bool(compare_ints(op, a, b)),
                _ => SExpr::Cmp { op, l: Box::new(l2), r: Box::new(r2) },
            }
        },
        SExpr::Not(x) => match fold(*x) {
            SExpr::Bool(b) => SExpr::Bool(!b),
            other => SExpr::Not(Box::new(other)),
        },
        SExpr::And(cs) => {
            let cs2 = fold_seq(cs);
            if cs2.contains(SExpr::Bool(false)) {
                SExpr::Bool(false)
            } else {
                let kept = cs2.filter(|c: SExpr| !is_true(c));
                if kept.len() == 0 {
                    SExpr::Bool(true)
                } else if kept.len() == 1 {
                    kept[0]
                } else {
                    SExpr::And(kept)
                }
            }
        },
        SExpr::Or(cs) => {
            let cs2 = fold_seq(cs);
            if cs2.contains(SExpr::Bool(true)) {
                SExpr::Bool(true)
            } else {
                let kept = cs2.filter(|c: SExpr| !is_false(c));
                if kept.len() == 0 {
                    SExpr::Bool(false)
                } else if kept.len() == 1 {
                    kept[0]
                } else {
                    SExpr::Or(kept)
                }
            }
        },
        _ => e,
    }
}

/// What a filter keeps comes from the sequence.
proof fn lemma_filter_from<A>(s: Seq<A>, pred: spec_fn(A) -> bool)
    ensures
        forall|i: int| 0 <= i < s.filter(pred).len() ==> s.contains(#[trigger] s.filter(pred)[i]),
    decreases s.len(),
{
    reveal(Seq::filter);
    if s.len() > 0 {
        let init = s.drop_last();
        lemma_filter_from(init, pred);
        let f = s.filter(pred);
        assert forall|i: int| 0 <= i < f.len() implies s.contains(#[trigger] f[i]) by {
            let g = init.filter(pred);
            if i < g.len() {
                assert(f[i] == g[i]);
                let k = choose|k: int| 0 <= k < init.len() && init[k] == g[i];
                assert(s[k] == init[k]);
            } else {
                assert(f[i] == s.last());
                assert(s[s.len() - 1] == s.last());
            }
        }
    }
}

/// A filter keeps a sequence whole when every element passes it.
proof fn lemma_filter_all<A>(s: Seq<A>, pred: spec_fn(A) -> bool)
    requires
        forall|i: int| 0 <= i < s.len() ==> pred(#[trigger] s[i]),
    ensures
        s.filter(pred) == s,
    decreases s.len(),
{
    reveal(Seq::filter);
    if s.len() > 0 {
        let init = s.drop_last();
        assert forall|i: int| 0 <= i < init.len() implies pred(#[trigger] init[i]) by {
            assert(init[i] == s[i]);
        }
        lemma_filter_all(init, pred);
        assert(pred(s[s.len() - 1]));
        assert(init.push(s.last()) =~= s);
    }
}

/// Constant folding is idempotent: folding a folded expression changes
/// nothing.
pub proof fn lemma_fold_idempotent(e: SExpr)
    ensures
        fold(fold(e)) == fold(e),
    decreases e,
{
    match e {
        SExpr::Arith { op, l, r } => {
            lemma_fold_idempotent(*l);
            lemma_fold_idempotent(*r);
        },
        SExpr::Cmp { op, l, r } => {
            lemma_fold_idempotent(*l);
            lemma_fold_idempotent(*r);
        },
        SExpr::Not(x) => {
            lemma_fold_idempotent(*x);
        },
        SExpr::And(cs) => {
            lemma_fold_seq(cs);
            let cs2 = fold_seq(cs);
            assert forall|i: int| 0 <= i < cs.len() implies fold(#[trigger] cs2[i]) == cs2[i] by {
                lemma_fold_idempotent(cs[i]);
            }
            if !cs2.contains(SExpr::Bool(false)) {
                let pred = |c: SExpr| !is_true(c);
                let kept = cs2.filter(pred);
                lemma_filter_from(cs2, pred);
                #[allow(deprecated)]
                cs2.filter_lemma(pred);
                assert forall|i: int| 0 <= i < kept.len() implies fold(#[trigger] kept[i]) == kept[i] by {
                    let k = choose|k: int| 0 <= k < cs2.len() && cs2[k] == kept[i];
                }
                if kept.len() >= 2 {
                    lemma_fold_seq(kept);
                    assert(fold_seq(kept) =~= kept);
                    assert(!kept.contains(SExpr::Bool(false))) by {
                        if kept.contains(SExpr::Bool(false)) {
                            let i = choose|i: int| 0 <= i < kept.len() && kept[i] == SExpr::Bool(false);
                            let k = choose|k: int| 0 <= k < cs2.len() && cs2[k] == kept[i];
                        }
                    }
                    assert forall|i: int| 0 <= i < kept.len() implies pred(#[trigger] kept[i]) by {}
                    lemma_filter_all(kept, pred);
                }
            }
        },
        SExpr::Or(cs) => {
            lemma_fold_seq(cs);
            let cs2 = fold_seq(cs);
            assert forall|i: int| 0 <= i < cs.len() implies fold(#[trigger] cs2[i]) == cs2[i] by {
                lemma_fold_idempotent(cs[i]);
            }
            if !cs2.contains(SExpr::Bool(true)) {
                let pred = |c: SExpr| !is_false(c);
                let kept = cs2.filter(pred);
                lemma_filter_from(cs2, pred);
                #[allow(deprecated)]
                cs2.filter_lemma(pred);
                assert forall|i: int| 0 <= i < kept.len() implies fold(#[trigger] kept[i]) == kept[i] by {
                    let k = choose|k: int| 0 <= k < cs2.len() && cs2[k] == kept[i];
                }
                if kept.len() >= 2 {
                    lemma_fold_seq(kept);
                    assert(fold_seq(kept) =~= kept);
                    assert(!kept.contains(SExpr::Bool(true))) by {
                        if kept.contains(SExpr::Bool(true)) {
                            let i = choose|i: int| 0 <= i < kept.len() && kept[i] == SExpr::Bool(true);
                            let k = choose|k: int| 0 <= k < cs2.len() && cs2[k] == kept[i];
                        }
                    }
                    assert forall|i: int| 0 <= i < kept.len() implies pred(#[trigger] kept[i]) by {}
                    lemma_filter_all(kept, pred);
                }
            }
        },
        _ => {},
    }
}

/// `fold` on every element.
pub open spec fn fold_seq(s: Seq<SExpr>) -> Seq<SExpr>
    decreases s, 1nat,
{
    if s.len() == 0 {
        Seq::empty()
    } else {
        fold_seq(s.drop_last()).push(fold(s.last()))
    }
}

proof fn lemma_fold_seq(s: Seq<SExpr>)
    ensures
        fold_seq(s).len() == s.len(),
        forall|i: int| 0 <= i < s.len() ==> #[trigger] fold_seq(s)[i] == fold(s[i]),
    decreases s.len(),
{
    if s.len() > 0 {
        lemma_fold_seq(s.drop_last());
    }
}

/// Folding evaluates a comparison whose operands fold to integer
/// literals `a` and `b`: the result is the literal truth of that comparison
/// on the two integers. So swapping the operands of `<` gives `>` (and of
/// `<=` gives `>=`), and `!=`, `>=`, `>` are the negations of `=`, `<`,
/// `<=`.
pub proof fn lemma_fold_compares_literals(l: SExpr, r: SExpr, a: i64, b: i64)
    requires
        fold(l) == SExpr::Int(a),
        fold(r) == SExpr::Int(b),
    ensures
        fold(SExpr::Cmp { op: CmpOp::Eq, l: Box::new(l), r: Box::new(r) }) == SExpr::Bool(a == b),
        fold(SExpr::Cmp { op: CmpOp::Ne, l: Box::new(l), r: Box::new(r) }) == SExpr::Bool(a != b),
        fold(SExpr::Cmp { op: CmpOp::Lt, l: Box::new(l), r: Box::new(r) }) == SExpr::Bool(a < b),
        fold(SExpr::Cmp { op: CmpOp::Le, l: Box::new(l), r: Box::new(r) }) == SExpr::Bool(a <= b),
        fold(SExpr::Cmp { op: CmpOp::Gt, l: Box::new(l), r: Box::new(r) }) == SExpr::Bool(a > b),
        fold(SExpr::Cmp { op: CmpOp::Ge, l: Box::new(l), r: Box::new(r) }) == SExpr::Bool(a >= b),
        fold(SExpr::Cmp { op: CmpOp::Gt, l: Box::new(l), r: Box::new(r) }) == fold(
            SExpr::Cmp { op: CmpOp::Lt, l: Box::new(r), r: Box::new(l) },
        ),
        fold(SExpr::Cmp { op: CmpOp::Ge, l: Box::new(l), r: Box::new(r) }) == fold(
            SExpr::Cmp { op: CmpOp::Le, l: Box::new(r), r: Box::new(l) },
        ),
        fold(SExpr::Cmp { op: CmpOp::Ne, l: Box::new(l), r: Box::new(r) }) == fold(
            SExpr::Not(Box::new(SExpr::Cmp { op: CmpOp::Eq, l: Box::new(l), r: Box::new(r) })),
        ),
        fold(SExpr::Cmp { op: CmpOp::Ge, l: Box::new(l), r: Box::new(r) }) == fold(
            SExpr::Not(Box::new(SExpr::Cmp { op: CmpOp::Lt, l: Box::new(l), r: Box::new(r) })),
        ),
        fold(SExpr::Cmp { op: CmpOp::Gt, l: Box::new(l), r: Box::new(r) }) == fold(
            SExpr::Not(Box::new(SExpr::Cmp { op: CmpOp::Le, l: Box::new(l), r: Box::new(r) })),
        ),
{
}

fn arith_fold_exec(op: ArithOp, a: i64, b: i64) -> (r: Option<i64>)
    ensures
        r == fold_arith(op, a, b),
{
    match op {
        ArithOp::Add => a.checked_add(b),
        ArithOp::Sub => a.checked_sub(b),
        ArithOp::Mul => a.checked_mul(b),
        ArithOp::Div => a.checked_div(b),
    }
}

fn compare_ints_exec(op: CmpOp, a: i64, b: i64) -> (r: bool)
    ensures
        r == compare_ints(op, a, b),
{
    match op {
        CmpOp::Eq => a == b,
        CmpOp::Ne => a != b,
        CmpOp::Lt => a < b,
        CmpOp::Le => a <= b,
        CmpOp::Gt => a > b,
        CmpOp::Ge => a >= b,
    }
}

/// Constant folding of an expression (see `fold`).
pub fn fold_expr(e: Expr) -> (r: Expr)
    ensures
        r@ == fold(e@),
    decreases e,
{
    match e {
        Expr::Arith { op, l, r } => {
            let l = fold_expr(*l);
            let r = fold_expr(*r);
            let folded = match (&l, &r) {
                (Expr::Int(a), Expr::Int(b)) => arith_fold_exec(op, *a, *b),
                _ => None,
            };
            match folded {
                Some(n) => Expr::Int(n),
                None => Expr::Arith { op, l: Box::new(l), r: Box::new(r) },
            }
        },
        Expr::Cmp { op, l, r } => {
            let l = fold_expr(*l);
            let r = fold_expr(*r);
            match (&l, &r) {
                (Expr::Int(a), Expr::Int(b)) => Expr::Bool(compare_ints_exec(op, *a, *b)),
                _ => Expr::Cmp { op, l: Box::new(l), r: Box::new(r) },
            }
        },
        Expr::Not(inner) => match fold_expr(*inner) {
            Expr::Bool(b) => Expr::Bool(!b),
            other => Expr::Not(Box::new(other)),
        },
        Expr::And(cs) => fold_list(cs, true),
        Expr::Or(cs) => fold_list(cs, false),
        leaf => leaf,
    }
}

/// Folds the children of a conjunction (`is_and`) or disjunction.
#[verifier::loop_isolation(false)]
fn fold_list(cs: Vec<Expr>, is_and: bool) -> (r: Expr)
    ensures
        is_and ==> r@ == fold(SExpr::And(view_exprs(cs@))),
        !is_and ==> r@ == fold(SExpr::Or(view_exprs(cs@))),
    decreases cs,
{
    let ghost orig = cs@;
    let ghost vc = cs;
    let ghost ov = view_exprs(cs@);
    let n = cs.len();
    proof {
        lemma_view_exprs(cs@);
        lemma_fold_seq(ov);
    }
    let mut rest = cs;
    let mut folded: Vec<Expr> = Vec::new();
    let mut i: usize = 0;
    // the absorbing literal: false for a conjunction, true for a disjunction
    let mut absorbed = false;
    while rest.len() > 0
        invariant
            orig.len() == n,
            vc@ == orig,
            i <= n,
            rest@ == orig.skip(i as int),
            folded@.len() == i,
            forall|j: int| 0 <= j < i ==> #[trigger] view_expr(folded@[j]) == fold(ov[j]),
            absorbed == fold_seq(ov.take(i as int)).contains(SExpr::Bool(!is_and)),
        decreases rest.len(),
    {
        let c = rest.remove(0);
        proof {
            assert(c == orig[i as int]);
            assert(orig.skip(i as int).remove(0) =~= orig.skip(i + 1));
            assert(decreases_to!(vc => vc[i as int]));
        }
        let f = fold_expr(c);
        let hit = match &f {
            Expr::Bool(b) => *b != is_and,
            _ => false,
        };
        if hit {
            absorbed = true;
        }
        let ghost fv = f@;
        folded.push(f);
        proof {
            let pre = fold_seq(ov.take(i as int));
            assert(ov.take(i + 1).drop_last() =~= ov.take(i as int));
            assert(fold_seq(ov.take(i + 1)) == pre.push(fv));
            assert(hit <==> fv == SExpr::Bool(!is_and));
            assert(pre.push(fv).contains(SExpr::Bool(!is_and)) <==> (pre.contains(SExpr::Bool(!is_and)) || fv == SExpr::Bool(!is_and))) by {
                if pre.push(fv).contains(SExpr::Bool(!is_and)) {
                    let t = choose|t: int| 0 <= t < pre.push(fv).len() && pre.push(fv)[t] == SExpr::Bool(!is_and);
                    if t < pre.len() {
                        assert(pre[t] == SExpr::Bool(!is_and));
                    }
                }
                if pre.contains(SExpr::Bool(!is_and)) {
                    let t = choose|t: int| 0 <= t < pre.len() && pre[t] == SExpr::Bool(!is_and);
                    assert(pre.push(fv)[t] == SExpr::Bool(!is_and));
                }
                if fv == SExpr::Bool(!is_and) {
                    assert(pre.push(fv)[pre.len() as int] == SExpr::Bool(!is_and));
                }
            }
        }
        i = i + 1;
    }
    let ghost fs = fold_seq(ov);
    proof {
        lemma_view_exprs(folded@);
        assert(view_exprs(folded@) =~= fs);
    }
    proof {
        assert(ov.take(i as int) =~= ov);
    }
    if absorbed {
        return Expr::Bool(!is_and);
    }
    // keep the children that are not the neutral literal
    let mut kept: Vec<Expr> = Vec::new();
    let mut rest = folded;
    let ghost fe = rest@;
    let mut k: usize = 0;
    let ghost pred = |c: SExpr| if is_and { !is_true(c) } else { !is_false(c) };
    while rest.len() > 0
        invariant
            fe.len() == n,
            k <= n,
            rest@ == fe.skip(k as int),
            view_exprs(fe) == fs,
            view_exprs(kept@) == view_exprs(fe.take(k as int)).filter(pred),
        decreases rest.len(),
    {
        let c = rest.remove(0);
        proof {
            assert(c == fe[k as int]);
            assert(fe.skip(k as int).remove(0) =~= fe.skip(k + 1));
            lemma_view_exprs(fe.take(k + 1));
            lemma_view_exprs(fe.take(k as int));
            assert(view_exprs(fe.take(k + 1)) == view_exprs(fe.take(k as int)).push(c@)) by {
                assert(fe.take(k + 1).drop_last() =~= fe.take(k as int));
            }
            view_exprs(fe.take(k as int)).lemma_filter_push(c@, pred);
        }
        let neutral = match &c {
            Expr::Bool(b) => *b == is_and,
            _ => false,
        };
        if !neutral {
            let ghost before = view_exprs(kept@);
            proof {
                lemma_view_exprs(kept@);
            }
            kept.push(c);
            proof {
                lemma_view_exprs(kept@);
                assert(view_exprs(kept@) =~= before.push(c@));
            }
        }
        k = k + 1;
    }
    proof {
        assert(fe.take(k as int) =~= fe);
        lemma_view_exprs(kept@);
        if is_and {
            assert(pred =~= (|c: SExpr| !is_true(c)));
        } else {
            assert(pred =~= (|c: SExpr| !is_false(c)));
        }
    }
    if kept.len() == 0 {
        Expr::Bool(is_and)
    } else if kept.len() == 1 {
        kept.pop().unwrap()
    } else if is_and {
        Expr::And(kept)
    } else {
        Expr::Or(kept)
    }
}

/// The base relations under a plan. A join sorts and deduplicates the
/// relations of its two sides; other nodes keep their input's list.
pub open spec fn rels_of(p: SPlan) -> Seq<usize>
    decreases p,
{
    match p {
        SPlan::Scan { rel } => seq![rel],
        SPlan::EmptyScan { rels } => rels,
        SPlan::Filter { input, .. } => rels_of(*input),
        SPlan::Project { input, .. } => rels_of(*input),
        SPlan::Sort { input, .. } => rels_of(*input),
        SPlan::Limit { input, .. } => rels_of(*input),
        SPlan::Join { left, right, .. } => sorted_set(rels_of(*left) + rels_of(*right)),
    }
}

/// A copy of a vector of indices.
pub fn copy_usizes(v: &Vec<usize>) -> (r: Vec<usize>)
    ensures
        r@ == v@,
{
    let mut r: Vec<usize> = Vec::new();
    let mut i: usize = 0;
    while i < v.len()
        invariant
            i <= v@.len(),
            r@ == v@.take(i as int),
        decreases v.len() - i,
    {
        r.push(v[i]);
        i = i + 1;
        proof {
            assert(r@ =~= v@.take(i as int));
        }
    }
    proof {
        assert(r@ =~= v@);
    }
    r
}

/// The base relations under a plan (see `rels_of`).
pub fn plan_rels(p: &Plan) -> (r: Vec<usize>)
    ensures
        r@ == rels_of(p@),
    decreases p,
{
    match p {
        Plan::Scan { rel } => {
            let mut v: Vec<usize> = Vec::new();
            v.push(*rel);
            proof {
                assert(v@ =~= seq![*rel]);
            }
            v
        },
        Plan::EmptyScan { rels } => copy_usizes(rels),
        Plan::Filter { input, .. } => plan_rels(input),
        Plan::Project { input, .. } => plan_rels(input),
        Plan::Sort { input, .. } => plan_rels(input),
        Plan::Limit { input, .. } => plan_rels(input),
        Plan::Join { left, right, .. } => {
            let mut a = plan_rels(left);
            let mut b = plan_rels(right);
            a.append(&mut b);
            sort_dedup(a)
        },
    }
}

pub open spec fn is_empty_scan(p: SPlan) -> bool {
    p is EmptyScan
}

/// Constant folding of a plan: every expression is folded; a filter whose
/// predicate folds to false becomes an empty scan over its input's
/// relations; a sort or limit over an empty scan is that empty scan; an
/// inner join with an empty side becomes an empty scan over both sides'
/// relations.
pub open spec fn fold_plan_spec(p: SPlan) -> SPlan
    decreases p,
{
    match p {
        SPlan::Scan { rel } => SPlan::Scan { rel },
        SPlan::EmptyScan { rels } => SPlan::EmptyScan { rels },
        SPlan::Filter { input, predicate } => {
            let input2 = fold_plan_spec(*input);
            let pred2 = fold(predicate);
            if pred2 == SExpr::Bool(false) {
                SPlan::EmptyScan { rels: rels_of(input2) }
            } else {
                SPlan::Filter { input: Box::new(input2), predicate: pred2 }
            }
        },
        SPlan::Project { input, exprs } => SPlan::Project {
            input: Box::new(fold_plan_spec(*input)),
            exprs: exprs.map_values(|e: SExpr| fold(e)),
        },
        SPlan::Sort { input, keys } => {
            let input2 = fold_plan_spec(*input);
            if is_empty_scan(input2) {
                input2
            } else {
                SPlan::Sort {
                    input: Box::new(input2),
                    keys: keys.map_values(|k: (SExpr, bool)| (fold(k.0), k.1)),
                }
            }
        },
        SPlan::Join { left, right, on, filter } => {
            let l2 = fold_plan_spec(*left);
            let r2 = fold_plan_spec(*right);
            if is_empty_scan(l2) || is_empty_scan(r2) {
                SPlan::EmptyScan { rels: sorted_set(rels_of(l2) + rels_of(r2)) }
            } else {
                SPlan::Join {
                    left: Box::new(l2),
                    right: Box::new(r2),
                    on,
                    filter: match filter {
                        Some(f) => Some(fold(f)),
                        None => None,
                    },
                }
            }
        },
        SPlan::Limit { input, n } => {
            let input2 = fold_plan_spec(*input);
            if is_empty_scan(input2) {
                input2
            } else {
                SPlan::Limit { input: Box::new(input2), n }
            }
        },
    }
}

/// `fold_expr` on every element.
pub fn fold_exprs(v: Vec<Expr>) -> (r: Vec<Expr>)
    ensures
        view_exprs(r@) == view_exprs(v@).map_values(|e: SExpr| fold(e)),
{
    let ghost orig = v@;
    proof {
        lemma_view_exprs(v@);
    }
    let n = v.len();
    let mut rest = v;
    let mut r: Vec<Expr> = Vec::new();
    let mut i: usize = 0;
    while rest.len() > 0
        invariant
            orig.len() == n,
            i <= n,
            rest@ == orig.skip(i as int),
            r@.len() == i,
            forall|j: int| 0 <= j < i ==> #[trigger] view_expr(r@[j]) == fold(view_expr(orig[j])),
        decreases rest.len(),
    {
        let c = rest.remove(0);
        proof {
            assert(c == orig[i as int]);
            assert(orig.skip(i as int).remove(0) =~= orig.skip(i + 1));
        }
        r.push(fold_expr(c));
        i = i + 1;
    }
    proof {
        lemma_view_exprs(r@);
        lemma_view_exprs(orig);
        assert(view_exprs(r@) =~= view_exprs(orig).map_values(|e: SExpr| fold(e)));
    }
    r
}

/// `fold_expr` on the expression of every sort key.
pub fn fold_keys(v: Vec<(Expr, bool)>) -> (r: Vec<(Expr, bool)>)
    ensures
        view_keys(r@) == view_keys(v@).map_values(|k: (SExpr, bool)| (fold(k.0), k.1)),
{
    let ghost ks = v@;
    let n = v.len();
    let mut rest = v;
    let mut out: Vec<(Expr, bool)> = Vec::new();
    let mut i: usize = 0;
    while rest.len() > 0
        invariant
            ks.len() == n,
            i <= n,
            rest@ == ks.skip(i as int),
            out@.len() == i,
            forall|j: int|
                0 <= j < i ==> #[trigger] view_expr(out@[j].0) == fold(view_expr(ks[j].0))
                    && out@[j].1 == ks[j].1,
        decreases rest.len(),
    {
        let (e, d) = rest.remove(0);
        proof {
            assert(ks.skip(i as int).remove(0) =~= ks.skip(i + 1));
        }
        out.push((fold_expr(e), d));
        i = i + 1;
    }
    proof {
        assert(view_keys(out@) =~= view_keys(ks).map_values(|k: (SExpr, bool)| (fold(k.0), k.1)));
    }
    out
}

/// Constant folding of a plan (see `fold_plan_spec`).
pub fn fold_plan(p: Plan) -> (r: Plan)
    ensures
        r@ == fold_plan_spec(p@),
    decreases p,
{
    match p {
        Plan::Scan { rel } => Plan::Scan { rel },
        Plan::EmptyScan { rels } => Plan::EmptyScan { rels },
        Plan::Filter { input, predicate } => {
            let input = fold_plan(*input);
            let predicate = fold_expr(predicate);
            if matches!(predicate, Expr::Bool(false)) {
                Plan::EmptyScan { rels: plan_rels(&input) }
            } else {
                Plan::Filter { input: Box::new(input), predicate }
            }
        },
        Plan::Project { input, exprs } => Plan::Project {
            input: Box::new(fold_plan(*input)),
            exprs: fold_exprs(exprs),
        },
        Plan::Sort { input, keys } => {
            let input = fold_plan(*input);
            if matches!(input, Plan::EmptyScan { .. }) {
                input
            } else {
                Plan::Sort { input: Box::new(input), keys: fold_keys(keys) }
            }
        },
        Plan::Join { left, right, on, filter } => {
            let left = fold_plan(*left);
            let right = fold_plan(*right);
            let filter = match filter {
                Some(f) => Some(fold_expr(f)),
                None => None,
            };
            if matches!(left, Plan::EmptyScan { .. }) || matches!(right, Plan::EmptyScan { .. }) {
                let mut rels = plan_rels(&left);
                let mut more = plan_rels(&right);
                rels.append(&mut more);
                Plan::EmptyScan { rels: sort_dedup(rels) }
            } else {
                Plan::Join { left: Box::new(left), right: Box::new(right), on, filter }
            }
        },
        Plan::Limit { input, n } => {
            let input = fold_plan(*input);
            if matches!(input, Plan::EmptyScan { .. }) {
                input
            } else {
                Plan::Limit { input: Box::new(input), n }
            }
        },
    }
}

/// Constant folding of a whole query (see `fold_plan_spec`).
pub fn fold_constants(ir: Ir) -> (r: Ir)
    ensures
        r.root@ == fold_plan_spec(ir.root@),
        r.rels == ir.rels,
{
    Ir { root: fold_plan(ir.root), rels: ir.rels }
}

/// The column references of an expression, left to right (see `expr_cols`).
pub fn free_cols(e: &Expr) -> (r: Vec<ColRef>)
    ensures
        r@ == expr_cols(e@),
    decreases e,
{
    match e {
        Expr::Col(c) => {
            let mut v: Vec<ColRef> = Vec::new();
            v.push(*c);
            proof {
                assert(v@ =~= seq![*c]);
            }
            v
        },
        Expr::Not(inner) => free_cols(inner),
        Expr::Cmp { l, r, .. } => {
            let mut a = free_cols(l);
            let mut b = free_cols(r);
            a.append(&mut b);
            a
        },
        Expr::Arith { l, r, .. } => {
            let mut a = free_cols(l);
            let mut b = free_cols(r);
            a.append(&mut b);
            a
        },
        Expr::And(cs) => free_cols_all(cs),
        Expr::Or(cs) => free_cols_all(cs),
        _ => {
            let v: Vec<ColRef> = Vec::new();
            proof {
                assert(v@ =~= Seq::<ColRef>::empty());
            }
            v
        },
    }
}

fn free_cols_all(cs: &Vec<Expr>) -> (r: Vec<ColRef>)
    ensures
        r@ == crate::ir::seq_cols(view_exprs(cs@)),
    decreases cs,
{
    let ghost vs = view_exprs(cs@);
    proof {
        lemma_view_exprs(cs@);
    }
    let mut res: Vec<ColRef> = Vec::new();
    let mut i: usize = 0;
    while i < cs.len()
        invariant
            i <= cs@.len(),
            vs == view_exprs(cs@),
            vs.len() == cs@.len(),
            forall|j: int| 0 <= j < cs@.len() ==> #[trigger] vs[j] == view_expr(cs@[j]),
            res@ == crate::ir::seq_cols(vs.take(i as int)),
        decreases cs.len() - i,
    {
        proof {
            assert(decreases_to!(cs => cs[i as int]));
            assert(vs.take(i + 1).drop_last() =~= vs.take(i as int));
        }
        let mut more = free_cols(&cs[i]);
        res.append(&mut more);
        i = i + 1;
    }
    proof {
        assert(vs.take(i as int) =~= vs);
    }
    res
}

/// Whether `x` occurs in `v`.
pub fn contains_usize(v: &Vec<usize>, x: usize) -> (r: bool)
    ensures
        r == v@.contains(x),
{
    let mut i: usize = 0;
    while i < v.len()
        invariant
            i <= v@.len(),
            forall|j: int| 0 <= j < i ==> v@[j] != x,
        decreases v.len() - i,
    {
        if v[i] == x {
            return true;
        }
        i = i + 1;
    }
    false
}

/// Where one conjunct belongs relative to a join.
#[derive(Debug, Clone, Copy, PartialEq, Eq, Structural)]
pub enum ConjunctClass {
    /// No free columns, or columns on both sides that do not form a key.
    Stuck,
    /// Every free column is on the left input.
    Left,
    /// Every free column is on the right input.
    Right,
    /// An equality of a left column and a right column: a join key,
    /// oriented (left column, right column).
    Key(ColRef, ColRef),
}

/// Every column of `cols` belongs to one of `rels`.
pub open spec fn all_in(cols: Seq<ColRef>, rels: Seq<usize>) -> bool {
    forall|i: int| 0 <= i < cols.len() ==> rels.contains(#[trigger] cols[i].rel)
}

/// The class of a conjunct against a join's left and right relations. The
/// right side is tested before the left.
pub open spec fn classify(c: SExpr, lr: Seq<usize>, rr: Seq<usize>) -> ConjunctClass {
    let needs = expr_cols(c);
    if needs.len() == 0 {
        ConjunctClass::Stuck
    } else if all_in(needs, rr) {
        ConjunctClass::Right
    } else if all_in(needs, lr) {
        ConjunctClass::Left
    } else {
        match c {
            SExpr::Cmp { op: CmpOp::Eq, l, r } => match (*l, *r) {
                (SExpr::Col(a), SExpr::Col(b)) => {
                    if lr.contains(a.rel) && rr.contains(b.rel) {
                        ConjunctClass::Key(a, b)
                    } else if lr.contains(b.rel) && rr.contains(a.rel) {
                        ConjunctClass::Key(b, a)
                    } else {
                        ConjunctClass::Stuck
                    }
                },
                _ => ConjunctClass::Stuck,
            },
            _ => ConjunctClass::Stuck,
        }
    }
}

/// Classification only sends a conjunct where its columns are: a conjunct
/// classed to the left (right) side has every column on a relation of that
/// side; a join key is an equality of two columns, the first on the left
/// and the second on the right. A conjunct with columns that all lie on one
/// side is always classed to a side.
pub proof fn lemma_classify_places(c: SExpr, lr: Seq<usize>, rr: Seq<usize>)
    ensures
        classify(c, lr, rr) == ConjunctClass::Left ==> forall|i: int|
            0 <= i < expr_cols(c).len() ==> lr.contains(#[trigger] expr_cols(c)[i].rel),
        classify(c, lr, rr) == ConjunctClass::Right ==> forall|i: int|
            0 <= i < expr_cols(c).len() ==> rr.contains(#[trigger] expr_cols(c)[i].rel),
        classify(c, lr, rr) matches ConjunctClass::Key(a, b) ==> lr.contains(a.rel) && rr.contains(b.rel) && (c
            == SExpr::Cmp { op: CmpOp::Eq, l: Box::new(SExpr::Col(a)), r: Box::new(SExpr::Col(b)) } || c
            == SExpr::Cmp { op: CmpOp::Eq, l: Box::new(SExpr::Col(b)), r: Box::new(SExpr::Col(a)) }),
        expr_cols(c).len() > 0 && ((forall|i: int|
            0 <= i < expr_cols(c).len() ==> lr.contains(#[trigger] expr_cols(c)[i].rel)) || (forall|i: int|
            0 <= i < expr_cols(c).len() ==> rr.contains(#[trigger] expr_cols(c)[i].rel))) ==> (classify(c, lr, rr)
            == ConjunctClass::Left || classify(c, lr, rr) == ConjunctClass::Right),
{
}

pub(crate) fn all_cols_in(cols: &Vec<ColRef>, rels: &Vec<usize>) -> (r: bool)
    ensures
        r == all_in(cols@, rels@),
{
    let mut i: usize = 0;
    while i < cols.len()
        invariant
            i <= cols@.len(),
            forall|j: int| 0 <= j < i ==> rels@.contains(#[trigger] cols@[j].rel),
        decreases cols.len() - i,
    {
        if !contains_usize(rels, cols[i].rel) {
            return false;
        }
        i = i + 1;
    }
    true
}

/// The class of a conjunct against a join's left and right relations
/// (see `classify`).
pub fn classify_conjunct(c: &Expr, left_rels: &Vec<usize>, right_rels: &Vec<usize>) -> (r:
    ConjunctClass)
    ensures
        r == classify(c@, left_rels@, right_rels@),
{
    let needs = free_cols(c);
    if needs.len() == 0 {
        return ConjunctClass::Stuck;
    }
    if all_cols_in(&needs, right_rels) {
        return ConjunctClass::Right;
    }
    if all_cols_in(&needs, left_rels) {
        return ConjunctClass::Left;
    }
    if let Expr::Cmp { op: CmpOp::Eq, l, r } = c {
        if let (Expr::Col(a), Expr::Col(b)) = (&**l, &**r) {
            proof {
                assert(l@ == SExpr::Col(*a));
                assert(r@ == SExpr::Col(*b));
            }
            if contains_usize(left_rels, a.rel) && contains_usize(right_rels, b.rel) {
                return ConjunctClass::Key(*a, *b);
            }
            if contains_usize(left_rels, b.rel) && contains_usize(right_rels, a.rel) {
                return ConjunctClass::Key(*b, *a);
            }
        }
    }
    ConjunctClass::Stuck
}

/// The conjuncts of a predicate: a conjunction's children, or the
/// predicate itself.
pub open spec fn split_conj(e: SExpr) -> Seq<SExpr> {
    match e {
        SExpr::And(cs) => cs,
        _ => seq![e],
    }
}

/// A filter over `input` holding the carried conjuncts (none: `input`
/// itself; one: that conjunct; more: their conjunction).
pub open spec fn materialize(carried: Seq<SExpr>, input: SPlan) -> SPlan {
    if carried.len() == 0 {
        input
    } else if carried.len() == 1 {
        SPlan::Filter { input: Box::new(input), predicate: carried[0] }
    } else {
        SPlan::Filter { input: Box::new(input), predicate: SExpr::And(carried) }
    }
}

/// The join keys among `s`, in order.
pub open spec fn key_pairs(s: Seq<SExpr>, lr: Seq<usize>, rr: Seq<usize>) -> Seq<(ColRef, ColRef)>
    decreases s.len(),
{
    if s.len() == 0 {
        Seq::empty()
    } else {
        let rest = key_pairs(s.drop_last(), lr, rr);
        match classify(s.last(), lr, rr) {
            ConjunctClass::Key(a, b) => rest.push((a, b)),
            _ => rest,
        }
    }
}

pub open spec fn of_class(lr: Seq<usize>, rr: Seq<usize>, k: ConjunctClass) -> spec_fn(SExpr) -> bool {
    |c: SExpr| classify(c, lr, rr) == k
}

/// Predicate pushdown: conjuncts are carried down from filters and join
/// filters; at a join each carried conjunct goes to the side holding all its
/// columns, becomes a join key when it equates a left and a right column,
/// or stays above the join; at a scan, empty scan, sort or limit the carried
/// conjuncts are put back as one filter (sorts and limits start afresh
/// below them). Projections let conjuncts pass.
pub open spec fn sink_spec(p: SPlan, carried: Seq<SExpr>) -> SPlan
    decreases p,
{
    match p {
        SPlan::Scan { .. } => materialize(carried, p),
        SPlan::EmptyScan { .. } => materialize(carried, p),
        SPlan::Filter { input, predicate } => sink_spec(*input, carried + split_conj(predicate)),
        SPlan::Project { input, exprs } => SPlan::Project {
            input: Box::new(sink_spec(*input, carried)),
            exprs,
        },
        SPlan::Join { left, right, on, filter } => {
            let all = carried + match filter {
                Some(f) => split_conj(f),
                None => Seq::empty(),
            };
            let lr = rels_of(*left);
            let rr = rels_of(*right);
            let left_bag = all.filter(of_class(lr, rr, ConjunctClass::Left));
            let right_bag = all.filter(of_class(lr, rr, ConjunctClass::Right));
            let stuck = all.filter(of_class(lr, rr, ConjunctClass::Stuck));
            materialize(
                stuck,
                SPlan::Join {
                    left: Box::new(sink_spec(*left, left_bag)),
                    right: Box::new(sink_spec(*right, right_bag)),
                    on: on + key_pairs(all, lr, rr),
                    filter: None,
                },
            )
        },
        SPlan::Sort { input, keys } => materialize(
            carried,
            SPlan::Sort { input: Box::new(sink_spec(*input, Seq::empty())), keys },
        ),
        SPlan::Limit { input, n } => materialize(
            carried,
            SPlan::Limit { input: Box::new(sink_spec(*input, Seq::empty())), n },
        ),
    }
}

/// The conjuncts of a predicate (see `split_conj`).
pub fn split_conjunctions(e: Expr) -> (r: Vec<Expr>)
    ensures
        view_exprs(r@) == split_conj(e@),
{
    match e {
        Expr::And(cs) => cs,
        other => {
            let ghost ov = other@;
            let mut v: Vec<Expr> = Vec::new();
            v.push(other);
            proof {
                lemma_view_exprs(v@);
                assert(view_exprs(v@) =~= seq![ov]);
            }
            v
        },
    }
}

/// Puts carried conjuncts back above `input` (see `materialize`).
pub fn materialize_bag(carried: Vec<Expr>, input: Plan) -> (r: Plan)
    ensures
        r@ == materialize(view_exprs(carried@), input@),
{
    proof {
        lemma_view_exprs(carried@);
    }
    let mut carried = carried;
    if carried.len() == 0 {
        input
    } else if carried.len() == 1 {
        let c = carried.pop().unwrap();
        Plan::Filter { input: Box::new(input), predicate: c }
    } else {
        Plan::Filter { input: Box::new(input), predicate: Expr::And(carried) }
    }
}

/// Predicate pushdown (see `sink_spec`).
pub fn sink(p: Plan, carried: Vec<Expr>) -> (r: Plan)
    ensures
        r@ == sink_spec(p@, view_exprs(carried@)),
    decreases p,
{
    match p {
        Plan::Scan { rel } => materialize_bag(carried, Plan::Scan { rel }),
        Plan::EmptyScan { rels } => materialize_bag(carried, Plan::EmptyScan { rels }),
        Plan::Filter { input, predicate } => {
            let ghost cv = view_exprs(carried@);
            let mut carried = carried;
            let mut more = split_conjunctions(predicate);
            proof {
                lemma_view_exprs(carried@);
                lemma_view_exprs(more@);
            }
            let ghost mv = view_exprs(more@);
            carried.append(&mut more);
            proof {
                lemma_view_exprs(carried@);
                assert(view_exprs(carried@) =~= cv + mv);
            }
            sink(*input, carried)
        },
        Plan::Project { input, exprs } => Plan::Project { input: Box::new(sink(*input, carried)), exprs },
        Plan::Join { left, right, on, filter } => {
            let ghost cv = view_exprs(carried@);
            let mut carried = carried;
            let ghost fv = view_opt(filter);
            match filter {
                Some(f) => {
                    let mut more = split_conjunctions(f);
                    proof {
                        lemma_view_exprs(carried@);
                        lemma_view_exprs(more@);
                    }
                    let ghost mv = view_exprs(more@);
                    carried.append(&mut more);
                    proof {
                        lemma_view_exprs(carried@);
                        assert(view_exprs(carried@) =~= cv + mv);
                    }
                },
                None => {
                    proof {
                        assert(cv + Seq::<SExpr>::empty() =~= cv);
                    }
                },
            }
            let left_rels = plan_rels(&left);
            let right_rels = plan_rels(&right);
            let (left_bag, right_bag, stuck, keys) = partition_conjuncts(carried, &left_rels, &right_rels);
            let mut on = on;
            let ghost on0 = on@;
            let mut keys = keys;
            on.append(&mut keys);
            let l = sink(*left, left_bag);
            let r = sink(*right, right_bag);
            materialize_bag(stuck, Plan::Join { left: Box::new(l), right: Box::new(r), on, filter: None })
        },
        Plan::Sort { input, keys } => {
            let below = sink(*input, Vec::new());
            proof {
                assert(view_exprs(Seq::<Expr>::empty()) =~= Seq::<SExpr>::empty());
            }
            materialize_bag(carried, Plan::Sort { input: Box::new(below), keys })
        },
        Plan::Limit { input, n } => {
            let below = sink(*input, Vec::new());
            proof {
                assert(view_exprs(Seq::<Expr>::empty()) =~= Seq::<SExpr>::empty());
            }
            materialize_bag(carried, Plan::Limit { input: Box::new(below), n })
        },
    }
}

/// Splits conjuncts into the left bag, the right bag, the stuck ones and
/// the join keys, each in order.
fn partition_conjuncts(all: Vec<Expr>, lr: &Vec<usize>, rr: &Vec<usize>) -> (r: (
    Vec<Expr>,
    Vec<Expr>,
    Vec<Expr>,
    Vec<(ColRef, ColRef)>,
))
    ensures
        view_exprs(r.0@) == view_exprs(all@).filter(of_class(lr@, rr@, ConjunctClass::Left)),
        view_exprs(r.1@) == view_exprs(all@).filter(of_class(lr@, rr@, ConjunctClass::Right)),
        view_exprs(r.2@) == view_exprs(all@).filter(of_class(lr@, rr@, ConjunctClass::Stuck)),
        r.3@ == key_pairs(view_exprs(all@), lr@, rr@),
{
    let ghost orig = all@;
    let ghost ov = view_exprs(all@);
    let n = all.len();
    proof {
        lemma_view_exprs(all@);
    }
    let mut rest = all;
    let mut lb: Vec<Expr> = Vec::new();
    let mut rb: Vec<Expr> = Vec::new();
    let mut st: Vec<Expr> = Vec::new();
    let mut keys: Vec<(ColRef, ColRef)> = Vec::new();
    let mut i: usize = 0;
    while rest.len() > 0
        invariant
            orig.len() == n,
            ov == view_exprs(orig),
            ov.len() == n,
            forall|j: int| 0 <= j < n ==> #[trigger] ov[j] == view_expr(orig[j]),
            i <= n,
            rest@ == orig.skip(i as int),
            view_exprs(lb@) == ov.take(i as int).filter(of_class(lr@, rr@, ConjunctClass::Left)),
            view_exprs(rb@) == ov.take(i as int).filter(of_class(lr@, rr@, ConjunctClass::Right)),
            view_exprs(st@) == ov.take(i as int).filter(of_class(lr@, rr@, ConjunctClass::Stuck)),
            keys@ == key_pairs(ov.take(i as int), lr@, rr@),
        decreases rest.len(),
    {
        let c = rest.remove(0);
        let ghost cv = c@;
        proof {
            assert(c == orig[i as int]);
            assert(orig.skip(i as int).remove(0) =~= orig.skip(i + 1));
            assert(ov.take(i + 1) =~= ov.take(i as int).push(cv));
            ov.take(i as int).lemma_filter_push(cv, of_class(lr@, rr@, ConjunctClass::Left));
            ov.take(i as int).lemma_filter_push(cv, of_class(lr@, rr@, ConjunctClass::Right));
            ov.take(i as int).lemma_filter_push(cv, of_class(lr@, rr@, ConjunctClass::Stuck));
            assert(ov.take(i as int).push(cv).drop_last() =~= ov.take(i as int));
            lemma_view_exprs(lb@);
            lemma_view_exprs(rb@);
            lemma_view_exprs(st@);
        }
        let ghost (l0, r0, s0) = (view_exprs(lb@), view_exprs(rb@), view_exprs(st@));
        match classify_conjunct(&c, lr, rr) {
            ConjunctClass::Stuck => {
                st.push(c);
                proof {
                    lemma_view_exprs(st@);
                    assert(view_exprs(st@) =~= s0.push(cv));
                }
            },
            ConjunctClass::Right => {
                rb.push(c);
                proof {
                    lemma_view_exprs(rb@);
                    assert(view_exprs(rb@) =~= r0.push(cv));
                }
            },
            ConjunctClass::Left => {
                lb.push(c);
                proof {
                    lemma_view_exprs(lb@);
                    assert(view_exprs(lb@) =~= l0.push(cv));
                }
            },
            ConjunctClass::Key(a, b) => {
                keys.push((a, b));
            },
        }
        i = i + 1;
    }
    proof {
        assert(ov.take(i as int) =~= ov);
    }
    (lb, rb, st, keys)
}

/// Predicate pushdown of a whole query (see `sink_spec`).
pub fn pushdown(ir: Ir) -> (r: Ir)
    ensures
        r.root@ == sink_spec(ir.root@, Seq::empty()),
        r.rels == ir.rels,
{
    proof {
        assert(view_exprs(Seq::<Expr>::empty()) =~= Seq::<SExpr>::empty());
    }
    Ir { root: sink(ir.root, Vec::new()), rels: ir.rels }
}

/// The columns of the join key pairs, each pair's left then right.
pub open spec fn pair_cols(on: Seq<(ColRef, ColRef)>) -> Seq<ColRef>
    decreases on.len(),
{
    if on.len() == 0 {
        Seq::empty()
    } else {
        pair_cols(on.drop_last()) + seq![on.last().0, on.last().1]
    }
}

/// The columns of sort keys, in order.
pub open spec fn keys_cols(keys: Seq<(SExpr, bool)>) -> Seq<ColRef>
    decreases keys.len(),
{
    if keys.len() == 0 {
        Seq::empty()
    } else {
        keys_cols(keys.drop_last()) + expr_cols(keys.last().0)
    }
}

/// The columns of `rel` among `demands`, sorted without repetitions.
pub open spec fn demanded_of(demands: Seq<ColRef>, rel: usize) -> Seq<ColRef> {
    sorted_set(demands.filter(|c: ColRef| c.rel == rel))
}

/// Projection pruning: the columns demanded above each scan are collected
/// (a projection demands exactly its expressions' columns; filters, joins
/// and sorts add theirs); a scan yielding more columns than demanded gets a
/// projection onto the demanded ones, sorted.
pub open spec fn narrow_spec(p: SPlan, demands: Seq<ColRef>, widths: Seq<usize>) -> SPlan
    decreases p,
{
    match p {
        SPlan::Project { input, exprs } => SPlan::Project {
            input: Box::new(narrow_spec(*input, seq_cols(exprs), widths)),
            exprs,
        },
        SPlan::Join { left, right, on, filter } => {
            let d = demands + pair_cols(on) + match filter {
                Some(f) => expr_cols(f),
                None => Seq::empty(),
            };
            SPlan::Join {
                left: Box::new(narrow_spec(*left, d, widths)),
                right: Box::new(narrow_spec(*right, d, widths)),
                on,
                filter,
            }
        },
        SPlan::Filter { input, predicate } => SPlan::Filter {
            input: Box::new(narrow_spec(*input, demands + expr_cols(predicate), widths)),
            predicate,
        },
        SPlan::Limit { input, n } => SPlan::Limit { input: Box::new(narrow_spec(*input, demands, widths)), n },
        SPlan::Sort { input, keys } => SPlan::Sort {
            input: Box::new(narrow_spec(*input, demands + keys_cols(keys), widths)),
            keys,
        },
        SPlan::Scan { rel } => {
            let d = demanded_of(demands, rel);
            if d.len() < widths[rel as int] {
                SPlan::Project {
                    input: Box::new(SPlan::Scan { rel }),
                    exprs: d.map_values(|c: ColRef| SExpr::Col(c)),
                }
            } else {
                SPlan::Scan { rel }
            }
        },
        SPlan::EmptyScan { rels } => SPlan::EmptyScan { rels },
    }
}

/// Every scan in the plan reads one of the first `n` relations.
pub open spec fn scans_below(p: SPlan, n: nat) -> bool
    decreases p,
{
    match p {
        SPlan::Scan { rel } => rel < n,
        SPlan::EmptyScan { .. } => true,
        SPlan::Filter { input, .. } => scans_below(*input, n),
        SPlan::Project { input, .. } => scans_below(*input, n),
        SPlan::Sort { input, .. } => scans_below(*input, n),
        SPlan::Limit { input, .. } => scans_below(*input, n),
        SPlan::Join { left, right, .. } => scans_below(*left, n) && scans_below(*right, n),
    }
}

/// A real column of one of the query's relations.
pub open spec fn valid_col(c: ColRef, widths: Seq<usize>) -> bool {
    c.rel < widths.len() && c.col < widths[c.rel as int]
}

/// The plan's rows carry column `c`: a scan carries its relation's
/// columns, a projection the columns it projects as plain references, a
/// join the columns of both inputs, any other operator its input's.
pub open spec fn carries(p: SPlan, c: ColRef, widths: Seq<usize>) -> bool
    decreases p,
{
    match p {
        SPlan::Scan { rel } => c.rel == rel && valid_col(c, widths),
        SPlan::EmptyScan { rels } => rels.contains(c.rel) && valid_col(c, widths),
        SPlan::Project { exprs, .. } => exprs.contains(SExpr::Col(c)),
        SPlan::Filter { input, .. } => carries(*input, c, widths),
        SPlan::Sort { input, .. } => carries(*input, c, widths),
        SPlan::Limit { input, .. } => carries(*input, c, widths),
        SPlan::Join { left, right, .. } => carries(*left, c, widths) || carries(*right, c, widths),
    }
}

/// Every column of `cols` is carried by `p`.
pub open spec fn carries_all(p: SPlan, cols: Seq<ColRef>, widths: Seq<usize>) -> bool {
    forall|i: int| 0 <= i < cols.len() ==> carries(p, #[trigger] cols[i], widths)
}

/// The columns a join reads itself: its key pairs', then its filter's.
pub open spec fn join_reads(on: Seq<(ColRef, ColRef)>, filter: Option<SExpr>) -> Seq<ColRef> {
    pair_cols(on) + match filter {
        Some(f) => expr_cols(f),
        None => Seq::empty(),
    }
}

/// Every operator reads only columns that its input carries: a filter's
/// predicate, a projection's expressions and a sort's keys read columns of
/// their input, and a join's keys and filter columns of one of its inputs.
pub open spec fn reads_carried(p: SPlan, widths: Seq<usize>) -> bool
    decreases p,
{
    match p {
        SPlan::Scan { .. } => true,
        SPlan::EmptyScan { .. } => true,
        SPlan::Filter { input, predicate } => reads_carried(*input, widths) && carries_all(
            *input,
            expr_cols(predicate),
            widths,
        ),
        SPlan::Project { input, exprs } => reads_carried(*input, widths) && carries_all(*input, seq_cols(exprs), widths),
        SPlan::Sort { input, keys } => reads_carried(*input, widths) && carries_all(*input, keys_cols(keys), widths),
        SPlan::Limit { input, .. } => reads_carried(*input, widths),
        SPlan::Join { left, right, on, filter } => reads_carried(*left, widths) && reads_carried(*right, widths)
            && forall|i: int|
            0 <= i < join_reads(on, filter).len() ==> carries(*left, #[trigger] join_reads(on, filter)[i], widths)
                || carries(*right, join_reads(on, filter)[i], widths),
    }
}

/// In a plan whose operators read only carried columns, every carried
/// column is a real column.
proof fn lemma_carried_valid(p: SPlan, c: ColRef, widths: Seq<usize>)
    requires
        reads_carried(p, widths),
        carries(p, c, widths),
    ensures
        valid_col(c, widths),
    decreases p,
{
    match p {
        SPlan::Project { input, exprs } => {
            let k = choose|k: int| 0 <= k < exprs.len() && exprs[k] == SExpr::Col(c);
            lemma_seq_cols_at(exprs, k);
            let j = choose|j: int| 0 <= j < seq_cols(exprs).len() && seq_cols(exprs)[j] == c;
            assert(carries(*input, seq_cols(exprs)[j], widths));
            lemma_carried_valid(*input, c, widths);
        },
        SPlan::Filter { input, .. } => lemma_carried_valid(*input, c, widths),
        SPlan::Sort { input, .. } => lemma_carried_valid(*input, c, widths),
        SPlan::Limit { input, .. } => lemma_carried_valid(*input, c, widths),
        SPlan::Join { left, right, .. } => {
            if carries(*left, c, widths) {
                lemma_carried_valid(*left, c, widths);
            } else {
                lemma_carried_valid(*right, c, widths);
            }
        },
        _ => {},
    }
}

/// The columns of the `k`th expression occur among the columns of the
/// list; a plain column reference contributes itself.
proof fn lemma_seq_cols_at(s: Seq<SExpr>, k: int)
    requires
        0 <= k < s.len(),
    ensures
        forall|j: int|
            0 <= j < expr_cols(s[k]).len() ==> seq_cols(s).contains(#[trigger] expr_cols(s[k])[j]),
        s[k] matches SExpr::Col(c) ==> seq_cols(s).contains(c),
    decreases s.len(),
{
    let init = s.drop_last();
    let a = seq_cols(init);
    assert(seq_cols(s) == a + expr_cols(s.last()));
    if k < s.len() - 1 {
        lemma_seq_cols_at(init, k);
        assert(init[k] == s[k]);
        assert forall|j: int| 0 <= j < expr_cols(s[k]).len() implies seq_cols(s).contains(
            #[trigger] expr_cols(s[k])[j],
        ) by {
            let t = choose|t: int| 0 <= t < a.len() && a[t] == expr_cols(s[k])[j];
            assert(seq_cols(s)[t] == a[t]);
        }
    } else {
        assert forall|j: int| 0 <= j < expr_cols(s[k]).len() implies seq_cols(s).contains(
            #[trigger] expr_cols(s[k])[j],
        ) by {
            assert(seq_cols(s)[a.len() + j] == expr_cols(s[k])[j]);
        }
    }
    if let SExpr::Col(c) = s[k] {
        assert(expr_cols(s[k])[0] == c);
    }
}

/// The columns of plain references to `d` are `d`.
proof fn lemma_seq_cols_of_refs(d: Seq<ColRef>)
    ensures
        seq_cols(d.map_values(|c: ColRef| SExpr::Col(c))) == d,
    decreases d.len(),
{
    if d.len() > 0 {
        lemma_seq_cols_of_refs(d.drop_last());
        let m = d.map_values(|c: ColRef| SExpr::Col(c));
        assert(m.drop_last() =~= d.drop_last().map_values(|c: ColRef| SExpr::Col(c)));
        assert(expr_cols(m.last()) =~= seq![d.last()]);
        assert(d =~= d.drop_last() + seq![d.last()]);
    } else {
        assert(d.map_values(|c: ColRef| SExpr::Col(c)) =~= Seq::<SExpr>::empty());
    }
}

/// The demanded columns of `rel` are exactly the demands on that relation.
proof fn lemma_demanded_of(demands: Seq<ColRef>, rel: usize, c: ColRef)
    ensures
        demanded_of(demands, rel).contains(c) <==> demands.contains(c) && c.rel == rel,
{
    let pred = |x: ColRef| x.rel == rel;
    let f = demands.filter(pred);
    lemma_sorted_set_contains(f, c);
    if f.contains(c) {
        demands.lemma_filter_contains_rev(pred, c);
        let i = choose|i: int| 0 <= i < f.len() && f[i] == c;
        demands.lemma_filter_pred(pred, i);
    }
    if demands.contains(c) && c.rel == rel {
        let i = choose|i: int| 0 <= i < demands.len() && demands[i] == c;
        demands.lemma_filter_contains(pred, i);
    }
}

/// Pruning keeps every column an operator reads: on a plan whose operators
/// read only carried columns, with real demanded columns, the pruned plan's
/// operators again read only columns their inputs carry (a sort's keys, a
/// filter's predicate, a join's keys and filter, a projection's
/// expressions), and every demanded column the plan carried is still
/// carried.
pub proof fn lemma_narrow_keeps_reads(p: SPlan, demands: Seq<ColRef>, widths: Seq<usize>)
    requires
        reads_carried(p, widths),
        scans_below(p, widths.len()),
        forall|i: int| 0 <= i < demands.len() ==> valid_col(#[trigger] demands[i], widths),
    ensures
        reads_carried(narrow_spec(p, demands, widths), widths),
        forall|c: ColRef|
            demands.contains(c) && carries(p, c, widths) ==> #[trigger] carries(
                narrow_spec(p, demands, widths),
                c,
                widths,
            ),
    decreases p,
{
    match p {
        SPlan::Scan { rel } => {
            let d = demanded_of(demands, rel);
            if d.len() < widths[rel as int] {
                let exprs = d.map_values(|c: ColRef| SExpr::Col(c));
                assert(narrow_spec(p, demands, widths) == SPlan::Project {
                    input: Box::new(SPlan::Scan { rel }),
                    exprs,
                });
                lemma_seq_cols_of_refs(d);
                assert forall|i: int| 0 <= i < seq_cols(exprs).len() implies carries(
                    SPlan::Scan { rel },
                    #[trigger] seq_cols(exprs)[i],
                    widths,
                ) by {
                    let c = d[i];
                    assert(d.contains(c));
                    lemma_demanded_of(demands, rel, c);
                    let j = choose|j: int| 0 <= j < demands.len() && demands[j] == c;
                    assert(valid_col(demands[j], widths));
                }
                assert forall|c: ColRef|
                    demands.contains(c) && carries(p, c, widths) implies #[trigger] carries(
                    narrow_spec(p, demands, widths),
                    c,
                    widths,
                ) by {
                    lemma_demanded_of(demands, rel, c);
                    let k = choose|k: int| 0 <= k < d.len() && d[k] == c;
                    assert(exprs[k] == SExpr::Col(c));
                    assert(exprs.contains(SExpr::Col(c)));
                }
            } else {
                assert(narrow_spec(p, demands, widths) == p);
            }
        },
        SPlan::EmptyScan { .. } => {},
        SPlan::Project { input, exprs } => {
            let sc = seq_cols(exprs);
            assert forall|i: int| 0 <= i < sc.len() implies valid_col(#[trigger] sc[i], widths) by {
                assert(carries(*input, sc[i], widths));
                lemma_carried_valid(*input, sc[i], widths);
            }
            lemma_narrow_keeps_reads(*input, sc, widths);
            let n = narrow_spec(*input, sc, widths);
            assert forall|i: int| 0 <= i < sc.len() implies carries(n, #[trigger] sc[i], widths) by {
                assert(sc.contains(sc[i]));
                assert(carries(*input, sc[i], widths));
            }
            assert(narrow_spec(p, demands, widths) == SPlan::Project { input: Box::new(n), exprs });
        },
        SPlan::Filter { input, predicate } => {
            let pc = expr_cols(predicate);
            let d = demands + pc;
            assert forall|i: int| 0 <= i < d.len() implies valid_col(#[trigger] d[i], widths) by {
                if i >= demands.len() {
                    assert(d[i] == pc[i - demands.len()]);
                    assert(carries(*input, pc[i - demands.len()], widths));
                    lemma_carried_valid(*input, d[i], widths);
                } else {
                    assert(d[i] == demands[i]);
                }
            }
            lemma_narrow_keeps_reads(*input, d, widths);
            let n = narrow_spec(*input, d, widths);
            assert forall|i: int| 0 <= i < pc.len() implies carries(n, #[trigger] pc[i], widths) by {
                assert(d[demands.len() + i] == pc[i]);
                assert(d.contains(pc[i]));
                assert(carries(*input, pc[i], widths));
            }
            assert forall|c: ColRef|
                demands.contains(c) && carries(p, c, widths) implies #[trigger] carries(
                narrow_spec(p, demands, widths),
                c,
                widths,
            ) by {
                let j = choose|j: int| 0 <= j < demands.len() && demands[j] == c;
                assert(d[j] == c);
                assert(d.contains(c));
                assert(carries(*input, c, widths));
                assert(carries(n, c, widths));
            }
        },
        SPlan::Sort { input, keys } => {
            let pc = keys_cols(keys);
            let d = demands + pc;
            assert forall|i: int| 0 <= i < d.len() implies valid_col(#[trigger] d[i], widths) by {
                if i >= demands.len() {
                    assert(d[i] == pc[i - demands.len()]);
                    assert(carries(*input, pc[i - demands.len()], widths));
                    lemma_carried_valid(*input, d[i], widths);
                } else {
                    assert(d[i] == demands[i]);
                }
            }
            lemma_narrow_keeps_reads(*input, d, widths);
            let n = narrow_spec(*input, d, widths);
            assert forall|i: int| 0 <= i < pc.len() implies carries(n, #[trigger] pc[i], widths) by {
                assert(d[demands.len() + i] == pc[i]);
                assert(d.contains(pc[i]));
                assert(carries(*input, pc[i], widths));
            }
            assert forall|c: ColRef|
                demands.contains(c) && carries(p, c, widths) implies #[trigger] carries(
                narrow_spec(p, demands, widths),
                c,
                widths,
            ) by {
                let j = choose|j: int| 0 <= j < demands.len() && demands[j] == c;
                assert(d[j] == c);
                assert(d.contains(c));
                assert(carries(*input, c, widths));
                assert(carries(n, c, widths));
            }
        },
        SPlan::Limit { input, n } => {
            lemma_narrow_keeps_reads(*input, demands, widths);
            let ni = narrow_spec(*input, demands, widths);
            assert(narrow_spec(p, demands, widths) == SPlan::Limit { input: Box::new(ni), n });
            assert forall|c: ColRef|
                demands.contains(c) && carries(p, c, widths) implies #[trigger] carries(
                narrow_spec(p, demands, widths),
                c,
                widths,
            ) by {
                assert(carries(*input, c, widths));
                assert(carries(ni, c, widths));
            }
        },
        SPlan::Join { left, right, on, filter } => {
            let jr = join_reads(on, filter);
            let d = demands + pair_cols(on) + match filter {
                Some(f) => expr_cols(f),
                None => Seq::empty(),
            };
            assert(d =~= demands + jr);
            assert forall|i: int| 0 <= i < d.len() implies valid_col(#[trigger] d[i], widths) by {
                if i >= demands.len() {
                    let x = jr[i - demands.len()];
                    assert(d[i] == x);
                    if carries(*left, x, widths) {
                        lemma_carried_valid(*left, x, widths);
                    } else {
                        lemma_carried_valid(*right, x, widths);
                    }
                } else {
                    assert(d[i] == demands[i]);
                }
            }
            lemma_narrow_keeps_reads(*left, d, widths);
            lemma_narrow_keeps_reads(*right, d, widths);
            let nl = narrow_spec(*left, d, widths);
            let nr = narrow_spec(*right, d, widths);
            assert forall|i: int| 0 <= i < jr.len() implies carries(nl, #[trigger] jr[i], widths) || carries(
                nr,
                jr[i],
                widths,
            ) by {
                assert(d[demands.len() + i] == jr[i]);
                assert(d.contains(jr[i]));
                if carries(*left, jr[i], widths) {
                    assert(carries(nl, jr[i], widths));
                } else {
                    assert(carries(*right, jr[i], widths));
                    assert(carries(nr, jr[i], widths));
                }
            }
            assert forall|c: ColRef|
                demands.contains(c) && carries(p, c, widths) implies #[trigger] carries(
                narrow_spec(p, demands, widths),
                c,
                widths,
            ) by {
                let j = choose|j: int| 0 <= j < demands.len() && demands[j] == c;
                assert(d[j] == c);
                assert(d.contains(c));
                if carries(*left, c, widths) {
                    assert(carries(nl, c, widths));
                } else {
                    assert(carries(nr, c, widths));
                }
            }
        },
    }
}

/// Every column of every relation, relation by relation.
pub open spec fn all_columns(widths: Seq<usize>) -> Seq<ColRef>
    decreases widths.len(),
{
    if widths.len() == 0 {
        Seq::empty()
    } else {
        all_columns(widths.drop_last()) + Seq::new(
            widths.last() as nat,
            |c: int| ColRef { rel: (widths.len() - 1) as usize, col: c as usize },
        )
    }
}

/// The columns of all relations are exactly the real columns.
proof fn lemma_all_columns(widths: Seq<usize>, c: ColRef)
    requires
        widths.len() <= usize::MAX,
    ensures
        all_columns(widths).contains(c) <==> valid_col(c, widths),
    decreases widths.len(),
{
    if widths.len() > 0 {
        let init = widths.drop_last();
        lemma_all_columns(init, c);
        let a = all_columns(init);
        let last = Seq::new(
            widths.last() as nat,
            |k: int| ColRef { rel: (widths.len() - 1) as usize, col: k as usize },
        );
        assert(all_columns(widths) == a + last);
        if valid_col(c, widths) {
            if c.rel < widths.len() - 1 {
                assert(init[c.rel as int] == widths[c.rel as int]);
                let i = choose|i: int| 0 <= i < a.len() && a[i] == c;
                assert((a + last)[i] == c);
            } else {
                assert(last[c.col as int] == c);
                assert((a + last)[a.len() + c.col] == c);
            }
        }
        if all_columns(widths).contains(c) {
            let i = choose|i: int| 0 <= i < (a + last).len() && (a + last)[i] == c;
            if i < a.len() {
                assert(a[i] == c);
                assert(a.contains(c));
                assert(init[c.rel as int] == widths[c.rel as int]);
            } else {
                assert(last[i - a.len()] == c);
            }
        }
    }
}

/// Pruning a whole plan keeps it readable: when every operator of the plan
/// reads only columns its input carries, so does every operator of the
/// pruned plan, and the pruned plan still carries every column the plan
/// did.
pub proof fn lemma_prune_keeps_reads(p: SPlan, widths: Seq<usize>)
    requires
        reads_carried(p, widths),
        scans_below(p, widths.len()),
        widths.len() <= usize::MAX,
    ensures
        reads_carried(narrow_spec(p, all_columns(widths), widths), widths),
        forall|c: ColRef| carries(p, c, widths) ==> #[trigger] carries(narrow_spec(p, all_columns(widths), widths), c, widths),
{
    let d = all_columns(widths);
    assert forall|i: int| 0 <= i < d.len() implies valid_col(#[trigger] d[i], widths) by {
        assert(d.contains(d[i]));
        lemma_all_columns(widths, d[i]);
    }
    lemma_narrow_keeps_reads(p, d, widths);
    assert forall|c: ColRef| carries(p, c, widths) implies #[trigger] carries(narrow_spec(p, d, widths), c, widths) by {
        lemma_carried_valid(p, c, widths);
        lemma_all_columns(widths, c);
    }
}

/// The column counts of the query's relations.
pub open spec fn rel_widths(rels: Seq<RelInfo>) -> Seq<usize> {
    rels.map_values(|r: RelInfo| table_columns(r.table@).len() as usize)
}

/// Every relation of the query names a schema table.
pub open spec fn tables_known(rels: Seq<RelInfo>) -> bool {
    forall|i: int| 0 <= i < rels.len() ==> known_table(#[trigger] rels[i].table@)
}

fn append_pair_cols(d: &mut Vec<ColRef>, on: &Vec<(ColRef, ColRef)>)
    ensures
        final(d)@ == old(d)@ + pair_cols(on@),
{
    let mut i: usize = 0;
    while i < on.len()
        invariant
            i <= on@.len(),
            d@ == old(d)@ + pair_cols(on@.take(i as int)),
        decreases on.len() - i,
    {
        proof {
            assert(on@.take(i + 1).drop_last() =~= on@.take(i as int));
        }
        d.push(on[i].0);
        d.push(on[i].1);
        i = i + 1;
        proof {
            assert(d@ =~= old(d)@ + pair_cols(on@.take(i as int)));
        }
    }
    proof {
        assert(on@.take(i as int) =~= on@);
    }
}

fn append_key_cols(d: &mut Vec<ColRef>, keys: &Vec<(Expr, bool)>)
    ensures
        final(d)@ == old(d)@ + keys_cols(view_keys(keys@)),
{
    let ghost ks = view_keys(keys@);
    let mut i: usize = 0;
    while i < keys.len()
        invariant
            i <= keys@.len(),
            ks == view_keys(keys@),
            d@ == old(d)@ + keys_cols(ks.take(i as int)),
        decreases keys.len() - i,
    {
        proof {
            assert(ks.take(i + 1).drop_last() =~= ks.take(i as int));
        }
        let mut more = free_cols(&keys[i].0);
        d.append(&mut more);
        i = i + 1;
        proof {
            assert(d@ =~= old(d)@ + keys_cols(ks.take(i as int)));
        }
    }
    proof {
        assert(ks.take(i as int) =~= ks);
    }
}

fn col_exprs(cols: Vec<ColRef>) -> (r: Vec<Expr>)
    ensures
        view_exprs(r@) == cols@.map_values(|c: ColRef| SExpr::Col(c)),
{
    let mut r: Vec<Expr> = Vec::new();
    let mut i: usize = 0;
    while i < cols.len()
        invariant
            i <= cols@.len(),
            r@.len() == i,
            forall|j: int| 0 <= j < i ==> #[trigger] r@[j] == Expr::Col(cols@[j]),
        decreases cols.len() - i,
    {
        r.push(Expr::Col(cols[i]));
        i = i + 1;
    }
    proof {
        lemma_view_exprs(r@);
        assert(view_exprs(r@) =~= cols@.map_values(|c: ColRef| SExpr::Col(c)));
    }
    r
}

fn filter_rel(d: &Vec<ColRef>, rel: usize) -> (r: Vec<ColRef>)
    ensures
        r@ == d@.filter(|c: ColRef| c.rel == rel),
{
    let ghost pred = |c: ColRef| c.rel == rel;
    let mut r: Vec<ColRef> = Vec::new();
    let mut i: usize = 0;
    while i < d.len()
        invariant
            i <= d@.len(),
            pred == (|c: ColRef| c.rel == rel),
            r@ == d@.take(i as int).filter(pred),
        decreases d.len() - i,
    {
        proof {
            assert(d@.take(i + 1) =~= d@.take(i as int).push(d@[i as int]));
            d@.take(i as int).lemma_filter_push(d@[i as int], pred);
        }
        if d[i].rel == rel {
            r.push(d[i]);
        }
        i = i + 1;
    }
    proof {
        assert(d@.take(i as int) =~= d@);
    }
    r
}

/// Projection pruning of a plan under a list of demanded columns (see
/// `narrow_spec`).
pub fn narrow(p: Plan, demands: Vec<ColRef>, widths: &Vec<usize>) -> (r: Plan)
    requires
        scans_below(p@, widths@.len()),
    ensures
        r@ == narrow_spec(p@, demands@, widths@),
    decreases p,
{
    match p {
        Plan::Project { input, exprs } => {
            let d = free_cols_all(&exprs);
            Plan::Project { input: Box::new(narrow(*input, d, widths)), exprs }
        },
        Plan::Join { left, right, on, filter } => {
            let mut d = demands;
            append_pair_cols(&mut d, &on);
            match &filter {
                Some(f) => {
                    let mut more = free_cols(f);
                    d.append(&mut more);
                },
                None => {
                    proof {
                        assert(d@ + Seq::<ColRef>::empty() =~= d@);
                    }
                },
            }
            let d2 = copy_colrefs(&d);
            Plan::Join {
                left: Box::new(narrow(*left, d2, widths)),
                right: Box::new(narrow(*right, d, widths)),
                on,
                filter,
            }
        },
        Plan::Filter { input, predicate } => {
            let mut d = demands;
            let mut more = free_cols(&predicate);
            d.append(&mut more);
            Plan::Filter { input: Box::new(narrow(*input, d, widths)), predicate }
        },
        Plan::Limit { input, n } => Plan::Limit { input: Box::new(narrow(*input, demands, widths)), n },
        Plan::Sort { input, keys } => {
            let mut d = demands;
            append_key_cols(&mut d, &keys);
            Plan::Sort { input: Box::new(narrow(*input, d, widths)), keys }
        },
        Plan::Scan { rel } => {
            let mine = sort_dedup(filter_rel(&demands, rel));
            if mine.len() < widths[rel] {
                Plan::Project { input: Box::new(Plan::Scan { rel }), exprs: col_exprs(mine) }
            } else {
                Plan::Scan { rel }
            }
        },
        Plan::EmptyScan { rels } => Plan::EmptyScan { rels },
    }
}

/// A copy of a vector of column references.
pub fn copy_colrefs(v: &Vec<ColRef>) -> (r: Vec<ColRef>)
    ensures
        r@ == v@,
{
    let mut r: Vec<ColRef> = Vec::new();
    let mut i: usize = 0;
    while i < v.len()
        invariant
            i <= v@.len(),
            r@ == v@.take(i as int),
        decreases v.len() - i,
    {
        r.push(v[i]);
        i = i + 1;
        proof {
            assert(r@ =~= v@.take(i as int));
        }
    }
    proof {
        assert(r@ =~= v@);
    }
    r
}

/// Projection pruning of a whole query: every column of every relation is
/// demanded at the top (see `narrow_spec`).
pub fn prune(ir: Ir) -> (r: Ir)
    requires
        tables_known(ir.rels@),
        scans_below(ir.root@, ir.rels@.len()),
    ensures
        r.root@ == narrow_spec(ir.root@, all_columns(rel_widths(ir.rels@)), rel_widths(ir.rels@)),
        r.rels == ir.rels,
{
    let ghost ws = rel_widths(ir.rels@);
    let mut widths: Vec<usize> = Vec::new();
    let mut demands: Vec<ColRef> = Vec::new();
    let mut rel: usize = 0;
    while rel < ir.rels.len()
        invariant
            rel <= ir.rels@.len(),
            tables_known(ir.rels@),
            ws == rel_widths(ir.rels@),
            widths@ == ws.take(rel as int),
            demands@ == all_columns(widths@),
        decreases ir.rels.len() - rel,
    {
        let cols = columns_for(ir.rels[rel].table.as_str());
        let w = cols.len();
        proof {
            assert(cols@.map_values(|c: (&str, crate::catalog::ColumnType)| (c.0@, c.1)).len() == cols@.len());
            assert(w == ws[rel as int]);
        }
        let ghost before = demands@;
        let mut col: usize = 0;
        while col < w
            invariant
                col <= w,
                demands@ == before + Seq::new(col as nat, |c: int| ColRef { rel: rel, col: c as usize }),
            decreases w - col,
        {
            demands.push(ColRef { rel, col });
            col = col + 1;
            proof {
                assert(demands@ =~= before + Seq::new(col as nat, |c: int| ColRef { rel: rel, col: c as usize }));
            }
        }
        widths.push(w);
        proof {
            assert(widths@ =~= ws.take(rel + 1));
            assert(widths@.drop_last() =~= ws.take(rel as int));
            assert(demands@ =~= all_columns(widths@));
        }
        rel = rel + 1;
    }
    proof {
        assert(widths@ =~= ws);
    }
    Ir { root: narrow(ir.root, demands, &widths), rels: ir.rels }
}

/// Redundancy removal: repeated children of a conjunction or disjunction
/// are dropped (the first occurrence stays; a single survivor stands for
/// the list), and a double negation is removed.
pub open spec fn dedup(e: SExpr) -> SExpr
    decreases e, 0nat,
{
    match e {
        SExpr::And(cs) => {
            let u = dedup_seq(cs).remove_duplicates(Seq::empty());
            if u.len() == 1 {
                u[0]
            } else {
                SExpr::And(u)
            }
        },
        SExpr::Or(cs) => {
            let u = dedup_seq(cs).remove_duplicates(Seq::empty());
            if u.len() == 1 {
                u[0]
            } else {
                SExpr::Or(u)
            }
        },
        SExpr::Not(x) => match dedup(*x) {
            SExpr::Not(inner) => *inner,
            other => SExpr::Not(Box::new(other)),
        },
        SExpr::Cmp { op, l, r } => SExpr::Cmp { op, l: Box::new(dedup(*l)), r: Box::new(dedup(*r)) },
        SExpr::Arith { op, l, r } => SExpr::Arith {
            op,
            l: Box::new(dedup(*l)),
            r: Box::new(dedup(*r)),
        },
        _ => e,
    }
}

/// `dedup` on every element.
pub open spec fn dedup_seq(s: Seq<SExpr>) -> Seq<SExpr>
    decreases s, 1nat,
{
    if s.len() == 0 {
        Seq::empty()
    } else {
        dedup_seq(s.drop_last()).push(dedup(s.last()))
    }
}

proof fn lemma_dedup_seq(s: Seq<SExpr>)
    ensures
        dedup_seq(s).len() == s.len(),
        forall|i: int| 0 <= i < s.len() ==> #[trigger] dedup_seq(s)[i] == dedup(s[i]),
    decreases s.len(),
{
    if s.len() > 0 {
        lemma_dedup_seq(s.drop_last());
    }
}

/// Dropping repeats leaves no repeats.
proof fn lemma_rd_no_duplicates<A>(s: Seq<A>, seen: Seq<A>)
    requires
        seen.no_duplicates(),
    ensures
        s.remove_duplicates(seen).no_duplicates(),
    decreases s.len(),
{
    if s.len() > 0 {
        if seen.contains(s[0]) {
            lemma_rd_no_duplicates(s.skip(1), seen);
        } else {
            let t = seen + seq![s[0]];
            assert forall|i: int, j: int| 0 <= i < t.len() && 0 <= j < t.len() && i != j implies t[i] != t[j] by {
                if i < seen.len() && j < seen.len() {
                } else if i < seen.len() {
                    assert(seen.contains(t[i]));
                } else if j < seen.len() {
                    assert(seen.contains(t[j]));
                }
            }
            lemma_rd_no_duplicates(s.skip(1), t);
        }
    }
}

/// A sequence without repeats, none of them seen, is kept whole.
proof fn lemma_rd_keeps<A>(s: Seq<A>, seen: Seq<A>)
    requires
        s.no_duplicates(),
        forall|i: int| 0 <= i < s.len() ==> !seen.contains(#[trigger] s[i]),
    ensures
        s.remove_duplicates(seen) == seen + s,
    decreases s.len(),
{
    if s.len() > 0 {
        let rest = s.skip(1);
        let t = seen + seq![s[0]];
        assert(!seen.contains(s[0]));
        assert forall|i: int| 0 <= i < rest.len() implies !t.contains(#[trigger] rest[i]) by {
            assert(rest[i] == s[i + 1]);
            assert(!seen.contains(s[i + 1]));
            if t.contains(rest[i]) {
                let k = choose|k: int| 0 <= k < t.len() && t[k] == rest[i];
                if k >= seen.len() {
                    assert(s[0] == s[i + 1]);
                } else {
                    assert(seen.contains(rest[i]));
                }
            }
        }
        assert(rest.no_duplicates()) by {
            assert forall|i: int, j: int| 0 <= i < rest.len() && 0 <= j < rest.len() && i != j implies rest[i]
                != rest[j] by {
                assert(rest[i] == s[i + 1] && rest[j] == s[j + 1]);
            }
        }
        lemma_rd_keeps(rest, t);
        assert(t + rest =~= seen + s);
    } else {
        assert(seen + s =~= seen);
    }
}

/// Redundancy removal is idempotent; and when it yields a negation, the
/// negated expression is itself stable and no negation.
pub proof fn lemma_dedup_idempotent(e: SExpr)
    ensures
        dedup(dedup(e)) == dedup(e),
        dedup(e) matches SExpr::Not(i) ==> dedup(*i) == *i && !(*i is Not),
    decreases e,
{
    match e {
        SExpr::Not(x) => {
            lemma_dedup_idempotent(*x);
        },
        SExpr::Cmp { l, r, .. } => {
            lemma_dedup_idempotent(*l);
            lemma_dedup_idempotent(*r);
        },
        SExpr::Arith { l, r, .. } => {
            lemma_dedup_idempotent(*l);
            lemma_dedup_idempotent(*r);
        },
        SExpr::And(cs) => {
            lemma_dedup_list(cs);
        },
        SExpr::Or(cs) => {
            lemma_dedup_list(cs);
        },
        _ => {},
    }
}

proof fn lemma_dedup_list(cs: Seq<SExpr>)
    ensures
        ({
            let u = dedup_seq(cs).remove_duplicates(Seq::empty());
            &&& u.no_duplicates()
            &&& dedup_seq(u).remove_duplicates(Seq::empty()) == u
            &&& forall|i: int| 0 <= i < u.len() ==> dedup(#[trigger] u[i]) == u[i] && (u[i] matches SExpr::Not(
                x,
            ) ==> dedup(*x) == *x && !(*x is Not))
        }),
    decreases cs, 0nat,
{
    let d = dedup_seq(cs);
    lemma_dedup_seq(cs);
    let u = d.remove_duplicates(Seq::empty());
    d.lemma_remove_duplicates_properties(Seq::empty());
    lemma_rd_no_duplicates(d, Seq::empty());
    assert forall|i: int| 0 <= i < u.len() implies dedup(#[trigger] u[i]) == u[i] && (u[i] matches SExpr::Not(
        x,
    ) ==> dedup(*x) == *x && !(*x is Not)) by {
        assert(u.contains(u[i]));
        assert((d + Seq::<SExpr>::empty()).contains(u[i]));
        assert(d + Seq::<SExpr>::empty() =~= d);
        let k = choose|k: int| 0 <= k < d.len() && d[k] == u[i];
        lemma_dedup_idempotent(cs[k]);
    }
    lemma_dedup_seq(u);
    assert(dedup_seq(u) =~= u);
    lemma_rd_keeps(u, Seq::empty());
    assert(Seq::<SExpr>::empty() + u =~= u);
}

/// Redundancy removal in an expression (see `dedup`).
pub fn dedup_expr(e: Expr) -> (r: Expr)
    ensures
        r@ == dedup(e@),
    decreases e,
{
    match e {
        Expr::And(cs) => {
            let mut u = dedup_list(cs);
            proof {
                lemma_view_exprs(u@);
            }
            if u.len() == 1 {
                u.pop().unwrap()
            } else {
                Expr::And(u)
            }
        },
        Expr::Or(cs) => {
            let mut u = dedup_list(cs);
            proof {
                lemma_view_exprs(u@);
            }
            if u.len() == 1 {
                u.pop().unwrap()
            } else {
                Expr::Or(u)
            }
        },
        Expr::Not(child) => {
            let rebuilt = dedup_expr(*child);
            match rebuilt {
                Expr::Not(c) => *c,
                other => Expr::Not(Box::new(other)),
            }
        },
        Expr::Cmp { op, l, r } => Expr::Cmp {
            op,
            l: Box::new(dedup_expr(*l)),
            r: Box::new(dedup_expr(*r)),
        },
        Expr::Arith { op, l, r } => Expr::Arith {
            op,
            l: Box::new(dedup_expr(*l)),
            r: Box::new(dedup_expr(*r)),
        },
        leaf => leaf,
    }
}

fn contains_expr(v: &Vec<Expr>, x: &Expr) -> (r: bool)
    ensures
        r == view_exprs(v@).contains(x@),
{
    proof {
        lemma_view_exprs(v@);
    }
    let mut i: usize = 0;
    while i < v.len()
        invariant
            i <= v@.len(),
            view_exprs(v@).len() == v@.len(),
            forall|j: int| 0 <= j < v@.len() ==> #[trigger] view_exprs(v@)[j] == view_expr(v@[j]),
            forall|j: int| 0 <= j < i ==> view_exprs(v@)[j] != x@,
        decreases v.len() - i,
    {
        if expr_eq(&v[i], x) {
            proof {
                assert(view_exprs(v@)[i as int] == x@);
            }
            return true;
        }
        i = i + 1;
    }
    false
}

/// Deduplicates each child, then drops repeated children.
#[verifier::loop_isolation(false)]
fn dedup_list(cs: Vec<Expr>) -> (r: Vec<Expr>)
    ensures
        view_exprs(r@) == dedup_seq(view_exprs(cs@)).remove_duplicates(Seq::empty()),
    decreases cs,
{
    let ghost orig = cs@;
    let ghost vc = cs;
    let ghost ov = view_exprs(cs@);
    let n = cs.len();
    proof {
        lemma_view_exprs(cs@);
    }
    let mut rest = cs;
    let mut out: Vec<Expr> = Vec::new();
    let mut i: usize = 0;
    while rest.len() > 0
        invariant
            orig.len() == n,
            vc@ == orig,
            i <= n,
            rest@ == orig.skip(i as int),
            view_exprs(out@) == dedup_seq(ov.take(i as int)).remove_duplicates(Seq::empty()),
        decreases rest.len(),
    {
        let c = rest.remove(0);
        proof {
            assert(c == orig[i as int]);
            assert(orig.skip(i as int).remove(0) =~= orig.skip(i + 1));
            assert(decreases_to!(vc => vc[i as int]));
        }
        let d = dedup_expr(c);
        let ghost dv = d@;
        proof {
            let pre = dedup_seq(ov.take(i as int));
            assert(ov.take(i + 1).drop_last() =~= ov.take(i as int));
            assert(ov.take(i + 1).last() == ov[i as int]);
            assert(dedup_seq(ov.take(i + 1)) == pre.push(dv));
            assert(pre.push(dv) =~= pre + seq![dv]);
            pre.lemma_remove_duplicates_append(dv, Seq::empty());
            pre.lemma_remove_duplicates_properties(Seq::empty());
            assert(pre + Seq::<SExpr>::empty() =~= pre);
        }
        if !contains_expr(&out, &d) {
            let ghost before = view_exprs(out@);
            proof {
                lemma_view_exprs(out@);
            }
            out.push(d);
            proof {
                lemma_view_exprs(out@);
                assert(view_exprs(out@) =~= before + seq![dv]);
            }
        }
        i = i + 1;
    }
    proof {
        assert(ov.take(i as int) =~= ov);
    }
    out
}

/// `dedup_expr` on every element.
pub fn dedup_exprs(v: Vec<Expr>) -> (r: Vec<Expr>)
    ensures
        view_exprs(r@) == view_exprs(v@).map_values(|e: SExpr| dedup(e)),
{
    let ghost ev = view_exprs(v@);
    let ghost orig = v@;
    let n = v.len();
    proof {
        lemma_view_exprs(v@);
    }
    let mut rest = v;
    let mut out: Vec<Expr> = Vec::new();
    let mut i: usize = 0;
    while rest.len() > 0
        invariant
            orig.len() == n,
            ev == view_exprs(orig),
            ev.len() == n,
            forall|j: int| 0 <= j < n ==> #[trigger] ev[j] == view_expr(orig[j]),
            i <= n,
            rest@ == orig.skip(i as int),
            out@.len() == i,
            forall|j: int| 0 <= j < i ==> #[trigger] view_expr(out@[j]) == dedup(ev[j]),
        decreases rest.len(),
    {
        let c = rest.remove(0);
        proof {
            assert(c == orig[i as int]);
            assert(orig.skip(i as int).remove(0) =~= orig.skip(i + 1));
        }
        out.push(dedup_expr(c));
        i = i + 1;
    }
    proof {
        lemma_view_exprs(out@);
        assert(view_exprs(out@) =~= ev.map_values(|e: SExpr| dedup(e)));
    }
    out
}

/// `dedup_expr` on the expression of every sort key.
pub fn dedup_keys(keys: Vec<(Expr, bool)>) -> (r: Vec<(Expr, bool)>)
    ensures
        view_keys(r@) == view_keys(keys@).map_values(|k: (SExpr, bool)| (dedup(k.0), k.1)),
{
    let ghost ks = keys@;
    let n = keys.len();
    let mut rest = keys;
    let mut out: Vec<(Expr, bool)> = Vec::new();
    let mut i: usize = 0;
    while rest.len() > 0
        invariant
            ks.len() == n,
            i <= n,
            rest@ == ks.skip(i as int),
            out@.len() == i,
            forall|j: int|
                0 <= j < i ==> #[trigger] view_expr(out@[j].0) == dedup(view_expr(ks[j].0))
                    && out@[j].1 == ks[j].1,
        decreases rest.len(),
    {
        let (e, d) = rest.remove(0);
        proof {
            assert(ks.skip(i as int).remove(0) =~= ks.skip(i + 1));
        }
        out.push((dedup_expr(e), d));
        i = i + 1;
    }
    proof {
        assert(view_keys(out@) =~= view_keys(ks).map_values(|k: (SExpr, bool)| (dedup(k.0), k.1)));
    }
    out
}

/// Redundancy removal in a plan: every expression is deduplicated, and a
/// sort or limit over an empty scan is that empty scan.
pub open spec fn dedup_plan_spec(p: SPlan) -> SPlan
    decreases p,
{
    match p {
        SPlan::Scan { rel } => SPlan::Scan { rel },
        SPlan::EmptyScan { rels } => SPlan::EmptyScan { rels },
        SPlan::Filter { input, predicate } => SPlan::Filter {
            input: Box::new(dedup_plan_spec(*input)),
            predicate: dedup(predicate),
        },
        SPlan::Project { input, exprs } => SPlan::Project {
            input: Box::new(dedup_plan_spec(*input)),
            exprs: exprs.map_values(|e: SExpr| dedup(e)),
        },
        SPlan::Sort { input, keys } => {
            let input2 = dedup_plan_spec(*input);
            if is_empty_scan(input2) {
                input2
            } else {
                SPlan::Sort {
                    input: Box::new(input2),
                    keys: keys.map_values(|k: (SExpr, bool)| (dedup(k.0), k.1)),
                }
            }
        },
        SPlan::Join { left, right, on, filter } => SPlan::Join {
            left: Box::new(dedup_plan_spec(*left)),
            right: Box::new(dedup_plan_spec(*right)),
            on,
            filter: match filter {
                Some(f) => Some(dedup(f)),
                None => None,
            },
        },
        SPlan::Limit { input, n } => {
            let input2 = dedup_plan_spec(*input);
            if is_empty_scan(input2) {
                input2
            } else {
                SPlan::Limit { input: Box::new(input2), n }
            }
        },
    }
}

/// Redundancy removal in a plan (see `dedup_plan_spec`).
pub fn dedup_plan(p: Plan) -> (r: Plan)
    ensures
        r@ == dedup_plan_spec(p@),
    decreases p,
{
    match p {
        Plan::Scan { rel } => Plan::Scan { rel },
        Plan::EmptyScan { rels } => Plan::EmptyScan { rels },
        Plan::Filter { input, predicate } => Plan::Filter {
            input: Box::new(dedup_plan(*input)),
            predicate: dedup_expr(predicate),
        },
        Plan::Project { input, exprs } => Plan::Project {
            input: Box::new(dedup_plan(*input)),
            exprs: dedup_exprs(exprs),
        },
        Plan::Sort { input, keys } => {
            let input = dedup_plan(*input);
            if matches!(input, Plan::EmptyScan { .. }) {
                input
            } else {
                Plan::Sort { input: Box::new(input), keys: dedup_keys(keys) }
            }
        },
        Plan::Join { left, right, on, filter } => Plan::Join {
            left: Box::new(dedup_plan(*left)),
            right: Box::new(dedup_plan(*right)),
            on,
            filter: match filter {
                Some(f) => Some(dedup_expr(f)),
                None => None,
            },
        },
        Plan::Limit { input, n } => {
            let input = dedup_plan(*input);
            if matches!(input, Plan::EmptyScan { .. }) {
                input
            } else {
                Plan::Limit { input: Box::new(input), n }
            }
        },
    }
}

/// Redundancy removal of a whole query (see `dedup_plan_spec`).
pub fn remove_redundancy(ir: Ir) -> (r: Ir)
    ensures
        r.root@ == dedup_plan_spec(ir.root@),
        r.rels == ir.rels,
{
    Ir { root: dedup_plan(ir.root), rels: ir.rels }
}

proof fn lemma_materialize_scans(c: Seq<SExpr>, p: SPlan, n: nat)
    requires
        scans_below(p, n),
    ensures
        scans_below(materialize(c, p), n),
{
}

/// Constant folding keeps a plan's relations: an empty scan stands in for
/// exactly the relations it absorbed, and a Project on top stays a
/// Project.
pub proof fn lemma_fold_keeps_rels(p: SPlan)
    ensures
        rels_of(fold_plan_spec(p)) == rels_of(p),
        p is Project ==> fold_plan_spec(p) is Project,
    decreases p,
{
    match p {
        SPlan::Filter { input, .. } => lemma_fold_keeps_rels(*input),
        SPlan::Project { input, .. } => lemma_fold_keeps_rels(*input),
        SPlan::Sort { input, .. } => lemma_fold_keeps_rels(*input),
        SPlan::Limit { input, .. } => lemma_fold_keeps_rels(*input),
        SPlan::Join { left, right, .. } => {
            lemma_fold_keeps_rels(*left);
            lemma_fold_keeps_rels(*right);
        },
        _ => {},
    }
}

proof fn lemma_fold_plan_scans(p: SPlan, n: nat)
    requires
        scans_below(p, n),
    ensures
        scans_below(fold_plan_spec(p), n),
    decreases p,
{
    match p {
        SPlan::Filter { input, .. } => lemma_fold_plan_scans(*input, n),
        SPlan::Project { input, .. } => lemma_fold_plan_scans(*input, n),
        SPlan::Sort { input, .. } => lemma_fold_plan_scans(*input, n),
        SPlan::Limit { input, .. } => lemma_fold_plan_scans(*input, n),
        SPlan::Join { left, right, .. } => {
            lemma_fold_plan_scans(*left, n);
            lemma_fold_plan_scans(*right, n);
        },
        _ => {},
    }
}

proof fn lemma_sink_scans(p: SPlan, carried: Seq<SExpr>, n: nat)
    requires
        scans_below(p, n),
    ensures
        scans_below(sink_spec(p, carried), n),
    decreases p,
{
    match p {
        SPlan::Filter { input, predicate } => lemma_sink_scans(*input, carried + split_conj(predicate), n),
        SPlan::Project { input, .. } => lemma_sink_scans(*input, carried, n),
        SPlan::Sort { input, keys } => {
            lemma_sink_scans(*input, Seq::empty(), n);
            lemma_materialize_scans(
                carried,
                SPlan::Sort { input: Box::new(sink_spec(*input, Seq::empty())), keys },
                n,
            );
        },
        SPlan::Limit { input, n: k } => {
            lemma_sink_scans(*input, Seq::empty(), n);
            lemma_materialize_scans(
                carried,
                SPlan::Limit { input: Box::new(sink_spec(*input, Seq::empty())), n: k },
                n,
            );
        },
        SPlan::Join { left, right, on, filter } => {
            let all = carried + match filter {
                Some(f) => split_conj(f),
                None => Seq::empty(),
            };
            let lr = rels_of(*left);
            let rr = rels_of(*right);
            lemma_sink_scans(*left, all.filter(of_class(lr, rr, ConjunctClass::Left)), n);
            lemma_sink_scans(*right, all.filter(of_class(lr, rr, ConjunctClass::Right)), n);
            lemma_materialize_scans(
                all.filter(of_class(lr, rr, ConjunctClass::Stuck)),
                SPlan::Join {
                    left: Box::new(sink_spec(*left, all.filter(of_class(lr, rr, ConjunctClass::Left)))),
                    right: Box::new(sink_spec(*right, all.filter(of_class(lr, rr, ConjunctClass::Right)))),
                    on: on + key_pairs(all, lr, rr),
                    filter: None,
                },
                n,
            );
        },
        _ => {},
    }
}

/// The four heuristic passes in order: constant folding, pushdown,
/// projection pruning, redundancy removal.
pub open spec fn heuristic_plan(root: SPlan, rels: Seq<RelInfo>) -> SPlan {
    let widths = rel_widths(rels);
    dedup_plan_spec(
        narrow_spec(sink_spec(fold_plan_spec(root), Seq::empty()), all_columns(widths), widths),
    )
}

/// A query ready for the optimizers: its relations name schema tables and
/// its scans read only those relations.
pub open spec fn ir_wf(ir: Ir) -> bool {
    &&& tables_known(ir.rels@)
    &&& scans_below(ir.root@, ir.rels@.len())
}

/// The heuristic optimizer: fixed rewrite passes, no cost model.
pub struct HeuristicOptimizer;

impl Optimizer for HeuristicOptimizer {
    fn name(&self) -> (r: &'static str)
        ensures
            r@ == "heuristic"@,
    {
        proof {
            reveal_strlit("heuristic");
        }
        "heuristic"
    }

    /// Applies the four passes (see `heuristic_plan`); never fails.
    fn optimize(&self, plan: Ir, ctx: &OptContext) -> (r: Result<Ir, OptError>)
        ensures
            r matches Ok(o) && o.root@ == heuristic_plan(plan.root@, plan.rels@) && o.rels == plan.rels,
    {
        proof {
            lemma_fold_plan_scans(plan.root@, plan.rels@.len());
            lemma_sink_scans(fold_plan_spec(plan.root@), Seq::empty(), plan.rels@.len());
        }
        Ok(remove_redundancy(prune(pushdown(fold_constants(plan)))))
    }
}

} // verus!
