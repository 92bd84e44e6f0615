//! The canonical form: one spelling per meaning, so that structural
//! equality answers "same predicate?".

use vstd::prelude::*;
use crate::ir::{
    ColRef, Expr, Plan, SExpr, SPlan, view_expr, view_exprs, view_keys, view_opt, view_plan,
    lemma_view_exprs,
};
use crate::sorting::{sort_dedup, sort_keys, sorted_keys, sorted_set, pair_le, key_leq, lemma_sorted_keys_perm, Key};
use crate::order::{sorted_exprs, sort_exprs, expr_leq, lemma_expr_leq_total, lemma_sorted_exprs_unique};
use vstd::relations::sorted_by;

verus! {

/// The children of a conjunction list, with nested conjunctions spliced in.
pub open spec fn flatten_and(s: Seq<SExpr>) -> Seq<SExpr>
    decreases s.len(),
{
    if s.len() == 0 {
        Seq::empty()
    } else {
        flatten_and(s.drop_last()) + match s.last() {
            SExpr::And(inner) => inner,
            other => seq![other],
        }
    }
}

/// The children of a disjunction list, with nested disjunctions spliced in.
pub open spec fn flatten_or(s: Seq<SExpr>) -> Seq<SExpr>
    decreases s.len(),
{
    if s.len() == 0 {
        Seq::empty()
    } else {
        flatten_or(s.drop_last()) + match s.last() {
            SExpr::Or(inner) => inner,
            other => seq![other],
        }
    }
}

/// Canonical form of an expression: conjunctions and disjunctions are
/// flattened, their children sorted by the expression order, and a single
/// child stands for its list; everything else is canonicalized inside.
pub open spec fn canon(e: SExpr) -> SExpr
    decreases e, 0nat,
{
    match e {
        SExpr::Cmp { op, l, r } => SExpr::Cmp { op, l: Box::new(canon(*l)), r: Box::new(canon(*r)) },
        SExpr::And(cs) => {
            let s = sorted_exprs(flatten_and(canon_seq(cs)));
            if s.len() == 1 {
                s[0]
            } else {
                SExpr::And(s)
            }
        },
        SExpr::Or(cs) => {
            let s = sorted_exprs(flatten_or(canon_seq(cs)));
            if s.len() == 1 {
                s[0]
            } else {
                SExpr::Or(s)
            }
        },
        SExpr::Not(x) => SExpr::Not(Box::new(canon(*x))),
        SExpr::Arith { op, l, r } => SExpr::Arith {
            op,
            l: Box::new(canon(*l)),
            r: Box::new(canon(*r)),
        },
        _ => e,
    }
}

/// `canon` applied to every element.
pub open spec fn canon_seq(s: Seq<SExpr>) -> Seq<SExpr>
    decreases s, 1nat,
{
    if s.len() == 0 {
        Seq::empty()
    } else {
        canon_seq(s.drop_last()).push(canon(s.last()))
    }
}

proof fn lemma_canon_seq_push(s: Seq<SExpr>, i: int)
    requires
        0 <= i < s.len(),
    ensures
        canon_seq(s.take(i + 1)) == canon_seq(s.take(i)).push(canon(s[i])),
{
    assert(s.take(i + 1).drop_last() =~= s.take(i));
}

/// Canonical form of an expression (see `canon`).
pub fn canon_expr(e: Expr) -> (r: Expr)
    ensures
        r@ == canon(e@),
    decreases e,
{
    match e {
        Expr::Cmp { op, l, r } => Expr::Cmp {
            op,
            l: Box::new(canon_expr(*l)),
            r: Box::new(canon_expr(*r)),
        },
        Expr::And(children) => {
            let flat = canon_children(children, true);
            let mut flat = sort_exprs(flat);
            proof {
                lemma_view_exprs(flat@);
            }
            if flat.len() == 1 {
                proof {
                    assert(flat@.drop_last().len() == 0);
                }
                flat.pop().unwrap()
            } else {
                Expr::And(flat)
            }
        },
        Expr::Or(children) => {
            let flat = canon_children(children, false);
            let mut flat = sort_exprs(flat);
            proof {
                lemma_view_exprs(flat@);
            }
            if flat.len() == 1 {
                flat.pop().unwrap()
            } else {
                Expr::Or(flat)
            }
        },
        Expr::Not(inner) => Expr::Not(Box::new(canon_expr(*inner))),
        Expr::Arith { op, l, r } => Expr::Arith {
            op,
            l: Box::new(canon_expr(*l)),
            r: Box::new(canon_expr(*r)),
        },
        leaf => leaf,
    }
}

/// Canonicalizes each child and splices in nested lists of the same kind
/// (conjunctions when `is_and`, disjunctions otherwise).
#[verifier::loop_isolation(false)]
fn canon_children(children: Vec<Expr>, is_and: bool) -> (flat: Vec<Expr>)
    ensures
        is_and ==> view_exprs(flat@) == flatten_and(canon_seq(view_exprs(children@))),
        !is_and ==> view_exprs(flat@) == flatten_or(canon_seq(view_exprs(children@))),
    decreases children,
{
    let ghost orig = view_exprs(children@);
    let ghost orig_exec = children@;
    let ghost ch = children;
    let n = children.len();
    proof {
        lemma_view_exprs(children@);
    }
    let mut rest = children;
    let mut flat: Vec<Expr> = Vec::new();
    let mut i: usize = 0;
    while rest.len() > 0
        invariant
            orig.len() == orig_exec.len(),
            orig.len() == n,
            ch@ == orig_exec,
            forall|j: int| 0 <= j < orig.len() ==> #[trigger] orig[j] == view_expr(orig_exec[j]),
            rest@ == orig_exec.skip(i as int),
            i <= orig.len(),
            is_and ==> view_exprs(flat@) == flatten_and(canon_seq(orig.take(i as int))),
            !is_and ==> view_exprs(flat@) == flatten_or(canon_seq(orig.take(i as int))),
        decreases rest.len(),
    {
        let c = rest.remove(0);
        proof {
            assert(c == orig_exec[i as int]);
            assert(orig_exec.skip(i as int).remove(0) =~= orig_exec.skip(i + 1));
            assert(ch@ == orig_exec);
            assert(decreases_to!(ch => ch[i as int]));
            lemma_canon_seq_push(orig, i as int);
            assert(orig.take(i + 1).take(i as int) =~= orig.take(i as int));
        }
        let cc = canon_expr(c);
        let ghost before = view_exprs(flat@);
        proof {
            let cs = canon_seq(orig.take(i as int));
            assert(cs.push(cc@).drop_last() =~= cs);
            assert(canon_seq(orig.take(i + 1)) == cs.push(cc@));
        }
        match cc {
            Expr::And(mut inner) if is_and => {
                proof {
                    lemma_view_exprs(flat@);
                    lemma_view_exprs(inner@);
                }
                let ghost inner_v = view_exprs(inner@);
                flat.append(&mut inner);
                proof {
                    lemma_view_exprs(flat@);
                    assert(view_exprs(flat@) =~= before + inner_v);
                }
            },
            Expr::Or(mut inner) if !is_and => {
                proof {
                    lemma_view_exprs(flat@);
                    lemma_view_exprs(inner@);
                }
                let ghost inner_v = view_exprs(inner@);
                flat.append(&mut inner);
                proof {
                    lemma_view_exprs(flat@);
                    assert(view_exprs(flat@) =~= before + inner_v);
                }
            },
            other => {
                let ghost ov = other@;
                proof {
                    lemma_view_exprs(flat@);
                }
                flat.push(other);
                proof {
                    lemma_view_exprs(flat@);
                    assert(view_exprs(flat@) =~= before + seq![ov]);
                }
            },
        }
        i = i + 1;
    }
    proof {
        assert(orig.take(i as int) =~= orig);
    }
    flat
}


/// Canonical form of a plan: every embedded expression canonicalized, the
/// relation list of an empty scan sorted without repetitions, and join key
/// pairs sorted. The tree shape is never changed.
pub open spec fn canon_plan(p: SPlan) -> SPlan
    decreases p,
{
    match p {
        SPlan::Scan { rel } => SPlan::Scan { rel },
        SPlan::EmptyScan { rels } => SPlan::EmptyScan { rels: sorted_set(rels) },
        SPlan::Filter { input, predicate } => SPlan::Filter {
            input: Box::new(canon_plan(*input)),
            predicate: canon(predicate),
        },
        SPlan::Project { input, exprs } => SPlan::Project {
            input: Box::new(canon_plan(*input)),
            exprs: exprs.map_values(|e: SExpr| canon(e)),
        },
        SPlan::Join { left, right, on, filter } => SPlan::Join {
            left: Box::new(canon_plan(*left)),
            right: Box::new(canon_plan(*right)),
            on: sorted_keys(on),
            filter: match filter {
                Some(f) => Some(canon(f)),
                None => None,
            },
        },
        SPlan::Sort { input, keys } => SPlan::Sort {
            input: Box::new(canon_plan(*input)),
            keys: keys.map_values(|k: (SExpr, bool)| (canon(k.0), k.1)),
        },
        SPlan::Limit { input, n } => SPlan::Limit { input: Box::new(canon_plan(*input)), n },
    }
}

/// The canonical form of a join is blind to the order of its key pairs:
/// two joins whose pair lists are rearrangements of each other canonicalize
/// alike, and the canonical list holds the same pairs in ascending order.
pub proof fn lemma_canon_join_ignores_key_order(
    left: SPlan,
    right: SPlan,
    on1: Seq<(ColRef, ColRef)>,
    on2: Seq<(ColRef, ColRef)>,
    filter: Option<SExpr>,
)
    requires
        on1.to_multiset() == on2.to_multiset(),
    ensures
        canon_plan(SPlan::Join { left: Box::new(left), right: Box::new(right), on: on1, filter })
            == canon_plan(SPlan::Join { left: Box::new(left), right: Box::new(right), on: on2, filter }),
        canon_plan(SPlan::Join { left: Box::new(left), right: Box::new(right), on: on1, filter }) matches SPlan::Join {
            on,
            ..
        } ==> on.to_multiset() == on1.to_multiset() && forall|i: int, j: int|
            0 <= i < j < on.len() ==> pair_le(#[trigger] on[i], #[trigger] on[j]),
{
    lemma_sorted_keys_perm(on1, on2);
    <(ColRef, ColRef) as Key>::lemma_total();
    let leq = key_leq::<(ColRef, ColRef)>();
    on1.lemma_sort_by_ensures(leq);
    let on = sorted_keys(on1);
    assert(sorted_by(on, leq));
    assert forall|i: int, j: int| 0 <= i < j < on.len() implies pair_le(#[trigger] on[i], #[trigger] on[j]) by {
        assert(leq(on[i], on[j]));
    }
}

/// `canon_expr` on every element.
pub fn canon_exprs(v: Vec<Expr>) -> (r: Vec<Expr>)
    ensures
        view_exprs(r@) == view_exprs(v@).map_values(|e: SExpr| canon(e)),
{
    let ghost orig = v@;
    proof {
        lemma_view_exprs(v@);
    }
    let mut rest = v;
    let mut r: Vec<Expr> = Vec::new();
    let mut i: usize = 0;
    let n = rest.len();
    while rest.len() > 0
        invariant
            orig.len() == n,
            i <= n,
            rest@ == orig.skip(i as int),
            r@.len() == i,
            forall|j: int| 0 <= j < i ==> #[trigger] view_expr(r@[j]) == canon(view_expr(orig[j])),
        decreases rest.len(),
    {
        let c = rest.remove(0);
        proof {
            assert(c == orig[i as int]);
            assert(orig.skip(i as int).remove(0) =~= orig.skip(i + 1));
        }
        r.push(canon_expr(c));
        i = i + 1;
    }
    proof {
        lemma_view_exprs(r@);
        lemma_view_exprs(orig);
        assert(view_exprs(r@) =~= view_exprs(orig).map_values(|e: SExpr| canon(e)));
    }
    r
}

/// Canonical form of a plan (see `canon_plan`).
pub fn canonicalize(plan: Plan) -> (r: Plan)
    ensures
        r@ == canon_plan(plan@),
    decreases plan,
{
    match plan {
        Plan::Scan { rel } => Plan::Scan { rel },
        Plan::EmptyScan { rels } => Plan::EmptyScan { rels: sort_dedup(rels) },
        Plan::Filter { input, predicate } => Plan::Filter {
            input: Box::new(canonicalize(*input)),
            predicate: canon_expr(predicate),
        },
        Plan::Project { input, exprs } => Plan::Project {
            input: Box::new(canonicalize(*input)),
            exprs: canon_exprs(exprs),
        },
        Plan::Join { left, right, on, filter } => {
            let on = sort_keys(on);
            Plan::Join {
                left: Box::new(canonicalize(*left)),
                right: Box::new(canonicalize(*right)),
                on,
                filter: match filter {
                    Some(f) => Some(canon_expr(f)),
                    None => None,
                },
            }
        },
        Plan::Sort { input, keys } => {
            let ghost ks = keys@;
            let mut rest = keys;
            let mut out: Vec<(Expr, bool)> = Vec::new();
            let mut i: usize = 0;
            let n = rest.len();
            while rest.len() > 0
                invariant
                    ks.len() == n,
                    i <= n,
                    rest@ == ks.skip(i as int),
                    out@.len() == i,
                    forall|j: int|
                        0 <= j < i ==> #[trigger] view_expr(out@[j].0) == canon(view_expr(ks[j].0))
                            && out@[j].1 == ks[j].1,
                decreases rest.len(),
            {
                let (e, d) = rest.remove(0);
                proof {
                    assert(ks.skip(i as int).remove(0) =~= ks.skip(i + 1));
                }
                out.push((canon_expr(e), d));
                i = i + 1;
            }
            proof {
                assert(view_keys(out@) =~= view_keys(ks).map_values(
                    |k: (SExpr, bool)| (canon(k.0), k.1),
                ));
            }
            Plan::Sort { input: Box::new(canonicalize(*input)), keys: out }
        },
        Plan::Limit { input, n } => Plan::Limit { input: Box::new(canonicalize(*input)), n },
    }
}

/// An expression in canonical form: every conjunction and disjunction has
/// other than one child, its children sorted, none of them of its own
/// kind, and all of them canonical.
pub open spec fn is_canon(e: SExpr) -> bool
    decreases e,
{
    match e {
        SExpr::Cmp { l, r, .. } => is_canon(*l) && is_canon(*r),
        SExpr::And(s) => s.len() != 1 && sorted_by(s, expr_leq()) && forall|i: int|
            0 <= i < s.len() ==> !(#[trigger] s[i] is And) && is_canon(s[i]),
        SExpr::Or(s) => s.len() != 1 && sorted_by(s, expr_leq()) && forall|i: int|
            0 <= i < s.len() ==> !(#[trigger] s[i] is Or) && is_canon(s[i]),
        SExpr::Not(x) => is_canon(*x),
        SExpr::Arith { l, r, .. } => is_canon(*l) && is_canon(*r),
        _ => true,
    }
}

proof fn lemma_canon_seq_index(s: Seq<SExpr>)
    ensures
        canon_seq(s).len() == s.len(),
        forall|i: int| 0 <= i < s.len() ==> #[trigger] canon_seq(s)[i] == canon(s[i]),
    decreases s.len(),
{
    if s.len() > 0 {
        lemma_canon_seq_index(s.drop_last());
    }
}

proof fn lemma_flatten_and_canon(s: Seq<SExpr>)
    requires
        forall|i: int| 0 <= i < s.len() ==> is_canon(#[trigger] s[i]),
    ensures
        forall|j: int|
            0 <= j < flatten_and(s).len() ==> !(#[trigger] flatten_and(s)[j] is And) && is_canon(
                flatten_and(s)[j],
            ),
    decreases s.len(),
{
    if s.len() > 0 {
        let init = s.drop_last();
        assert forall|i: int| 0 <= i < init.len() implies is_canon(#[trigger] init[i]) by {
            assert(init[i] == s[i]);
        }
        lemma_flatten_and_canon(init);
        let a = flatten_and(init);
        assert(is_canon(s[s.len() - 1]));
        let b = match s.last() {
            SExpr::And(inner) => inner,
            other => seq![other],
        };
        assert(flatten_and(s) == a + b);
        assert forall|j: int| 0 <= j < (a + b).len() implies !(#[trigger] (a + b)[j] is And) && is_canon(
            (a + b)[j],
        ) by {
            if j < a.len() {
                assert((a + b)[j] == a[j]);
            } else {
                assert((a + b)[j] == b[j - a.len()]);
            }
        }
    }
}

proof fn lemma_flatten_or_canon(s: Seq<SExpr>)
    requires
        forall|i: int| 0 <= i < s.len() ==> is_canon(#[trigger] s[i]),
    ensures
        forall|j: int|
            0 <= j < flatten_or(s).len() ==> !(#[trigger] flatten_or(s)[j] is Or) && is_canon(
                flatten_or(s)[j],
            ),
    decreases s.len(),
{
    if s.len() > 0 {
        let init = s.drop_last();
        assert forall|i: int| 0 <= i < init.len() implies is_canon(#[trigger] init[i]) by {
            assert(init[i] == s[i]);
        }
        lemma_flatten_or_canon(init);
        let a = flatten_or(init);
        assert(is_canon(s[s.len() - 1]));
        let b = match s.last() {
            SExpr::Or(inner) => inner,
            other => seq![other],
        };
        assert(flatten_or(s) == a + b);
        assert forall|j: int| 0 <= j < (a + b).len() implies !(#[trigger] (a + b)[j] is Or) && is_canon(
            (a + b)[j],
        ) by {
            if j < a.len() {
                assert((a + b)[j] == a[j]);
            } else {
                assert((a + b)[j] == b[j - a.len()]);
            }
        }
    }
}

/// The canonical form is canonical.
pub proof fn lemma_canon_is_canon(e: SExpr)
    ensures
        is_canon(canon(e)),
    decreases e,
{
    match e {
        SExpr::Cmp { l, r, .. } => {
            lemma_canon_is_canon(*l);
            lemma_canon_is_canon(*r);
        },
        SExpr::Not(x) => lemma_canon_is_canon(*x),
        SExpr::Arith { l, r, .. } => {
            lemma_canon_is_canon(*l);
            lemma_canon_is_canon(*r);
        },
        SExpr::And(cs) => {
            let c = canon_seq(cs);
            lemma_canon_seq_index(cs);
            assert forall|i: int| 0 <= i < c.len() implies is_canon(#[trigger] c[i]) by {
                lemma_canon_is_canon(cs[i]);
            }
            lemma_flatten_and_canon(c);
            let f = flatten_and(c);
            let s = sorted_exprs(f);
            lemma_expr_leq_total();
            f.lemma_sort_by_ensures(expr_leq());
            assert forall|j: int| 0 <= j < s.len() implies !(#[trigger] s[j] is And) && is_canon(s[j]) by {
                assert(s.contains(s[j]));
                let k = choose|k: int| 0 <= k < f.len() && f[k] == s[j];
            }
        },
        SExpr::Or(cs) => {
            let c = canon_seq(cs);
            lemma_canon_seq_index(cs);
            assert forall|i: int| 0 <= i < c.len() implies is_canon(#[trigger] c[i]) by {
                lemma_canon_is_canon(cs[i]);
            }
            lemma_flatten_or_canon(c);
            let f = flatten_or(c);
            let s = sorted_exprs(f);
            lemma_expr_leq_total();
            f.lemma_sort_by_ensures(expr_leq());
            assert forall|j: int| 0 <= j < s.len() implies !(#[trigger] s[j] is Or) && is_canon(s[j]) by {
                assert(s.contains(s[j]));
                let k = choose|k: int| 0 <= k < f.len() && f[k] == s[j];
            }
        },
        _ => {},
    }
}

proof fn lemma_flatten_and_plain(s: Seq<SExpr>)
    requires
        forall|i: int| 0 <= i < s.len() ==> !(#[trigger] s[i] is And),
    ensures
        flatten_and(s) == s,
    decreases s.len(),
{
    if s.len() > 0 {
        let init = s.drop_last();
        assert forall|i: int| 0 <= i < init.len() implies !(#[trigger] init[i] is And) by {
            assert(init[i] == s[i]);
        }
        lemma_flatten_and_plain(init);
        assert(!(s[s.len() - 1] is And));
        assert(init.push(s.last()) =~= s);
    }
}

proof fn lemma_flatten_or_plain(s: Seq<SExpr>)
    requires
        forall|i: int| 0 <= i < s.len() ==> !(#[trigger] s[i] is Or),
    ensures
        flatten_or(s) == s,
    decreases s.len(),
{
    if s.len() > 0 {
        let init = s.drop_last();
        assert forall|i: int| 0 <= i < init.len() implies !(#[trigger] init[i] is Or) by {
            assert(init[i] == s[i]);
        }
        lemma_flatten_or_plain(init);
        assert(!(s[s.len() - 1] is Or));
        assert(init.push(s.last()) =~= s);
    }
}

/// A canonical expression is its own canonical form.
pub proof fn lemma_canon_fixes_canon(e: SExpr)
    requires
        is_canon(e),
    ensures
        canon(e) == e,
    decreases e,
{
    match e {
        SExpr::Cmp { l, r, .. } => {
            lemma_canon_fixes_canon(*l);
            lemma_canon_fixes_canon(*r);
        },
        SExpr::Not(x) => lemma_canon_fixes_canon(*x),
        SExpr::Arith { l, r, .. } => {
            lemma_canon_fixes_canon(*l);
            lemma_canon_fixes_canon(*r);
        },
        SExpr::And(s) => {
            lemma_canon_seq_index(s);
            assert forall|i: int| 0 <= i < s.len() implies #[trigger] canon_seq(s)[i] == s[i] by {
                lemma_canon_fixes_canon(s[i]);
            }
            assert(canon_seq(s) =~= s);
            lemma_flatten_and_plain(s);
            lemma_sorted_exprs_unique(s, s);
        },
        SExpr::Or(s) => {
            lemma_canon_seq_index(s);
            assert forall|i: int| 0 <= i < s.len() implies #[trigger] canon_seq(s)[i] == s[i] by {
                lemma_canon_fixes_canon(s[i]);
            }
            assert(canon_seq(s) =~= s);
            lemma_flatten_or_plain(s);
            lemma_sorted_exprs_unique(s, s);
        },
        _ => {},
    }
}

/// Canonicalizing twice is canonicalizing once.
pub proof fn lemma_canon_idempotent(e: SExpr)
    ensures
        canon(canon(e)) == canon(e),
{
    lemma_canon_is_canon(e);
    lemma_canon_fixes_canon(canon(e));
}

/// The children of a conjunction after canonicalizing and flattening.
pub open spec fn and_parts(s: Seq<SExpr>) -> Seq<SExpr> {
    flatten_and(canon_seq(s))
}

/// The children of a disjunction after canonicalizing and flattening.
pub open spec fn or_parts(s: Seq<SExpr>) -> Seq<SExpr> {
    flatten_or(canon_seq(s))
}

proof fn lemma_canon_seq_concat(a: Seq<SExpr>, b: Seq<SExpr>)
    ensures
        canon_seq(a + b) == canon_seq(a) + canon_seq(b),
{
    lemma_canon_seq_index(a + b);
    lemma_canon_seq_index(a);
    lemma_canon_seq_index(b);
    assert(canon_seq(a + b) =~= canon_seq(a) + canon_seq(b));
}

proof fn lemma_flatten_and_concat(a: Seq<SExpr>, b: Seq<SExpr>)
    ensures
        flatten_and(a + b) == flatten_and(a) + flatten_and(b),
    decreases b.len(),
{
    if b.len() == 0 {
        assert(a + b =~= a);
        assert(flatten_and(a) + flatten_and(b) =~= flatten_and(a));
    } else {
        lemma_flatten_and_concat(a, b.drop_last());
        assert((a + b).drop_last() =~= a + b.drop_last());
        assert((a + b).last() == b.last());
        let t = match b.last() {
            SExpr::And(inner) => inner,
            other => seq![other],
        };
        assert(flatten_and(a + b) =~= flatten_and(a) + flatten_and(b.drop_last()) + t);
        assert(flatten_and(a) + flatten_and(b) =~= flatten_and(a) + (flatten_and(b.drop_last()) + t));
    }
}

proof fn lemma_flatten_or_concat(a: Seq<SExpr>, b: Seq<SExpr>)
    ensures
        flatten_or(a + b) == flatten_or(a) + flatten_or(b),
    decreases b.len(),
{
    if b.len() == 0 {
        assert(a + b =~= a);
        assert(flatten_or(a) + flatten_or(b) =~= flatten_or(a));
    } else {
        lemma_flatten_or_concat(a, b.drop_last());
        assert((a + b).drop_last() =~= a + b.drop_last());
        assert((a + b).last() == b.last());
        let t = match b.last() {
            SExpr::Or(inner) => inner,
            other => seq![other],
        };
        assert(flatten_or(a + b) =~= flatten_or(a) + flatten_or(b.drop_last()) + t);
        assert(flatten_or(a) + flatten_or(b) =~= flatten_or(a) + (flatten_or(b.drop_last()) + t));
    }
}

proof fn lemma_parts_perm(s1: Seq<SExpr>, s2: Seq<SExpr>)
    requires
        s1.to_multiset() == s2.to_multiset(),
    ensures
        and_parts(s1).to_multiset() == and_parts(s2).to_multiset(),
        or_parts(s1).to_multiset() == or_parts(s2).to_multiset(),
    decreases s1.len(),
{
    broadcast use vstd::seq_lib::group_to_multiset_ensures;
    broadcast use vstd::multiset::group_multiset_axioms;

    vstd::seq_lib::to_multiset_len(s1);
    vstd::seq_lib::to_multiset_len(s2);
    if s1.len() == 0 {
        assert(s2.len() == 0);
        assert(s1 =~= s2);
    } else {
        let x = s1.last();
        let init = s1.drop_last();
        assert(init + seq![x] =~= s1);
        assert(init.push(x) =~= s1);
        assert(s2.to_multiset().count(x) > 0);
        assert(s2.contains(x));
        let k = choose|k: int| 0 <= k < s2.len() && s2[k] == x;
        let pre = s2.take(k);
        let post = s2.skip(k + 1);
        let s2r = s2.remove(k);
        assert(s2r =~= pre + post);
        assert(s2 =~= pre + seq![x] + post);
        assert(s2r.to_multiset() =~= init.to_multiset());
        lemma_parts_perm(init, s2r);
        lemma_canon_seq_concat(init, seq![x]);
        lemma_canon_seq_concat(pre, seq![x]);
        lemma_canon_seq_concat(pre + seq![x], post);
        lemma_canon_seq_concat(pre, post);
        let cx = canon_seq(seq![x]);
        lemma_flatten_and_concat(canon_seq(init), cx);
        lemma_flatten_and_concat(canon_seq(pre), cx);
        lemma_flatten_and_concat(canon_seq(pre) + cx, canon_seq(post));
        lemma_flatten_and_concat(canon_seq(pre), canon_seq(post));
        lemma_flatten_or_concat(canon_seq(init), cx);
        lemma_flatten_or_concat(canon_seq(pre), cx);
        lemma_flatten_or_concat(canon_seq(pre) + cx, canon_seq(post));
        lemma_flatten_or_concat(canon_seq(pre), canon_seq(post));
        let fa = flatten_and(canon_seq(pre));
        let fb = flatten_and(canon_seq(post));
        let fx = flatten_and(cx);
        assert(and_parts(s1) == and_parts(init) + fx);
        assert(and_parts(s2) == fa + fx + fb);
        assert(and_parts(s2r) == fa + fb);
        vstd::seq_lib::lemma_multiset_commutative(fa + fx, fb);
        vstd::seq_lib::lemma_multiset_commutative(fa, fx);
        vstd::seq_lib::lemma_multiset_commutative(fa, fb);
        vstd::seq_lib::lemma_multiset_commutative(flatten_and(canon_seq(init)), fx);
        assert(and_parts(s2).to_multiset() =~= and_parts(s1).to_multiset());
        let ga = flatten_or(canon_seq(pre));
        let gb = flatten_or(canon_seq(post));
        let gx = flatten_or(cx);
        assert(or_parts(s1) == or_parts(init) + gx);
        assert(or_parts(s2) == ga + gx + gb);
        assert(or_parts(s2r) == ga + gb);
        vstd::seq_lib::lemma_multiset_commutative(ga + gx, gb);
        vstd::seq_lib::lemma_multiset_commutative(ga, gx);
        vstd::seq_lib::lemma_multiset_commutative(ga, gb);
        vstd::seq_lib::lemma_multiset_commutative(flatten_or(canon_seq(init)), gx);
        assert(or_parts(s2).to_multiset() =~= or_parts(s1).to_multiset());
    }
}

/// The order of the children of a conjunction or a disjunction carries no
/// meaning: rearranged children have the same canonical form.
pub proof fn lemma_canon_ignores_order(s1: Seq<SExpr>, s2: Seq<SExpr>)
    requires
        s1.to_multiset() == s2.to_multiset(),
    ensures
        canon(SExpr::And(s1)) == canon(SExpr::And(s2)),
        canon(SExpr::Or(s1)) == canon(SExpr::Or(s2)),
{
    lemma_parts_perm(s1, s2);
    lemma_expr_leq_total();
    and_parts(s1).lemma_sort_by_ensures(expr_leq());
    or_parts(s1).lemma_sort_by_ensures(expr_leq());
    lemma_sorted_exprs_unique(and_parts(s2), sorted_exprs(and_parts(s1)));
    lemma_sorted_exprs_unique(or_parts(s2), sorted_exprs(or_parts(s1)));
}


proof fn lemma_nested_and_parts(xs: Seq<SExpr>, ys: Seq<SExpr>, zs: Seq<SExpr>)
    ensures
        and_parts(xs + seq![SExpr::And(ys)] + zs).to_multiset() == and_parts(xs + ys + zs).to_multiset(),
{
    broadcast use vstd::seq_lib::group_to_multiset_ensures;

    let a = canon_seq(xs);
    let y = canon_seq(ys);
    let z = canon_seq(zs);
    lemma_canon_seq_index(ys);
    assert forall|i: int| 0 <= i < y.len() implies is_canon(#[trigger] y[i]) by {
        lemma_canon_is_canon(ys[i]);
    }
    lemma_flatten_and_canon(y);
    let p = flatten_and(y);
    lemma_expr_leq_total();
    p.lemma_sort_by_ensures(expr_leq());
    let srt = sorted_exprs(p);
    let c = canon(SExpr::And(ys));
    assert(flatten_and(seq![c]) == srt) by {
        assert(seq![c].drop_last() =~= Seq::<SExpr>::empty());
        assert(seq![c].last() == c);
        assert(flatten_and(Seq::<SExpr>::empty()) == Seq::<SExpr>::empty());
        assert(flatten_and(seq![c]) == flatten_and(Seq::<SExpr>::empty()) + match c {
            SExpr::And(inner) => inner,
            other => seq![other],
        });
        assert(c == if srt.len() == 1 {
            srt[0]
        } else {
            SExpr::And(srt)
        });
        if srt.len() == 1 {
            assert(srt.to_multiset().count(srt[0]) > 0) by {
                assert(srt.contains(srt[0]));
            }
            assert(p.to_multiset().count(srt[0]) > 0);
            assert(p.contains(srt[0]));
            let j = choose|j: int| 0 <= j < p.len() && p[j] == srt[0];
            assert(!(p[j] is And));
            assert(seq![srt[0]] =~= srt);
        }
        assert(Seq::<SExpr>::empty() + srt =~= srt);
        assert(Seq::<SExpr>::empty() + seq![c] =~= seq![c]);
    }
    lemma_canon_seq_index(seq![SExpr::And(ys)]);
    assert(canon_seq(seq![SExpr::And(ys)]) =~= seq![c]);
    lemma_canon_seq_concat(xs, seq![SExpr::And(ys)]);
    lemma_canon_seq_concat(xs + seq![SExpr::And(ys)], zs);
    lemma_canon_seq_concat(xs, ys);
    lemma_canon_seq_concat(xs + ys, zs);
    lemma_flatten_and_concat(a, seq![c]);
    lemma_flatten_and_concat(a + seq![c], z);
    lemma_flatten_and_concat(a, y);
    lemma_flatten_and_concat(a + y, z);
    let fa = flatten_and(a);
    let fz = flatten_and(z);
    assert(and_parts(xs + seq![SExpr::And(ys)] + zs) == fa + srt + fz);
    assert(and_parts(xs + ys + zs) == fa + p + fz);
    vstd::seq_lib::lemma_multiset_commutative(fa + srt, fz);
    vstd::seq_lib::lemma_multiset_commutative(fa, srt);
    vstd::seq_lib::lemma_multiset_commutative(fa + p, fz);
    vstd::seq_lib::lemma_multiset_commutative(fa, p);
}

proof fn lemma_nested_or_parts(xs: Seq<SExpr>, ys: Seq<SExpr>, zs: Seq<SExpr>)
    ensures
        or_parts(xs + seq![SExpr::Or(ys)] + zs).to_multiset() == or_parts(xs + ys + zs).to_multiset(),
{
    broadcast use vstd::seq_lib::group_to_multiset_ensures;

    let a = canon_seq(xs);
    let y = canon_seq(ys);
    let z = canon_seq(zs);
    lemma_canon_seq_index(ys);
    assert forall|i: int| 0 <= i < y.len() implies is_canon(#[trigger] y[i]) by {
        lemma_canon_is_canon(ys[i]);
    }
    lemma_flatten_or_canon(y);
    let p = flatten_or(y);
    lemma_expr_leq_total();
    p.lemma_sort_by_ensures(expr_leq());
    let srt = sorted_exprs(p);
    let c = canon(SExpr::Or(ys));
    assert(flatten_or(seq![c]) == srt) by {
        assert(seq![c].drop_last() =~= Seq::<SExpr>::empty());
        assert(seq![c].last() == c);
        assert(flatten_or(Seq::<SExpr>::empty()) == Seq::<SExpr>::empty());
        assert(flatten_or(seq![c]) == flatten_or(Seq::<SExpr>::empty()) + match c {
            SExpr::Or(inner) => inner,
            other => seq![other],
        });
        assert(c == if srt.len() == 1 {
            srt[0]
        } else {
            SExpr::Or(srt)
        });
        if srt.len() == 1 {
            assert(srt.to_multiset().count(srt[0]) > 0) by {
                assert(srt.contains(srt[0]));
            }
            assert(p.to_multiset().count(srt[0]) > 0);
            assert(p.contains(srt[0]));
            let j = choose|j: int| 0 <= j < p.len() && p[j] == srt[0];
            assert(!(p[j] is Or));
            assert(seq![srt[0]] =~= srt);
        }
        assert(Seq::<SExpr>::empty() + srt =~= srt);
        assert(Seq::<SExpr>::empty() + seq![c] =~= seq![c]);
    }
    lemma_canon_seq_index(seq![SExpr::Or(ys)]);
    assert(canon_seq(seq![SExpr::Or(ys)]) =~= seq![c]);
    lemma_canon_seq_concat(xs, seq![SExpr::Or(ys)]);
    lemma_canon_seq_concat(xs + seq![SExpr::Or(ys)], zs);
    lemma_canon_seq_concat(xs, ys);
    lemma_canon_seq_concat(xs + ys, zs);
    lemma_flatten_or_concat(a, seq![c]);
    lemma_flatten_or_concat(a + seq![c], z);
    lemma_flatten_or_concat(a, y);
    lemma_flatten_or_concat(a + y, z);
    let fa = flatten_or(a);
    let fz = flatten_or(z);
    assert(or_parts(xs + seq![SExpr::Or(ys)] + zs) == fa + srt + fz);
    assert(or_parts(xs + ys + zs) == fa + p + fz);
    vstd::seq_lib::lemma_multiset_commutative(fa + srt, fz);
    vstd::seq_lib::lemma_multiset_commutative(fa, srt);
    vstd::seq_lib::lemma_multiset_commutative(fa + p, fz);
    vstd::seq_lib::lemma_multiset_commutative(fa, p);
}

/// Nesting carries no meaning: a conjunction spliced into the conjunction
/// around it, or a disjunction into the disjunction around it, has the
/// same canonical form as the flat list.
pub proof fn lemma_canon_ignores_nesting(xs: Seq<SExpr>, ys: Seq<SExpr>, zs: Seq<SExpr>)
    ensures
        canon(SExpr::And(xs + seq![SExpr::And(ys)] + zs)) == canon(SExpr::And(xs + ys + zs)),
        canon(SExpr::Or(xs + seq![SExpr::Or(ys)] + zs)) == canon(SExpr::Or(xs + ys + zs)),
{
    let n = xs + seq![SExpr::And(ys)] + zs;
    let f = xs + ys + zs;
    let no = xs + seq![SExpr::Or(ys)] + zs;
    lemma_nested_and_parts(xs, ys, zs);
    lemma_nested_or_parts(xs, ys, zs);
    lemma_expr_leq_total();
    and_parts(n).lemma_sort_by_ensures(expr_leq());
    or_parts(no).lemma_sort_by_ensures(expr_leq());
    lemma_sorted_exprs_unique(and_parts(f), sorted_exprs(and_parts(n)));
    lemma_sorted_exprs_unique(or_parts(f), sorted_exprs(or_parts(no)));
}

} // verus!
