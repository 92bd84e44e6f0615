//! A total order on expressions (variant first, then fields, sequences
//! lexicographically), its proof, and sorting by it.

use vstd::prelude::*;
use vstd::relations::{sorted_by, total_ordering};
use vstd::seq_lib::lemma_sorted_unique;
use crate::ir::{
    ArithOp, CmpOp, ColRef, Expr, Plan, SExpr, view_expr, view_exprs, view_keys, view_opt, lemma_view_exprs,
};
use crate::sorting::{Key, keys_equal};
use crate::text::chars_vec;

verus! {

/// Three-way comparison of integers: -1, 0 or 1.
pub open spec fn ord_int(a: int, b: int) -> int {
    if a < b {
        -1
    } else if a == b {
        0
    } else {
        1
    }
}

pub open spec fn ord_chars(a: Seq<char>, b: Seq<char>) -> int
    decreases a.len(),
{
    if a.len() == 0 {
        if b.len() == 0 {
            0
        } else {
            -1
        }
    } else if b.len() == 0 {
        1
    } else if a[0] != b[0] {
        ord_int(a[0] as int, b[0] as int)
    } else {
        ord_chars(a.drop_first(), b.drop_first())
    }
}

pub open spec fn ord_colref(a: ColRef, b: ColRef) -> int {
    if a.rel != b.rel {
        ord_int(a.rel as int, b.rel as int)
    } else {
        ord_int(a.col as int, b.col as int)
    }
}

pub open spec fn ord_op_rank(o: CmpOp) -> int {
    match o {
        CmpOp::Eq => 0,
        CmpOp::Ne => 1,
        CmpOp::Lt => 2,
        CmpOp::Le => 3,
        CmpOp::Gt => 4,
        CmpOp::Ge => 5,
    }
}

pub open spec fn arith_op_rank(o: ArithOp) -> int {
    match o {
        ArithOp::Add => 0,
        ArithOp::Sub => 1,
        ArithOp::Mul => 2,
        ArithOp::Div => 3,
    }
}

pub open spec fn bool_rank(b: bool) -> int {
    if b {
        1
    } else {
        0
    }
}

/// Position of the variant in the declaration of `Expr`.
pub open spec fn expr_rank(e: SExpr) -> int {
    match e {
        SExpr::Col(_) => 0,
        SExpr::Int(_) => 1,
        SExpr::Str(_) => 2,
        SExpr::Bool(_) => 3,
        SExpr::Float(_) => 4,
        SExpr::Cmp { .. } => 5,
        SExpr::And(_) => 6,
        SExpr::Or(_) => 7,
        SExpr::Not(_) => 8,
        SExpr::Arith { .. } => 9,
    }
}

/// The order of expressions: variant, then fields left to right.
pub open spec fn ord_expr(a: SExpr, b: SExpr) -> int
    decreases a, 0nat,
{
    if expr_rank(a) != expr_rank(b) {
        ord_int(expr_rank(a), expr_rank(b))
    } else {
        match (a, b) {
            (SExpr::Col(x), SExpr::Col(y)) => ord_colref(x, y),
            (SExpr::Int(x), SExpr::Int(y)) => ord_int(x as int, y as int),
            (SExpr::Str(x), SExpr::Str(y)) => ord_chars(x, y),
            (SExpr::Bool(x), SExpr::Bool(y)) => ord_int(bool_rank(x), bool_rank(y)),
            (SExpr::Float(x), SExpr::Float(y)) => ord_int(x as int, y as int),
            (SExpr::Cmp { op: o1, l: l1, r: r1 }, SExpr::Cmp { op: o2, l: l2, r: r2 }) => {
                if o1 != o2 {
                    ord_int(ord_op_rank(o1), ord_op_rank(o2))
                } else if ord_expr(*l1, *l2) != 0 {
                    ord_expr(*l1, *l2)
                } else {
                    ord_expr(*r1, *r2)
                }
            },
            (SExpr::And(x), SExpr::And(y)) => ord_exprs(x, y),
            (SExpr::Or(x), SExpr::Or(y)) => ord_exprs(x, y),
            (SExpr::Not(x), SExpr::Not(y)) => ord_expr(*x, *y),
            (SExpr::Arith { op: o1, l: l1, r: r1 }, SExpr::Arith { op: o2, l: l2, r: r2 }) => {
                if o1 != o2 {
                    ord_int(arith_op_rank(o1), arith_op_rank(o2))
                } else if ord_expr(*l1, *l2) != 0 {
                    ord_expr(*l1, *l2)
                } else {
                    ord_expr(*r1, *r2)
                }
            },
            _ => 0,
        }
    }
}

/// Lexicographic order of expression sequences.
pub open spec fn ord_exprs(a: Seq<SExpr>, b: Seq<SExpr>) -> int
    decreases a, 1nat,
{
    if a.len() == 0 {
        if b.len() == 0 {
            0
        } else {
            -1
        }
    } else if b.len() == 0 {
        1
    } else if ord_expr(a[0], b[0]) != 0 {
        ord_expr(a[0], b[0])
    } else {
        ord_exprs(a.drop_first(), b.drop_first())
    }
}

/// A nonempty sequence is its head followed by its tail.
pub proof fn lemma_head_tail<A>(a: Seq<A>)
    requires
        a.len() > 0,
    ensures
        a == seq![a[0]] + a.drop_first(),
{
    assert(a =~= seq![a[0]] + a.drop_first());
}

pub proof fn lemma_ord_chars(a: Seq<char>, b: Seq<char>, c: Seq<char>)
    ensures
        -1 <= ord_chars(a, b) <= 1,
        ord_chars(a, b) == 0 <==> a == b,
        ord_chars(a, b) == -ord_chars(b, a),
        ord_chars(a, b) <= 0 && ord_chars(b, c) <= 0 ==> ord_chars(a, c) <= 0,
    decreases a.len(),
{
    if a.len() > 0 && b.len() > 0 {
        if c.len() > 0 {
            lemma_ord_chars(a.drop_first(), b.drop_first(), c.drop_first());
        } else {
            lemma_ord_chars(a.drop_first(), b.drop_first(), c);
        }
        lemma_head_tail(a);
        lemma_head_tail(b);
        if a[0] == b[0] && a.drop_first() == b.drop_first() {
            assert(a == b);
        }
        if a == b {
            assert(a.drop_first() == b.drop_first());
        }
    } else if a.len() == 0 && b.len() == 0 {
        assert(a =~= b);
    }
}


/// `ord_expr` is antisymmetric, ranges over -1..=1, and is zero exactly on
/// equal expressions.
pub proof fn lemma_ord_expr_basic(a: SExpr, b: SExpr)
    ensures
        -1 <= ord_expr(a, b) <= 1,
        ord_expr(a, b) == 0 <==> a == b,
        ord_expr(a, b) == -ord_expr(b, a),
    decreases a, 0nat,
{
    match (a, b) {
        (SExpr::Str(x), SExpr::Str(y)) => lemma_ord_chars(x, y, y),
        (SExpr::Cmp { op: o1, l: l1, r: r1 }, SExpr::Cmp { op: o2, l: l2, r: r2 }) => {
            lemma_ord_expr_basic(*l1, *l2);
            lemma_ord_expr_basic(*r1, *r2);
        },
        (SExpr::Arith { op: o1, l: l1, r: r1 }, SExpr::Arith { op: o2, l: l2, r: r2 }) => {
            lemma_ord_expr_basic(*l1, *l2);
            lemma_ord_expr_basic(*r1, *r2);
        },
        (SExpr::Not(x), SExpr::Not(y)) => lemma_ord_expr_basic(*x, *y),
        (SExpr::And(x), SExpr::And(y)) => lemma_ord_exprs_basic(x, y),
        (SExpr::Or(x), SExpr::Or(y)) => lemma_ord_exprs_basic(x, y),
        _ => {},
    }
}

/// The sequence counterpart of `lemma_ord_expr_basic`.
pub proof fn lemma_ord_exprs_basic(a: Seq<SExpr>, b: Seq<SExpr>)
    ensures
        -1 <= ord_exprs(a, b) <= 1,
        ord_exprs(a, b) == 0 <==> a == b,
        ord_exprs(a, b) == -ord_exprs(b, a),
    decreases a, 1nat,
{
    if a.len() > 0 && b.len() > 0 {
        lemma_ord_expr_basic(a[0], b[0]);
        lemma_ord_exprs_basic(a.drop_first(), b.drop_first());
        lemma_head_tail(a);
        lemma_head_tail(b);
        if a[0] == b[0] && a.drop_first() == b.drop_first() {
            assert(a == b);
        }
        if a == b {
            assert(a.drop_first() == b.drop_first());
        }
    } else if a.len() == 0 && b.len() == 0 {
        assert(a =~= b);
    }
}

/// `ord_expr` is transitive.
pub proof fn lemma_ord_expr_trans(a: SExpr, b: SExpr, c: SExpr)
    requires
        ord_expr(a, b) <= 0,
        ord_expr(b, c) <= 0,
    ensures
        ord_expr(a, c) <= 0,
    decreases a, 0nat,
{
    lemma_ord_expr_basic(a, b);
    lemma_ord_expr_basic(b, c);
    lemma_ord_expr_basic(a, c);
    match (a, b, c) {
        (
            SExpr::Cmp { op: o1, l: l1, r: r1 },
            SExpr::Cmp { op: o2, l: l2, r: r2 },
            SExpr::Cmp { op: o3, l: l3, r: r3 },
        ) => {
            lemma_ord_expr_basic(*l1, *l2);
            lemma_ord_expr_basic(*l2, *l3);
            lemma_ord_expr_basic(*l1, *l3);
            if ord_expr(*l1, *l2) <= 0 && ord_expr(*l2, *l3) <= 0 {
                lemma_ord_expr_trans(*l1, *l2, *l3);
            }
            if ord_expr(*r1, *r2) <= 0 && ord_expr(*r2, *r3) <= 0 {
                lemma_ord_expr_trans(*r1, *r2, *r3);
            }
        },
        (
            SExpr::Arith { op: o1, l: l1, r: r1 },
            SExpr::Arith { op: o2, l: l2, r: r2 },
            SExpr::Arith { op: o3, l: l3, r: r3 },
        ) => {
            lemma_ord_expr_basic(*l1, *l2);
            lemma_ord_expr_basic(*l2, *l3);
            lemma_ord_expr_basic(*l1, *l3);
            if ord_expr(*l1, *l2) <= 0 && ord_expr(*l2, *l3) <= 0 {
                lemma_ord_expr_trans(*l1, *l2, *l3);
            }
            if ord_expr(*r1, *r2) <= 0 && ord_expr(*r2, *r3) <= 0 {
                lemma_ord_expr_trans(*r1, *r2, *r3);
            }
        },
        (SExpr::Str(x), SExpr::Str(y), SExpr::Str(z)) => lemma_ord_chars(x, y, z),
        (SExpr::Not(x), SExpr::Not(y), SExpr::Not(z)) => lemma_ord_expr_trans(*x, *y, *z),
        (SExpr::And(x), SExpr::And(y), SExpr::And(z)) => lemma_ord_exprs_trans(x, y, z),
        (SExpr::Or(x), SExpr::Or(y), SExpr::Or(z)) => lemma_ord_exprs_trans(x, y, z),
        _ => {},
    }
}

/// `ord_exprs` is transitive.
pub proof fn lemma_ord_exprs_trans(a: Seq<SExpr>, b: Seq<SExpr>, c: Seq<SExpr>)
    requires
        ord_exprs(a, b) <= 0,
        ord_exprs(b, c) <= 0,
    ensures
        ord_exprs(a, c) <= 0,
    decreases a, 1nat,
{
    if a.len() > 0 && b.len() > 0 && c.len() > 0 {
        lemma_ord_expr_basic(a[0], b[0]);
        lemma_ord_expr_basic(b[0], c[0]);
        lemma_ord_expr_basic(a[0], c[0]);
        if ord_expr(a[0], b[0]) <= 0 && ord_expr(b[0], c[0]) <= 0 {
            lemma_ord_expr_trans(a[0], b[0], c[0]);
        }
        if ord_exprs(a.drop_first(), b.drop_first()) <= 0 && ord_exprs(
            b.drop_first(),
            c.drop_first(),
        ) <= 0 {
            lemma_ord_exprs_trans(a.drop_first(), b.drop_first(), c.drop_first());
        }
    }
}


fn sign_u64(a: u64, b: u64) -> (r: i8)
    ensures
        r == ord_int(a as int, b as int),
{
    if a < b {
        -1
    } else if a == b {
        0
    } else {
        1
    }
}

fn sign_usize(a: usize, b: usize) -> (r: i8)
    ensures
        r == ord_int(a as int, b as int),
{
    if a < b {
        -1
    } else if a == b {
        0
    } else {
        1
    }
}

/// Three-way comparison of column references (relation, then column).
pub fn compare_colref(a: ColRef, b: ColRef) -> (r: i8)
    ensures
        r == ord_colref(a, b),
{
    if a.rel != b.rel {
        sign_usize(a.rel, b.rel)
    } else {
        sign_usize(a.col, b.col)
    }
}

/// Three-way comparison of strings, character by character.
pub fn compare_str(a: &str, b: &str) -> (r: i8)
    ensures
        r == ord_chars(a@, b@),
{
    let x = chars_vec(a);
    let y = chars_vec(b);
    let mut i: usize = 0;
    assert(x@.skip(0) =~= x@);
    assert(y@.skip(0) =~= y@);
    while i < x.len() && i < y.len() && x[i] == y[i]
        invariant
            i <= x@.len(),
            i <= y@.len(),
            ord_chars(x@, y@) == ord_chars(x@.skip(i as int), y@.skip(i as int)),
        decreases x.len() - i,
    {
        assert(x@.skip(i as int).drop_first() =~= x@.skip(i + 1));
        assert(y@.skip(i as int).drop_first() =~= y@.skip(i + 1));
        i = i + 1;
    }
    assert(x@.skip(i as int).len() == x@.len() - i);
    assert(y@.skip(i as int).len() == y@.len() - i);
    assert(i < x@.len() ==> x@.skip(i as int)[0] == x@[i as int]);
    assert(i < y@.len() ==> y@.skip(i as int)[0] == y@[i as int]);
    if i == x.len() {
        if i == y.len() {
            0
        } else {
            -1
        }
    } else if i == y.len() {
        1
    } else {
        let cx = x[i];
        let cy = y[i];
        assert(cx != cy);
        assert(ord_chars(x@.skip(i as int), y@.skip(i as int)) == ord_int(cx as int, cy as int));
        if cx < cy {
            -1
        } else {
            1
        }
    }
}

fn rank_of(e: &Expr) -> (r: u8)
    ensures
        r == expr_rank(e@),
{
    match e {
        Expr::Col(_) => 0,
        Expr::Int(_) => 1,
        Expr::Str(_) => 2,
        Expr::Bool(_) => 3,
        Expr::Float(_) => 4,
        Expr::Cmp { .. } => 5,
        Expr::And(_) => 6,
        Expr::Or(_) => 7,
        Expr::Not(_) => 8,
        Expr::Arith { .. } => 9,
    }
}

fn cmp_op_index(o: CmpOp) -> (r: u8)
    ensures
        r == ord_op_rank(o),
{
    match o {
        CmpOp::Eq => 0,
        CmpOp::Ne => 1,
        CmpOp::Lt => 2,
        CmpOp::Le => 3,
        CmpOp::Gt => 4,
        CmpOp::Ge => 5,
    }
}

fn arith_op_index(o: ArithOp) -> (r: u8)
    ensures
        r == arith_op_rank(o),
{
    match o {
        ArithOp::Add => 0,
        ArithOp::Sub => 1,
        ArithOp::Mul => 2,
        ArithOp::Div => 3,
    }
}

/// Three-way comparison of expressions under `ord_expr`.
pub fn compare_expr(a: &Expr, b: &Expr) -> (r: i8)
    ensures
        r == ord_expr(a@, b@),
    decreases a,
{
    let ra = rank_of(a);
    let rb = rank_of(b);
    if ra != rb {
        return if ra < rb {
            -1
        } else {
            1
        };
    }
    match (a, b) {
        (Expr::Col(x), Expr::Col(y)) => compare_colref(*x, *y),
        (Expr::Int(x), Expr::Int(y)) => {
            if *x < *y {
                -1
            } else if *x == *y {
                0
            } else {
                1
            }
        },
        (Expr::Str(x), Expr::Str(y)) => compare_str(x.as_str(), y.as_str()),
        (Expr::Bool(x), Expr::Bool(y)) => {
            if *x == *y {
                0
            } else if !*x {
                -1
            } else {
                1
            }
        },
        (Expr::Float(x), Expr::Float(y)) => sign_u64(*x, *y),
        (Expr::Cmp { op: o1, l: l1, r: r1 }, Expr::Cmp { op: o2, l: l2, r: r2 }) => {
            if *o1 != *o2 {
                if cmp_op_index(*o1) < cmp_op_index(*o2) {
                    -1
                } else {
                    1
                }
            } else {
                let c = compare_expr(l1, l2);
                if c != 0 {
                    c
                } else {
                    compare_expr(r1, r2)
                }
            }
        },
        (Expr::Arith { op: o1, l: l1, r: r1 }, Expr::Arith { op: o2, l: l2, r: r2 }) => {
            if *o1 != *o2 {
                if arith_op_index(*o1) < arith_op_index(*o2) {
                    -1
                } else {
                    1
                }
            } else {
                let c = compare_expr(l1, l2);
                if c != 0 {
                    c
                } else {
                    compare_expr(r1, r2)
                }
            }
        },
        (Expr::And(x), Expr::And(y)) => compare_expr_vecs(x, y),
        (Expr::Or(x), Expr::Or(y)) => compare_expr_vecs(x, y),
        (Expr::Not(x), Expr::Not(y)) => compare_expr(x, y),
        _ => 0,
    }
}

/// Lexicographic three-way comparison of expression vectors.
pub fn compare_expr_vecs(a: &Vec<Expr>, b: &Vec<Expr>) -> (r: i8)
    ensures
        r == ord_exprs(view_exprs(a@), view_exprs(b@)),
    decreases a,
{
    proof {
        lemma_view_exprs(a@);
        lemma_view_exprs(b@);
    }
    let ghost va = view_exprs(a@);
    let ghost vb = view_exprs(b@);
    let mut i: usize = 0;
    assert(va.skip(0) =~= va);
    assert(vb.skip(0) =~= vb);
    while i < a.len() && i < b.len()
        invariant
            i <= a@.len(),
            i <= b@.len(),
            va == view_exprs(a@),
            vb == view_exprs(b@),
            va.len() == a@.len(),
            vb.len() == b@.len(),
            forall|j: int| 0 <= j < a@.len() ==> #[trigger] va[j] == view_expr(a@[j]),
            forall|j: int| 0 <= j < b@.len() ==> #[trigger] vb[j] == view_expr(b@[j]),
            ord_exprs(va, vb) == ord_exprs(va.skip(i as int), vb.skip(i as int)),
        decreases a.len() - i,
    {
        proof {
            assert(decreases_to!(a => a[i as int]));
        }
        let c = compare_expr(&a[i], &b[i]);
        assert(va.skip(i as int)[0] == va[i as int]);
        assert(va.skip(i as int).len() > 0 && vb.skip(i as int).len() > 0);
        assert(vb.skip(i as int)[0] == vb[i as int]);
        if c != 0 {
            assert(c == ord_expr(va[i as int], vb[i as int]));
            assert(ord_exprs(va.skip(i as int), vb.skip(i as int)) == c);
            return c;
        }
        assert(va.skip(i as int).drop_first() =~= va.skip(i + 1));
        assert(vb.skip(i as int).drop_first() =~= vb.skip(i + 1));
        i = i + 1;
    }
    if i == a.len() {
        if i == b.len() {
            0
        } else {
            -1
        }
    } else {
        1
    }
}


/// `a` comes no later than `b`.
pub open spec fn expr_le(a: SExpr, b: SExpr) -> bool {
    ord_expr(a, b) <= 0
}

/// The order as a relation.
pub open spec fn expr_leq() -> spec_fn(SExpr, SExpr) -> bool {
    |a: SExpr, b: SExpr| expr_le(a, b)
}

/// The expressions of `s`, in order.
pub open spec fn sorted_exprs(s: Seq<SExpr>) -> Seq<SExpr> {
    s.sort_by(expr_leq())
}

/// `expr_le` is a total order.
pub proof fn lemma_expr_leq_total()
    ensures
        total_ordering(expr_leq()),
{
    let leq = expr_leq();
    assert forall|x: SExpr| #[trigger] leq(x, x) by {
        lemma_ord_expr_basic(x, x);
    }
    assert forall|x: SExpr, y: SExpr| #[trigger] leq(x, y) && #[trigger] leq(y, x) implies x == y by {
        lemma_ord_expr_basic(x, y);
    }
    assert forall|x: SExpr, y: SExpr, z: SExpr| #[trigger] leq(x, y) && #[trigger] leq(y, z) implies leq(x, z) by {
        lemma_ord_expr_trans(x, y, z);
    }
    assert forall|x: SExpr, y: SExpr| #[trigger] leq(x, y) || #[trigger] leq(y, x) by {
        lemma_ord_expr_basic(x, y);
    }
}

/// A sequence sorted by the order and holding the same elements as `s` is
/// `sorted_exprs(s)`.
pub proof fn lemma_sorted_exprs_unique(s: Seq<SExpr>, t: Seq<SExpr>)
    requires
        sorted_by(t, expr_leq()),
        t.to_multiset() == s.to_multiset(),
    ensures
        t == sorted_exprs(s),
{
    lemma_expr_leq_total();
    s.lemma_sort_by_ensures(expr_leq());
    lemma_sorted_unique(t, sorted_exprs(s), expr_leq());
}

/// Sorts expressions by the order (an insertion sort).
pub fn sort_exprs(v: Vec<Expr>) -> (r: Vec<Expr>)
    ensures
        view_exprs(r@) == sorted_exprs(view_exprs(v@)),
{
    broadcast use vstd::seq_lib::group_to_multiset_ensures;

    let ghost orig = view_exprs(v@);
    let mut v = v;
    let mut r: Vec<Expr> = Vec::new();
    proof {
        lemma_view_exprs(v@);
        lemma_expr_leq_total();
    }
    while v.len() > 0
        invariant
            orig.to_multiset() == view_exprs(v@).to_multiset().add(view_exprs(r@).to_multiset()),
            sorted_by(view_exprs(r@), expr_leq()),
            total_ordering(expr_leq()),
        decreases v.len(),
    {
        let ghost vv = v@;
        let ghost rv = view_exprs(r@);
        let x = v.pop().unwrap();
        proof {
            lemma_view_exprs(vv);
            lemma_view_exprs(v@);
            lemma_view_exprs(r@);
            assert(vv == v@.push(x));
            assert(view_exprs(vv) =~= view_exprs(v@).push(x@));
        }
        let mut k: usize = 0;
        while k < r.len() && compare_expr(&x, &r[k]) > 0
            invariant
                k <= r@.len(),
                rv == view_exprs(r@),
                rv.len() == r@.len(),
                forall|j: int| 0 <= j < r@.len() ==> #[trigger] rv[j] == view_expr(r@[j]),
                forall|j: int| 0 <= j < k ==> ord_expr(x@, #[trigger] rv[j]) > 0,
            decreases r.len() - k,
        {
            k = k + 1;
        }
        let ghost xv = x@;
        r.insert(k, x);
        proof {
            lemma_view_exprs(r@);
            assert(view_exprs(r@) =~= rv.insert(k as int, xv));
            let nr = view_exprs(r@);
            assert forall|i: int, j: int| 0 <= i < j < nr.len() implies #[trigger] expr_leq()(nr[i], nr[j]) by {
                if j == k {
                    lemma_ord_expr_basic(xv, nr[i]);
                } else if i == k {
                    assert(ord_expr(xv, rv[k as int]) <= 0);
                    if j > k + 1 {
                        assert(expr_leq()(rv[k as int], rv[j - 1]));
                        lemma_ord_expr_trans(xv, rv[k as int], rv[j - 1]);
                    }
                } else {
                }
            }
            let ins = rv.insert(k as int, xv);
            vstd::seq_lib::to_multiset_insert(rv, k as int, xv);
            broadcast use vstd::multiset::group_multiset_axioms;
            assert(view_exprs(vv) == view_exprs(v@).push(xv));
            vstd::seq_lib::to_multiset_build(view_exprs(v@), xv);
            assert(view_exprs(v@).to_multiset().add(nr.to_multiset()) =~= view_exprs(
                vv,
            ).to_multiset().add(rv.to_multiset()));
        }
    }
    proof {
        lemma_view_exprs(v@);
        assert(view_exprs(v@) =~= Seq::<SExpr>::empty());
        assert(orig.to_multiset() =~= view_exprs(r@).to_multiset());
        lemma_sorted_exprs_unique(orig, view_exprs(r@));
    }
    r
}

/// Two character sequences compare equal exactly when they are equal.
pub proof fn lemma_ord_chars_eq(a: Seq<char>, b: Seq<char>)
    ensures
        ord_chars(a, b) == 0 <==> a == b,
{
    lemma_ord_chars(a, b, b);
}

/// Whether two expressions have the same model.
pub fn expr_eq(a: &Expr, b: &Expr) -> (r: bool)
    ensures
        r == (a@ == b@),
{
    let c = compare_expr(a, b);
    proof {
        lemma_ord_expr_basic(a@, b@);
    }
    c == 0
}

/// Whether two expression lists have the same model.
pub fn exprs_equal(a: &Vec<Expr>, b: &Vec<Expr>) -> (r: bool)
    ensures
        r == (view_exprs(a@) == view_exprs(b@)),
{
    proof {
        lemma_view_exprs(a@);
        lemma_view_exprs(b@);
    }
    if a.len() != b.len() {
        return false;
    }
    let mut i: usize = 0;
    while i < a.len()
        invariant
            i <= a@.len(),
            a@.len() == b@.len(),
            view_exprs(a@).len() == a@.len(),
            view_exprs(b@).len() == b@.len(),
            forall|j: int| 0 <= j < a@.len() ==> #[trigger] view_exprs(a@)[j] == view_expr(a@[j]),
            forall|j: int| 0 <= j < b@.len() ==> #[trigger] view_exprs(b@)[j] == view_expr(b@[j]),
            forall|j: int| 0 <= j < i ==> view_expr(a@[j]) == view_expr(b@[j]),
        decreases a.len() - i,
    {
        if !expr_eq(&a[i], &b[i]) {
            proof {
                assert(view_exprs(a@)[i as int] != view_exprs(b@)[i as int]);
            }
            return false;
        }
        i = i + 1;
    }
    proof {
        assert(view_exprs(a@) =~= view_exprs(b@));
    }
    true
}

/// Whether two lists of sort keys have the same model.
pub fn sort_keys_equal(a: &Vec<(Expr, bool)>, b: &Vec<(Expr, bool)>) -> (r: bool)
    ensures
        r == (view_keys(a@) == view_keys(b@)),
{
    if a.len() != b.len() {
        proof {
            assert(view_keys(a@).len() != view_keys(b@).len());
        }
        return false;
    }
    let mut i: usize = 0;
    while i < a.len()
        invariant
            i <= a@.len(),
            a@.len() == b@.len(),
            forall|j: int| 0 <= j < i ==> #[trigger] view_keys(a@)[j] == view_keys(b@)[j],
        decreases a.len() - i,
    {
        if !expr_eq(&a[i].0, &b[i].0) || a[i].1 != b[i].1 {
            proof {
                assert(view_keys(a@)[i as int] != view_keys(b@)[i as int]);
            }
            return false;
        }
        i = i + 1;
    }
    proof {
        assert(view_keys(a@) =~= view_keys(b@));
    }
    true
}

/// Whether two optional expressions have the same model.
pub fn opt_equal(a: &Option<Expr>, b: &Option<Expr>) -> (r: bool)
    ensures
        r == (view_opt(*a) == view_opt(*b)),
{
    match (a, b) {
        (Some(x), Some(y)) => expr_eq(x, y),
        (None, None) => true,
        _ => false,
    }
}

/// Whether two plans have the same model.
pub fn plan_equal(a: &Plan, b: &Plan) -> (r: bool)
    ensures
        r == (a@ == b@),
    decreases a,
{
    match (a, b) {
        (Plan::Scan { rel: x }, Plan::Scan { rel: y }) => *x == *y,
        (Plan::EmptyScan { rels: x }, Plan::EmptyScan { rels: y }) => keys_equal(x, y),
        (Plan::Filter { input: i1, predicate: p1 }, Plan::Filter { input: i2, predicate: p2 }) => {
            expr_eq(p1, p2) && plan_equal(i1, i2)
        },
        (Plan::Project { input: i1, exprs: e1 }, Plan::Project { input: i2, exprs: e2 }) => {
            exprs_equal(e1, e2) && plan_equal(i1, i2)
        },
        (
            Plan::Join { left: l1, right: r1, on: o1, filter: f1 },
            Plan::Join { left: l2, right: r2, on: o2, filter: f2 },
        ) => keys_equal(o1, o2) && opt_equal(f1, f2) && plan_equal(l1, l2) && plan_equal(r1, r2),
        (Plan::Sort { input: i1, keys: k1 }, Plan::Sort { input: i2, keys: k2 }) => {
            sort_keys_equal(k1, k2) && plan_equal(i1, i2)
        },
        (Plan::Limit { input: i1, n: n1 }, Plan::Limit { input: i2, n: n2 }) => {
            *n1 == *n2 && plan_equal(i1, i2)
        },
        _ => false,
    }
}

} // verus!
