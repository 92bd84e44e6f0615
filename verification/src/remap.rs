//! Column remapping: the one place where column references are translated.

use vstd::prelude::*;
use crate::ir::{ColRef, Expr, SExpr, expr_cols, seq_cols, view_expr, view_exprs, lemma_view_exprs};

verus! {

/// The map built by inserting `pairs` in order (a later pair for the same
/// key replaces an earlier one).
pub open spec fn pairs_to_map(pairs: Seq<(ColRef, ColRef)>) -> Map<ColRef, ColRef>
    decreases pairs.len(),
{
    if pairs.len() == 0 {
        Map::empty()
    } else {
        pairs_to_map(pairs.drop_last()).insert(pairs.last().0, pairs.last().1)
    }
}

/// No two entries share a key.
pub open spec fn keys_unique(e: Seq<(ColRef, ColRef)>) -> bool {
    forall|i: int, j: int| 0 <= i < j < e.len() ==> e[i].0 != e[j].0
}

/// The image of `c`: its mapped value, or `c` itself when unmapped.
pub open spec fn remap_col(m: Map<ColRef, ColRef>, c: ColRef) -> ColRef {
    if m.dom().contains(c) {
        m[c]
    } else {
        c
    }
}

/// `e` with every column reference replaced by its image under `m`.
pub open spec fn remap_expr(m: Map<ColRef, ColRef>, e: SExpr) -> SExpr
    decreases e, 0nat,
{
    match e {
        SExpr::Col(c) => SExpr::Col(remap_col(m, c)),
        SExpr::Cmp { op, l, r } => SExpr::Cmp {
            op,
            l: Box::new(remap_expr(m, *l)),
            r: Box::new(remap_expr(m, *r)),
        },
        SExpr::And(cs) => SExpr::And(remap_seq(m, cs)),
        SExpr::Or(cs) => SExpr::Or(remap_seq(m, cs)),
        SExpr::Not(x) => SExpr::Not(Box::new(remap_expr(m, *x))),
        SExpr::Arith { op, l, r } => SExpr::Arith {
            op,
            l: Box::new(remap_expr(m, *l)),
            r: Box::new(remap_expr(m, *r)),
        },
        _ => e,
    }
}

pub open spec fn remap_seq(m: Map<ColRef, ColRef>, s: Seq<SExpr>) -> Seq<SExpr>
    decreases s, 1nat,
{
    if s.len() == 0 {
        Seq::empty()
    } else {
        remap_seq(m, s.drop_last()).push(remap_expr(m, s.last()))
    }
}

/// The reverse map of `m`.
pub open spec fn inverse_map(m: Map<ColRef, ColRef>) -> Map<ColRef, ColRef> {
    Map::new(
        |v: ColRef| exists|k: ColRef| m.dom().contains(k) && m[k] == v,
        |v: ColRef| choose|k: ColRef| m.dom().contains(k) && m[k] == v,
    )
}

/// No two keys of `m` share a value.
pub open spec fn injective(m: Map<ColRef, ColRef>) -> bool {
    forall|a: ColRef, b: ColRef|
        m.dom().contains(a) && m.dom().contains(b) && a != b ==> #[trigger] m[a] != #[trigger] m[b]
}

/// A translation of column references; references absent from the map pass
/// through unchanged.
#[derive(Debug)]
pub struct ColumnRemap {
    entries: Vec<(ColRef, ColRef)>,
}

impl View for ColumnRemap {
    type V = Map<ColRef, ColRef>;

    closed spec fn view(&self) -> Map<ColRef, ColRef> {
        pairs_to_map(self.entries@)
    }
}

proof fn lemma_pairs_to_map_unique(e: Seq<(ColRef, ColRef)>)
    requires
        keys_unique(e),
    ensures
        forall|i: int| 0 <= i < e.len() ==> #[trigger] pairs_to_map(e).dom().contains(e[i].0)
            && pairs_to_map(e)[e[i].0] == e[i].1,
        forall|c: ColRef| pairs_to_map(e).dom().contains(c) ==> exists|i: int| 0 <= i < e.len() && #[trigger] e[i].0 == c,
    decreases e.len(),
{
    if e.len() > 0 {
        lemma_pairs_to_map_unique(e.drop_last());
        let m = pairs_to_map(e);
        assert forall|i: int| 0 <= i < e.len() implies #[trigger] pairs_to_map(e).dom().contains(e[i].0)
            && pairs_to_map(e)[e[i].0] == e[i].1 by {
            if i < e.len() - 1 {
                assert(e.drop_last()[i] == e[i]);
                assert(pairs_to_map(e.drop_last()).dom().contains(e.drop_last()[i].0));
                assert(e[i].0 != e.last().0);
            }
        }
        assert forall|c: ColRef| m.dom().contains(c) implies exists|i: int| 0 <= i < e.len() && #[trigger] e[i].0 == c by {
            if c != e.last().0 {
                assert(pairs_to_map(e.drop_last()).dom().contains(c));
                let i = choose|i: int| 0 <= i < e.drop_last().len() && #[trigger] e.drop_last()[i].0 == c;
                assert(e[i].0 == c);
            } else {
                assert(e[e.len() - 1].0 == c);
            }
        }
    }
}

impl ColumnRemap {
    /// The map built by inserting `pairs` in order; a later pair for a key
    /// replaces an earlier one.
    pub fn from_pairs(pairs: Vec<(ColRef, ColRef)>) -> (r: Self)
        ensures
            r@ == pairs_to_map(pairs@),
    {
        let mut entries: Vec<(ColRef, ColRef)> = Vec::new();
        let mut i: usize = 0;
        while i < pairs.len()
            invariant
                i <= pairs@.len(),
                keys_unique(entries@),
                pairs_to_map(entries@) == pairs_to_map(pairs@.take(i as int)),
            decreases pairs.len() - i,
        {
            let (k, v) = pairs[i];
            proof {
                assert(pairs@.take(i + 1).drop_last() =~= pairs@.take(i as int));
                lemma_pairs_to_map_unique(entries@);
            }
            let mut j: usize = 0;
            while j < entries.len() && !(entries[j].0.rel == k.rel && entries[j].0.col == k.col)
                invariant
                    j <= entries@.len(),
                    forall|t: int| 0 <= t < j ==> (#[trigger] entries@[t]).0 != k,
                decreases entries.len() - j,
            {
                j = j + 1;
            }
            let ghost old_e = entries@;
            if j < entries.len() {
                entries.set(j, (k, v));
                proof {
                    assert(entries@ =~= old_e.update(j as int, (k, v)));
                    lemma_pairs_to_map_unique(entries@);
                    assert(pairs_to_map(entries@) =~= pairs_to_map(old_e).insert(k, v)) by {
                        assert forall|c: ColRef| #[trigger] pairs_to_map(entries@).dom().contains(c)
                            <==> pairs_to_map(old_e).insert(k, v).dom().contains(c) by {
                            if pairs_to_map(entries@).dom().contains(c) {
                                let t = choose|t: int| 0 <= t < entries@.len() && #[trigger] entries@[t].0 == c;
                                if t != j {
                                    assert(old_e[t].0 == c);
                                }
                            }
                            if pairs_to_map(old_e).dom().contains(c) {
                                let t = choose|t: int| 0 <= t < old_e.len() && #[trigger] old_e[t].0 == c;
                                assert(entries@[t].0 == c);
                            }
                        }
                        assert forall|c: ColRef| #[trigger] pairs_to_map(entries@).dom().contains(c)
                            implies pairs_to_map(entries@)[c] == pairs_to_map(old_e).insert(k, v)[c] by {
                            let t = choose|t: int| 0 <= t < entries@.len() && #[trigger] entries@[t].0 == c;
                            if t != j {
                                assert(old_e[t].0 == c);
                            }
                        }
                    }
                }
            } else {
                entries.push((k, v));
                proof {
                    assert(entries@.drop_last() =~= old_e);
                }
            }
            i = i + 1;
        }
        proof {
            assert(pairs@.take(i as int) =~= pairs@);
        }
        ColumnRemap { entries }
    }

    /// The reverse translation of a map that sends no two keys to one value.
    pub fn inverse(&self) -> (r: Self)
        requires
            injective(self@),
        ensures
            r@ == inverse_map(self@),
    {
        proof {
            use_type_invariant(self);
            lemma_pairs_to_map_unique(self.entries@);
        }
        let ghost m = self@;
        let ghost e = self.entries@;
        let mut out: Vec<(ColRef, ColRef)> = Vec::new();
        let mut i: usize = 0;
        while i < self.entries.len()
            invariant
                e == self.entries@,
                m == pairs_to_map(e),
                keys_unique(e),
                injective(m),
                i <= e.len(),
                out@.len() == i,
                forall|t: int| 0 <= t < i ==> #[trigger] out@[t] == (e[t].1, e[t].0),
                forall|t: int| 0 <= t < e.len() ==> #[trigger] m.dom().contains(e[t].0) && m[e[t].0] == e[t].1,
            decreases e.len() - i,
        {
            let (k, v) = self.entries[i];
            out.push((v, k));
            i = i + 1;
        }
        proof {
            assert(keys_unique(out@)) by {
                assert forall|a: int, b: int| 0 <= a < b < out@.len() implies out@[a].0 != out@[b].0 by {
                    assert(e[a].0 != e[b].0);
                    assert(m.dom().contains(e[a].0));
                    assert(m.dom().contains(e[b].0));
                    assert(m[e[a].0] != m[e[b].0]);
                }
            }
            lemma_pairs_to_map_unique(out@);
            let r = pairs_to_map(out@);
            let inv = inverse_map(m);
            assert forall|v: ColRef| #[trigger] r.dom().contains(v) <==> inv.dom().contains(v) by {
                if r.dom().contains(v) {
                    let t = choose|t: int| 0 <= t < out@.len() && #[trigger] out@[t].0 == v;
                    assert(out@[t] == (e[t].1, e[t].0));
                    assert(m.dom().contains(e[t].0));
                    assert(m.dom().contains(e[t].0) && m[e[t].0] == v);
                }
                if inv.dom().contains(v) {
                    let k = choose|k: ColRef| m.dom().contains(k) && m[k] == v;
                    let t = choose|t: int| 0 <= t < e.len() && #[trigger] e[t].0 == k;
                    assert(out@[t].0 == v);
                }
            }
            assert forall|v: ColRef| #[trigger] r.dom().contains(v) implies r[v] == inv[v] by {
                let t = choose|t: int| 0 <= t < out@.len() && #[trigger] out@[t].0 == v;
                assert(out@[t] == (e[t].1, e[t].0));
                assert(m.dom().contains(e[t].0));
                assert(m.dom().contains(e[t].0) && m[e[t].0] == v);
                assert(r[v] == e[t].0);
                let k = choose|k: ColRef| m.dom().contains(k) && m[k] == v;
                assert(k == e[t].0);
            }
            assert(r =~= inv);
        }
        ColumnRemap { entries: out }
    }

    /// The image of `c`: its mapped value, or `c` unchanged when absent.
    pub fn get(&self, c: ColRef) -> (r: ColRef)
        ensures
            r == remap_col(self@, c),
    {
        proof {
            use_type_invariant(self);
            lemma_pairs_to_map_unique(self.entries@);
        }
        let mut i: usize = 0;
        while i < self.entries.len()
            invariant
                i <= self.entries@.len(),
                keys_unique(self.entries@),
                forall|t: int| 0 <= t < i ==> (#[trigger] self.entries@[t]).0 != c,
            decreases self.entries.len() - i,
        {
            if self.entries[i].0.rel == c.rel && self.entries[i].0.col == c.col {
                proof {
                    lemma_pairs_to_map_unique(self.entries@);
                    assert(pairs_to_map(self.entries@).dom().contains(self.entries@[i as int].0));
                }
                return self.entries[i].1;
            }
            i = i + 1;
        }
        proof {
            lemma_pairs_to_map_unique(self.entries@);
            if self@.dom().contains(c) {
                let t = choose|t: int| 0 <= t < self.entries@.len() && #[trigger] self.entries@[t].0 == c;
            }
        }
        c
    }

    /// `e` with every column reference replaced by its image.
    pub fn apply_expr(&self, e: Expr) -> (r: Expr)
        ensures
            r@ == remap_expr(self@, e@),
        decreases e,
    {
        match e {
            Expr::Col(c) => Expr::Col(self.get(c)),
            Expr::Cmp { op, l, r } => Expr::Cmp {
                op,
                l: Box::new(self.apply_expr(*l)),
                r: Box::new(self.apply_expr(*r)),
            },
            Expr::And(cs) => Expr::And(self.apply_exprs(cs)),
            Expr::Or(cs) => Expr::Or(self.apply_exprs(cs)),
            Expr::Not(inner) => Expr::Not(Box::new(self.apply_expr(*inner))),
            Expr::Arith { op, l, r } => Expr::Arith {
                op,
                l: Box::new(self.apply_expr(*l)),
                r: Box::new(self.apply_expr(*r)),
            },
            leaf => leaf,
        }
    }

    #[verifier::loop_isolation(false)]
    fn apply_exprs(&self, v: Vec<Expr>) -> (r: Vec<Expr>)
        ensures
            view_exprs(r@) == remap_seq(self@, view_exprs(v@)),
        decreases v,
    {
        let ghost orig = v@;
        let ghost vv = v;
        let n = v.len();
        proof {
            lemma_view_exprs(v@);
        }
        let mut rest = v;
        let mut out: Vec<Expr> = Vec::new();
        let mut i: usize = 0;
        while rest.len() > 0
            invariant
                orig.len() == n,
                vv@ == orig,
                i <= n,
                rest@ == orig.skip(i as int),
                view_exprs(out@) == remap_seq(self@, view_exprs(orig.take(i as int))),
            decreases rest.len(),
        {
            let c = rest.remove(0);
            proof {
                assert(c == orig[i as int]);
                assert(orig.skip(i as int).remove(0) =~= orig.skip(i + 1));
                assert(decreases_to!(vv => vv[i as int]));
                lemma_view_exprs(out@);
                lemma_view_exprs(orig.take(i + 1));
                lemma_view_exprs(orig.take(i as int));
                assert(view_exprs(orig.take(i + 1)).drop_last() =~= view_exprs(orig.take(i as int)));
            }
            let ghost before = out@;
            out.push(self.apply_expr(c));
            proof {
                assert(out@.drop_last() == before);
            }
            i = i + 1;
        }
        proof {
            assert(orig.take(i as int) =~= orig);
        }
        out
    }

    #[verifier::type_invariant]
    spec fn wf(&self) -> bool {
        keys_unique(self.entries@)
    }
}

impl Clone for ColumnRemap {
    fn clone(&self) -> (r: Self)
        ensures
            r@ == self@,
    {
        proof {
            use_type_invariant(self);
        }
        let mut out: Vec<(ColRef, ColRef)> = Vec::new();
        let mut i: usize = 0;
        while i < self.entries.len()
            invariant
                i <= self.entries@.len(),
                out@ == self.entries@.take(i as int),
            decreases self.entries.len() - i,
        {
            out.push(self.entries[i]);
            i = i + 1;
            proof {
                assert(out@ =~= self.entries@.take(i as int));
            }
        }
        proof {
            assert(out@ =~= self.entries@);
        }
        ColumnRemap { entries: out }
    }
}

impl Default for ColumnRemap {
    fn default() -> (r: Self)
        ensures
            r@ == Map::<ColRef, ColRef>::empty(),
    {
        ColumnRemap { entries: Vec::new() }
    }
}

/// Every column in `cols` is either a key of `m` or not a value of `m`.
pub open spec fn cols_reversible(m: Map<ColRef, ColRef>, cols: Seq<ColRef>) -> bool {
    forall|c: ColRef|
        cols.contains(c) ==> m.dom().contains(c) || !(exists|k: ColRef|
            m.dom().contains(k) && m[k] == c)
}

proof fn lemma_remap_col_round_trip(m: Map<ColRef, ColRef>, c: ColRef)
    requires
        injective(m),
        m.dom().contains(c) || !(exists|k: ColRef| m.dom().contains(k) && m[k] == c),
    ensures
        remap_col(inverse_map(m), remap_col(m, c)) == c,
{
    if m.dom().contains(c) {
        let v = m[c];
        assert(inverse_map(m).dom().contains(v));
        let k = choose|k: ColRef| m.dom().contains(k) && m[k] == v;
        assert(k == c);
    }
}

/// Remapping with a map that sends no two keys to one value, then with its
/// inverse, gives back every expression whose columns are each either
/// mapped or outside the map's image (for a permutation: every expression).
pub proof fn lemma_remap_round_trip(m: Map<ColRef, ColRef>, e: SExpr)
    requires
        injective(m),
        cols_reversible(m, expr_cols(e)),
    ensures
        remap_expr(inverse_map(m), remap_expr(m, e)) == e,
    decreases e, 0nat,
{
    match e {
        SExpr::Col(c) => {
            assert(expr_cols(e).contains(c)) by {
                assert(expr_cols(e)[0] == c);
            }
            lemma_remap_col_round_trip(m, c);
        },
        SExpr::Cmp { op, l, r } => {
            assert(cols_reversible(m, expr_cols(*l))) by {
                assert forall|c: ColRef| expr_cols(*l).contains(c) implies expr_cols(e).contains(c) by {
                    let i = choose|i: int| 0 <= i < expr_cols(*l).len() && expr_cols(*l)[i] == c;
                    assert(expr_cols(e)[i] == c);
                }
            }
            assert(cols_reversible(m, expr_cols(*r))) by {
                assert forall|c: ColRef| expr_cols(*r).contains(c) implies expr_cols(e).contains(c) by {
                    let i = choose|i: int| 0 <= i < expr_cols(*r).len() && expr_cols(*r)[i] == c;
                    assert(expr_cols(e)[expr_cols(*l).len() + i] == c);
                }
            }
            lemma_remap_round_trip(m, *l);
            lemma_remap_round_trip(m, *r);
        },
        SExpr::Arith { op, l, r } => {
            assert(cols_reversible(m, expr_cols(*l))) by {
                assert forall|c: ColRef| expr_cols(*l).contains(c) implies expr_cols(e).contains(c) by {
                    let i = choose|i: int| 0 <= i < expr_cols(*l).len() && expr_cols(*l)[i] == c;
                    assert(expr_cols(e)[i] == c);
                }
            }
            assert(cols_reversible(m, expr_cols(*r))) by {
                assert forall|c: ColRef| expr_cols(*r).contains(c) implies expr_cols(e).contains(c) by {
                    let i = choose|i: int| 0 <= i < expr_cols(*r).len() && expr_cols(*r)[i] == c;
                    assert(expr_cols(e)[expr_cols(*l).len() + i] == c);
                }
            }
            lemma_remap_round_trip(m, *l);
            lemma_remap_round_trip(m, *r);
        },
        SExpr::Not(x) => lemma_remap_round_trip(m, *x),
        SExpr::And(cs) => lemma_remap_seq_round_trip(m, cs),
        SExpr::Or(cs) => lemma_remap_seq_round_trip(m, cs),
        _ => {},
    }
}

proof fn lemma_remap_seq_round_trip(m: Map<ColRef, ColRef>, s: Seq<SExpr>)
    requires
        injective(m),
        cols_reversible(m, seq_cols(s)),
    ensures
        remap_seq(inverse_map(m), remap_seq(m, s)) == s,
    decreases s, 1nat,
{
    if s.len() > 0 {
        let a = seq_cols(s.drop_last());
        let b = expr_cols(s.last());
        assert(cols_reversible(m, a)) by {
            assert forall|c: ColRef| a.contains(c) implies seq_cols(s).contains(c) by {
                let i = choose|i: int| 0 <= i < a.len() && a[i] == c;
                assert(seq_cols(s)[i] == c);
            }
        }
        assert(cols_reversible(m, b)) by {
            assert forall|c: ColRef| b.contains(c) implies seq_cols(s).contains(c) by {
                let i = choose|i: int| 0 <= i < b.len() && b[i] == c;
                assert(seq_cols(s)[a.len() + i] == c);
            }
        }
        lemma_remap_seq_round_trip(m, s.drop_last());
        lemma_remap_round_trip(m, s.last());
        let once = remap_seq(m, s);
        assert(once.drop_last() =~= remap_seq(m, s.drop_last()));
        assert(s =~= s.drop_last().push(s.last()));
    } else {
        assert(remap_seq(inverse_map(m), remap_seq(m, s)) =~= s);
    }
}


/// The inverse of a map that sends no two keys to one value: its keys are
/// the values, each sent back to its key; it is again injective, and its
/// own inverse is the map.
pub proof fn lemma_inverse_laws(m: Map<ColRef, ColRef>)
    requires
        injective(m),
    ensures
        forall|k: ColRef| m.dom().contains(k) ==> #[trigger] inverse_map(m).dom().contains(m[k])
            && inverse_map(m)[m[k]] == k,
        forall|v: ColRef| #[trigger] inverse_map(m).dom().contains(v) <==> exists|k: ColRef|
            m.dom().contains(k) && m[k] == v,
        injective(inverse_map(m)),
        inverse_map(inverse_map(m)) == m,
{
    let inv = inverse_map(m);
    assert forall|k: ColRef| m.dom().contains(k) implies #[trigger] inv.dom().contains(m[k]) && inv[m[k]] == k by {
        let v = m[k];
        assert(inv.dom().contains(v));
        let k2 = choose|k2: ColRef| m.dom().contains(k2) && m[k2] == v;
        assert(k2 == k);
    }
    assert forall|a: ColRef, b: ColRef| inv.dom().contains(a) && inv.dom().contains(b) && a != b implies #[trigger] inv[a]
        != #[trigger] inv[b] by {
        let ka = choose|k: ColRef| m.dom().contains(k) && m[k] == a;
        let kb = choose|k: ColRef| m.dom().contains(k) && m[k] == b;
    }
    let ii = inverse_map(inv);
    assert forall|k: ColRef| #[trigger] ii.dom().contains(k) <==> m.dom().contains(k) by {
        if m.dom().contains(k) {
            assert(inv.dom().contains(m[k]) && inv[m[k]] == k);
        }
        if ii.dom().contains(k) {
            let v = choose|v: ColRef| inv.dom().contains(v) && inv[v] == k;
            let k2 = choose|k2: ColRef| m.dom().contains(k2) && m[k2] == v;
        }
    }
    assert forall|k: ColRef| #[trigger] ii.dom().contains(k) implies ii[k] == m[k] by {
        let v = choose|v: ColRef| inv.dom().contains(v) && inv[v] == k;
        assert(inv.dom().contains(m[k]) && inv[m[k]] == k);
        let k2 = choose|k2: ColRef| m.dom().contains(k2) && m[k2] == v;
    }
    assert(ii =~= m);
}

/// Remapping with the empty map changes nothing.
pub proof fn lemma_remap_empty(e: SExpr)
    ensures
        remap_expr(Map::empty(), e) == e,
    decreases e, 0nat,
{
    match e {
        SExpr::Cmp { l, r, .. } => {
            lemma_remap_empty(*l);
            lemma_remap_empty(*r);
        },
        SExpr::Arith { l, r, .. } => {
            lemma_remap_empty(*l);
            lemma_remap_empty(*r);
        },
        SExpr::Not(x) => lemma_remap_empty(*x),
        SExpr::And(cs) => lemma_remap_seq_empty(cs),
        SExpr::Or(cs) => lemma_remap_seq_empty(cs),
        _ => {},
    }
}

proof fn lemma_remap_seq_empty(s: Seq<SExpr>)
    ensures
        remap_seq(Map::empty(), s) == s,
    decreases s, 1nat,
{
    if s.len() > 0 {
        lemma_remap_seq_empty(s.drop_last());
        lemma_remap_empty(s.last());
        assert(s =~= s.drop_last().push(s.last()));
    } else {
        assert(remap_seq(Map::empty(), s) =~= s);
    }
}

/// The round trip the other way: remapping with the inverse, then with the
/// map, gives back every expression whose columns are each either a value
/// of the map or not one of its keys (for a permutation: every expression).
pub proof fn lemma_remap_round_trip_back(m: Map<ColRef, ColRef>, e: SExpr)
    requires
        injective(m),
        cols_reversible(inverse_map(m), expr_cols(e)),
    ensures
        remap_expr(m, remap_expr(inverse_map(m), e)) == e,
{
    lemma_inverse_laws(m);
    lemma_remap_round_trip(inverse_map(m), e);
}

/// A map built from pairs has finitely many keys.
pub proof fn lemma_pairs_to_map_finite(pairs: Seq<(ColRef, ColRef)>)
    ensures
        pairs_to_map(pairs).dom().finite(),
    decreases pairs.len(),
{
    if pairs.len() > 0 {
        lemma_pairs_to_map_finite(pairs.drop_last());
    }
}

proof fn lemma_no_collision(m: Map<ColRef, ColRef>, a: ColRef, b: ColRef)
    requires
        m.dom().finite(),
        m.values() == m.dom(),
        m.dom().contains(a),
        m.dom().contains(b),
        a != b,
    ensures
        m[a] != m[b],
{
    if m[a] == m[b] {
        let d = m.dom();
        let f = |k: ColRef| m[k];
        let rest = d.remove(a);
        assert forall|v: ColRef| #[trigger] rest.map(f).contains(v) <==> d.contains(v) by {
            if d.contains(v) {
                assert(m.values().contains(v));
                let k = choose|k: ColRef| m.dom().contains(k) && m[k] == v;
                if k == a {
                    assert(rest.contains(b) && f(b) == v);
                } else {
                    assert(rest.contains(k) && f(k) == v);
                }
            }
            if rest.map(f).contains(v) {
                let k = choose|k: ColRef| rest.contains(k) && f(k) == v;
                assert(m.dom().contains(k) && m[k] == v);
                assert(m.values().contains(v));
            }
        }
        assert(rest.map(f) =~= d);
        vstd::set_lib::lemma_map_size_bound(rest, d, f);
        assert(rest.len() == d.len() - 1);
    }
}

/// A map with finitely many keys whose values are exactly its keys (it
/// permutes its own domain) sends no two keys to one value.
proof fn lemma_permutation_injective(m: Map<ColRef, ColRef>)
    requires
        m.dom().finite(),
        m.values() == m.dom(),
    ensures
        injective(m),
{
    assert forall|a: ColRef, b: ColRef|
        m.dom().contains(a) && m.dom().contains(b) && a != b implies #[trigger] m[a] != #[trigger] m[b] by {
        lemma_no_collision(m, a, b);
    }
}

/// A remap that permutes its own domain round-trips every expression both
/// ways through its inverse: its keys are exactly its values, so every
/// column is either mapped or no image at all.
pub proof fn lemma_permutation_round_trip(m: Map<ColRef, ColRef>, e: SExpr)
    requires
        m.dom().finite(),
        m.values() == m.dom(),
    ensures
        injective(m),
        remap_expr(inverse_map(m), remap_expr(m, e)) == e,
        remap_expr(m, remap_expr(inverse_map(m), e)) == e,
{
    lemma_permutation_injective(m);
    lemma_inverse_laws(m);
    let inv = inverse_map(m);
    assert forall|c: ColRef| expr_cols(e).contains(c) implies m.dom().contains(c) || !(exists|k: ColRef|
        m.dom().contains(k) && m[k] == c) by {
        if exists|k: ColRef| m.dom().contains(k) && m[k] == c {
            assert(m.values().contains(c));
        }
    }
    assert forall|c: ColRef| expr_cols(e).contains(c) implies inv.dom().contains(c) || !(exists|k: ColRef|
        inv.dom().contains(k) && inv[k] == c) by {
        if exists|k: ColRef| inv.dom().contains(k) && inv[k] == c {
            let k = choose|k: ColRef| inv.dom().contains(k) && inv[k] == c;
            let k0 = choose|k0: ColRef| m.dom().contains(k0) && m[k0] == k;
            assert(inv[m[k0]] == k0);
            assert(m.values().contains(c)) by {
                assert(m.values().contains(m[c])) by {
                    assert(m.dom().contains(c));
                }
            }
            assert(m.dom().contains(c));
            assert(inv.dom().contains(m[c]));
            assert(m.values().contains(c));
            assert(inv.dom().contains(c));
        }
    }
    lemma_remap_round_trip(m, e);
    lemma_remap_round_trip_back(m, e);
}

} // verus!
