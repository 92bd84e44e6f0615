//! The join graph the dynamic-programming join orderer works on: a join
//! tree's leaves and key pairs, the key pairs that connect a set of
//! relations to one more, and the graph's connected components. Relation
//! sets are bitsets: relation `r` is bit `r` of a `u64`.

use vstd::prelude::*;
use crate::ir::{ColRef, Expr, Plan, SExpr, SPlan, view_plan, view_keys};

verus! {

/// The leaves of a join tree, left to right.
pub open spec fn tree_leaves(p: SPlan) -> Seq<SPlan>
    decreases p,
{
    match p {
        SPlan::Join { left, right, .. } => tree_leaves(*left) + tree_leaves(*right),
        _ => seq![p],
    }
}

/// The key pairs of a join tree, each join's after those of its inputs.
pub open spec fn tree_edges(p: SPlan) -> Seq<(ColRef, ColRef)>
    decreases p,
{
    match p {
        SPlan::Join { left, right, on, .. } => tree_edges(*left) + tree_edges(*right) + on,
        _ => Seq::empty(),
    }
}

/// Appends a join tree's leaves and key pairs (see `tree_leaves` and
/// `tree_edges`); the joins' residual filters are dropped.
pub fn harvest_tree(p: Plan, leaves: &mut Vec<Plan>, edges: &mut Vec<(ColRef, ColRef)>)
    ensures
        final(leaves)@.map_values(|q: Plan| q@) == old(leaves)@.map_values(|q: Plan| q@) + tree_leaves(p@),
        final(edges)@ == old(edges)@ + tree_edges(p@),
    decreases p,
{
    proof {
        reveal_with_fuel(view_plan, 2);
    }
    let ghost lv0 = leaves@.map_values(|q: Plan| q@);
    let ghost ev0 = edges@;
    match p {
        Plan::Join { left, right, on, .. } => {
            let ghost lp = left@;
            let ghost rp = right@;
            let ghost onv = on@;
            harvest_tree(*left, leaves, edges);
            harvest_tree(*right, leaves, edges);
            let mut on = on;
            edges.append(&mut on);
            proof {
                assert(leaves@.map_values(|q: Plan| q@) =~= lv0 + (tree_leaves(lp) + tree_leaves(rp)));
                assert(edges@ =~= ev0 + (tree_edges(lp) + tree_edges(rp) + onv));
            }
        },
        _ => {
            let ghost pv = p@;
            leaves.push(p);
            proof {
                assert(tree_leaves(pv) == seq![pv]);
                assert(leaves@.map_values(|q: Plan| q@) =~= lv0 + seq![pv]);
                assert(edges@ =~= ev0 + tree_edges(pv));
            }
        },
    }
}

/// The order a Sort demands of the join tree below it: its keys as
/// columns with their directions, when every key is a column.
pub open spec fn sort_target_spec(keys: Seq<(SExpr, bool)>) -> Option<Seq<(ColRef, bool)>> {
    if forall|i: int| 0 <= i < keys.len() ==> (#[trigger] keys[i]).0 is Col {
        Some(keys.map_values(|k: (SExpr, bool)| (k.0->Col_0, k.1)))
    } else {
        None
    }
}

/// The order a Sort demands (see `sort_target_spec`).
pub fn sort_target(keys: &Vec<(Expr, bool)>) -> (r: Option<Vec<(ColRef, bool)>>)
    ensures
        (match r {
            Some(v) => Some(v@),
            None => None,
        }) == sort_target_spec(view_keys(keys@)),
{
    let ghost kv = view_keys(keys@);
    let mut out: Vec<(ColRef, bool)> = Vec::new();
    let mut i: usize = 0;
    while i < keys.len()
        invariant
            i <= keys@.len(),
            kv == view_keys(keys@),
            kv.len() == keys@.len(),
            forall|j: int| 0 <= j < i ==> (#[trigger] kv[j]).0 is Col,
            out@ == kv.take(i as int).map_values(|k: (SExpr, bool)| (k.0->Col_0, k.1)),
        decreases keys.len() - i,
    {
        proof {
            assert(kv[i as int] == (keys@[i as int].0@, keys@[i as int].1));
        }
        match &keys[i].0 {
            Expr::Col(c) => {
                out.push((*c, keys[i].1));
                proof {
                    assert(out@ =~= kv.take(i + 1).map_values(|k: (SExpr, bool)| (k.0->Col_0, k.1)));
                }
            },
            _ => {
                return None;
            },
        }
        i = i + 1;
    }
    proof {
        assert(kv.take(i as int) =~= kv);
    }
    Some(out)
}

/// Relation `r` is in the set `s`.
pub open spec fn holds(s: u64, r: usize) -> bool {
    (s & (1u64 << (r as u64))) != 0
}

/// The key pairs among `edges` that join a relation of `s` to relation
/// `r`, each oriented from `s`'s side, in order.
pub open spec fn connecting(s: u64, r: usize, edges: Seq<(ColRef, ColRef)>) -> Seq<(ColRef, ColRef)>
    decreases edges.len(),
{
    if edges.len() == 0 {
        Seq::empty()
    } else {
        let rest = connecting(s, r, edges.drop_last());
        let (a, b) = edges.last();
        if holds(s, a.rel) && b.rel == r {
            rest.push((a, b))
        } else if holds(s, b.rel) && a.rel == r {
            rest.push((b, a))
        } else {
            rest
        }
    }
}

/// Every connecting pair joins a relation of the set to the new relation,
/// and is one of the key pairs, as given or turned around.
pub proof fn lemma_connecting_joins_set_to_relation(s: u64, r: usize, edges: Seq<(ColRef, ColRef)>)
    ensures
        forall|k: int| 0 <= k < connecting(s, r, edges).len() ==> {
            let (a, b) = #[trigger] connecting(s, r, edges)[k];
            &&& holds(s, a.rel)
            &&& b.rel == r
            &&& (edges.contains((a, b)) || edges.contains((b, a)))
        },
    decreases edges.len(),
{
    if edges.len() > 0 {
        let init = edges.drop_last();
        lemma_connecting_joins_set_to_relation(s, r, init);
        let rest = connecting(s, r, init);
        let c = connecting(s, r, edges);
        assert forall|k: int| 0 <= k < c.len() implies {
            let (a, b) = #[trigger] c[k];
            &&& holds(s, a.rel)
            &&& b.rel == r
            &&& (edges.contains((a, b)) || edges.contains((b, a)))
        } by {
            if k < rest.len() {
                assert(c[k] == rest[k]);
                let (a, b) = rest[k];
                if init.contains((a, b)) {
                    let j = choose|j: int| 0 <= j < init.len() && init[j] == (a, b);
                    assert(edges[j] == init[j]);
                } else {
                    let j = choose|j: int| 0 <= j < init.len() && init[j] == (b, a);
                    assert(edges[j] == init[j]);
                }
            } else {
                assert(edges[edges.len() - 1] == edges.last());
            }
        }
    }
}

/// Every key pair names relations below 64.
pub open spec fn edges_fit(edges: Seq<(ColRef, ColRef)>) -> bool {
    forall|i: int| 0 <= i < edges.len() ==> (#[trigger] edges[i]).0.rel < 64 && edges[i].1.rel < 64
}

/// The key pairs joining a relation of `s` to relation `r` (see
/// `connecting`).
pub fn connecting_keys(s: u64, r: usize, edges: &Vec<(ColRef, ColRef)>) -> (keys: Vec<(ColRef, ColRef)>)
    requires
        edges_fit(edges@),
    ensures
        keys@ == connecting(s, r, edges@),
{
    let mut keys: Vec<(ColRef, ColRef)> = Vec::new();
    let mut i: usize = 0;
    while i < edges.len()
        invariant
            i <= edges@.len(),
            edges_fit(edges@),
            keys@ == connecting(s, r, edges@.take(i as int)),
        decreases edges.len() - i,
    {
        let (a, b) = edges[i];
        proof {
            assert(edges@.take(i + 1).drop_last() =~= edges@.take(i as int));
            assert(edges@.take(i + 1).last() == edges@[i as int]);
            assert(edges@[i as int].0.rel < 64 && edges@[i as int].1.rel < 64);
        }
        if (s & (1u64 << (a.rel as u64))) != 0 && b.rel == r {
            keys.push((a, b));
        } else if (s & (1u64 << (b.rel as u64))) != 0 && a.rel == r {
            keys.push((b, a));
        }
        i = i + 1;
    }
    proof {
        assert(edges@.take(i as int) =~= edges@);
    }
    keys
}

/// One set per relation, holding just that relation.
pub open spec fn singletons(rels: Seq<usize>) -> Seq<u64> {
    rels.map_values(|r: usize| 1u64 << (r as u64))
}

/// The index of the first set from `i` on that holds `r` (the length if
/// none does).
pub open spec fn first_with(comps: Seq<u64>, r: usize, i: nat) -> nat
    decreases comps.len() - i,
{
    if i >= comps.len() {
        comps.len()
    } else if holds(comps[i as int], r) {
        i
    } else {
        first_with(comps, r, i + 1)
    }
}

/// Merges the sets holding the two ends of a key pair: the later set is
/// removed (the last set moving into its place) and united into the
/// earlier one.
pub open spec fn merge_edge(comps: Seq<u64>, e: (ColRef, ColRef)) -> Seq<u64> {
    let ia = first_with(comps, e.0.rel, 0);
    let ib = first_with(comps, e.1.rel, 0);
    if ia == ib {
        comps
    } else {
        let lo = if ia < ib { ia } else { ib };
        let hi = if ia < ib { ib } else { ia };
        let rest = comps.update(hi as int, comps.last()).drop_last();
        rest.update(lo as int, rest[lo as int] | comps[hi as int])
    }
}

/// The key pairs merged in order.
pub open spec fn merge_all(comps: Seq<u64>, edges: Seq<(ColRef, ColRef)>) -> Seq<u64>
    decreases edges.len(),
{
    if edges.len() == 0 {
        comps
    } else {
        merge_edge(merge_all(comps, edges.drop_last()), edges.last())
    }
}

/// Some set holds `r`.
pub open spec fn in_some(comps: Seq<u64>, r: usize) -> bool {
    exists|k: int| 0 <= k < comps.len() && #[trigger] holds(comps[k], r)
}

/// One set holds both `a` and `b`.
pub open spec fn together(comps: Seq<u64>, a: usize, b: usize) -> bool {
    exists|k: int| 0 <= k < comps.len() && #[trigger] holds(comps[k], a) && holds(comps[k], b)
}

/// No relation below 64 is in two sets.
pub open spec fn disjoint(comps: Seq<u64>) -> bool {
    forall|k1: int, k2: int, r: usize|
        0 <= k1 < comps.len() && 0 <= k2 < comps.len() && k1 != k2 && r < 64 ==> !(#[trigger] holds(
            comps[k1],
            r,
        ) && #[trigger] holds(comps[k2], r))
}

/// Every relation of `rels` is in some set.
pub open spec fn covers(comps: Seq<u64>, rels: Seq<usize>) -> bool {
    forall|j: int| 0 <= j < rels.len() ==> in_some(comps, #[trigger] rels[j])
}

/// The two ends of every key pair share a set.
pub open spec fn joined(comps: Seq<u64>, edges: Seq<(ColRef, ColRef)>) -> bool {
    forall|i: int| 0 <= i < edges.len() ==> together(comps, (#[trigger] edges[i]).0.rel, edges[i].1.rel)
}

/// The relations are below 64, each listed once, and the key pairs join
/// listed relations.
pub open spec fn graph_fits(rels: Seq<usize>, edges: Seq<(ColRef, ColRef)>) -> bool {
    &&& forall|j: int| 0 <= j < rels.len() ==> #[trigger] rels[j] < 64
    &&& forall|i: int, j: int| 0 <= i < rels.len() && 0 <= j < rels.len() && i != j ==> rels[i] != rels[j]
    &&& forall|i: int| 0 <= i < edges.len() ==> rels.contains((#[trigger] edges[i]).0.rel) && rels.contains(
        edges[i].1.rel,
    )
}

proof fn lemma_or_bit(x: u64, y: u64, r: u64)
    by (bit_vector)
    requires
        r < 64,
    ensures
        ((x | y) & (1u64 << r)) != 0 <==> ((x & (1u64 << r)) != 0 || (y & (1u64 << r)) != 0),
{
}

proof fn lemma_single_bit(r: u64, s: u64)
    by (bit_vector)
    requires
        r < 64,
        s < 64,
    ensures
        ((1u64 << r) & (1u64 << s)) != 0 <==> r == s,
{
}

/// Under disjointness, the set found for `r` is the one holding it.
proof fn lemma_first_with(comps: Seq<u64>, r: usize, k: int, i: nat)
    requires
        disjoint(comps),
        r < 64,
        i <= k < comps.len(),
        holds(comps[k], r),
    ensures
        first_with(comps, r, i) == k,
    decreases k - i,
{
    if i < k {
        assert(!holds(comps[i as int], r));
        lemma_first_with(comps, r, k, i + 1);
    }
}

/// Where the set at index `k` of `n` goes when the set at `hi` is united
/// into the one at `lo` and the last set moves into `hi`'s place.
spec fn moved_to(k: int, lo: int, hi: int, n: int) -> int {
    if k == hi {
        lo
    } else if k == n - 1 {
        hi
    } else {
        k
    }
}

/// Merging a key pair whose ends are in sets keeps the sets disjoint,
/// keeps every relation and every pair of relations that shared a set,
/// and puts the two ends together.
proof fn lemma_merge_edge(comps: Seq<u64>, e: (ColRef, ColRef))
    requires
        disjoint(comps),
        e.0.rel < 64,
        e.1.rel < 64,
        in_some(comps, e.0.rel),
        in_some(comps, e.1.rel),
    ensures
        disjoint(merge_edge(comps, e)),
        forall|r: usize| r < 64 && in_some(comps, r) ==> in_some(merge_edge(comps, e), r),
        forall|x: usize, y: usize|
            x < 64 && y < 64 && together(comps, x, y) ==> together(merge_edge(comps, e), x, y),
        together(merge_edge(comps, e), e.0.rel, e.1.rel),
{
    let a = e.0.rel;
    let b = e.1.rel;
    let ka = choose|k: int| 0 <= k < comps.len() && #[trigger] holds(comps[k], a);
    let kb = choose|k: int| 0 <= k < comps.len() && #[trigger] holds(comps[k], b);
    lemma_first_with(comps, a, ka, 0);
    lemma_first_with(comps, b, kb, 0);
    let c = merge_edge(comps, e);
    if ka == kb {
        assert(c == comps);
        return;
    }
    let n = comps.len() as int;
    let lo: int = if ka < kb { ka } else { kb };
    let hi: int = if ka < kb { kb } else { ka };
    let rest = comps.update(hi, comps.last()).drop_last();
    assert(c == rest.update(lo, rest[lo] | comps[hi]));
    assert(c.len() == n - 1);
    assert(rest[lo] == comps[lo]);
    assert forall|k: int, r: usize| 0 <= k < n && r < 64 && #[trigger] holds(comps[k], r) implies 0 <= moved_to(
        k,
        lo,
        hi,
        n,
    ) < n - 1 && holds(c[moved_to(k, lo, hi, n)], r) by {
        lemma_or_bit(comps[lo], comps[hi], r as u64);
        if k == hi {
        } else if k == lo {
        } else if k == n - 1 {
            assert(rest[hi] == comps[n - 1]);
            assert(c[hi] == rest[hi]);
        } else {
            assert(c[k] == comps[k]);
        }
    }
    // What each new set came from.
    assert forall|k: int, r: usize| 0 <= k < n - 1 && r < 64 && #[trigger] holds(c[k], r) implies (k == lo
        && (holds(comps[lo], r) || holds(comps[hi], r))) || (k == hi && holds(comps[n - 1], r)) || (k != lo
        && k != hi && holds(comps[k], r)) by {
        lemma_or_bit(comps[lo], comps[hi], r as u64);
        if k == lo {
        } else if k == hi {
            assert(c[hi] == comps[n - 1]);
        } else {
            assert(c[k] == comps[k]);
        }
    }
    assert forall|k1: int, k2: int, r: usize|
        0 <= k1 < c.len() && 0 <= k2 < c.len() && k1 != k2 && r < 64 implies !(#[trigger] holds(c[k1], r)
        && #[trigger] holds(c[k2], r)) by {
        if holds(c[k1], r) && holds(c[k2], r) {
            assert(holds(c[k1], r));
            assert(holds(c[k2], r));
        }
    }
    assert forall|r: usize| r < 64 && in_some(comps, r) implies in_some(c, r) by {
        let k = choose|k: int| 0 <= k < comps.len() && #[trigger] holds(comps[k], r);
        assert(holds(c[moved_to(k, lo, hi, n)], r));
    }
    assert forall|x: usize, y: usize| x < 64 && y < 64 && together(comps, x, y) implies together(c, x, y) by {
        let k = choose|k: int| 0 <= k < comps.len() && #[trigger] holds(comps[k], x) && holds(comps[k], y);
        assert(holds(c[moved_to(k, lo, hi, n)], x));
        assert(holds(c[moved_to(k, lo, hi, n)], y));
    }
    assert(holds(c[moved_to(ka, lo, hi, n)], a));
    assert(holds(c[moved_to(kb, lo, hi, n)], b));
    assert(moved_to(ka, lo, hi, n) == lo && moved_to(kb, lo, hi, n) == lo);
}

proof fn lemma_merge_all(comps: Seq<u64>, rels: Seq<usize>, edges: Seq<(ColRef, ColRef)>)
    requires
        graph_fits(rels, edges),
        disjoint(comps),
        covers(comps, rels),
    ensures
        disjoint(merge_all(comps, edges)),
        covers(merge_all(comps, edges), rels),
        joined(merge_all(comps, edges), edges),
    decreases edges.len(),
{
    if edges.len() > 0 {
        let init = edges.drop_last();
        assert(graph_fits(rels, init)) by {
            assert forall|i: int| 0 <= i < init.len() implies rels.contains((#[trigger] init[i]).0.rel)
                && rels.contains(init[i].1.rel) by {
                assert(init[i] == edges[i]);
            }
        }
        lemma_merge_all(comps, rels, init);
        let p = merge_all(comps, init);
        let e = edges.last();
        assert(e == edges[edges.len() - 1]);
        let ja = choose|j: int| 0 <= j < rels.len() && rels[j] == e.0.rel;
        let jb = choose|j: int| 0 <= j < rels.len() && rels[j] == e.1.rel;
        assert(in_some(p, rels[ja]));
        assert(in_some(p, rels[jb]));
        lemma_merge_edge(p, e);
        let c = merge_all(comps, edges);
        assert forall|j: int| 0 <= j < rels.len() implies in_some(c, #[trigger] rels[j]) by {
            assert(in_some(p, rels[j]));
        }
        assert forall|i: int| 0 <= i < edges.len() implies together(c, (#[trigger] edges[i]).0.rel, edges[i].1.rel) by {
            if i < edges.len() - 1 {
                assert(init[i] == edges[i]);
                assert(together(p, init[i].0.rel, init[i].1.rel));
                let ka = choose|k: int| 0 <= k < rels.len() && rels[k] == init[i].0.rel;
                let kb = choose|k: int| 0 <= k < rels.len() && rels[k] == init[i].1.rel;
                assert(rels[ka] < 64 && rels[kb] < 64);
            }
        }
    }
}

proof fn lemma_singletons(rels: Seq<usize>)
    requires
        forall|j: int| 0 <= j < rels.len() ==> #[trigger] rels[j] < 64,
        forall|i: int, j: int| 0 <= i < rels.len() && 0 <= j < rels.len() && i != j ==> rels[i] != rels[j],
    ensures
        disjoint(singletons(rels)),
        covers(singletons(rels), rels),
{
    let s = singletons(rels);
    assert forall|k: int, r: usize| 0 <= k < s.len() && r < 64 implies #[trigger] holds(s[k], r) == (rels[k]
        == r) by {
        lemma_single_bit(rels[k] as u64, r as u64);
    }
    assert forall|j: int| 0 <= j < rels.len() implies in_some(s, #[trigger] rels[j]) by {
        assert(holds(s[j], rels[j]));
    }
}

/// The index of the first set holding `r`.
fn position(comps: &Vec<u64>, r: usize) -> (k: usize)
    requires
        r < 64,
    ensures
        k == first_with(comps@, r, 0),
{
    let mut i: usize = 0;
    while i < comps.len()
        invariant
            i <= comps@.len(),
            r < 64,
            first_with(comps@, r, 0) == first_with(comps@, r, i as nat),
        decreases comps.len() - i,
    {
        if (comps[i] & (1u64 << (r as u64))) != 0 {
            return i;
        }
        i = i + 1;
    }
    i
}

/// The connected components of the join graph over `rels`, as relation
/// sets (see `merge_all`): they are disjoint, every relation is in one,
/// and the two ends of every key pair share one.
pub fn components(rels: &Vec<usize>, edges: &Vec<(ColRef, ColRef)>) -> (r: Vec<u64>)
    requires
        graph_fits(rels@, edges@),
    ensures
        r@ == merge_all(singletons(rels@), edges@),
        disjoint(r@),
        covers(r@, rels@),
        joined(r@, edges@),
{
    let mut comps: Vec<u64> = Vec::new();
    let mut j: usize = 0;
    while j < rels.len()
        invariant
            j <= rels@.len(),
            forall|i: int| 0 <= i < rels@.len() ==> #[trigger] rels@[i] < 64,
            comps@ == singletons(rels@.take(j as int)),
        decreases rels.len() - j,
    {
        comps.push(1u64 << (rels[j] as u64));
        j = j + 1;
        proof {
            assert(comps@ =~= singletons(rels@.take(j as int)));
        }
    }
    proof {
        assert(rels@.take(j as int) =~= rels@);
        lemma_singletons(rels@);
        lemma_merge_all(singletons(rels@), rels@, edges@);
    }
    let ghost start = comps@;
    let mut i: usize = 0;
    while i < edges.len()
        invariant
            i <= edges@.len(),
            graph_fits(rels@, edges@),
            start == singletons(rels@),
            disjoint(start),
            covers(start, rels@),
            comps@ == merge_all(start, edges@.take(i as int)),
        decreases edges.len() - i,
    {
        let ghost t = edges@.take(i as int);
        proof {
            assert(edges@.take(i + 1).drop_last() =~= t);
            assert(edges@.take(i + 1).last() == edges@[i as int]);
            assert(graph_fits(rels@, t)) by {
                assert forall|k: int| 0 <= k < t.len() implies rels@.contains((#[trigger] t[k]).0.rel)
                    && rels@.contains(t[k].1.rel) by {
                    assert(t[k] == edges@[k]);
                }
            }
            lemma_merge_all(start, rels@, t);
        }
        let (a, b) = edges[i];
        proof {
            assert(rels@.contains(a.rel) && rels@.contains(b.rel));
            let ja = choose|x: int| 0 <= x < rels@.len() && rels@[x] == a.rel;
            let jb = choose|x: int| 0 <= x < rels@.len() && rels@[x] == b.rel;
            assert(rels@[ja] < 64 && rels@[jb] < 64);
            assert(in_some(comps@, rels@[ja]));
            assert(in_some(comps@, rels@[jb]));
            let ka = choose|k: int| 0 <= k < comps@.len() && #[trigger] holds(comps@[k], a.rel);
            let kb = choose|k: int| 0 <= k < comps@.len() && #[trigger] holds(comps@[k], b.rel);
            lemma_first_with(comps@, a.rel, ka, 0);
            lemma_first_with(comps@, b.rel, kb, 0);
        }
        let ia = position(&comps, a.rel);
        let ib = position(&comps, b.rel);
        if ia != ib {
            let lo = if ia < ib { ia } else { ib };
            let hi = if ia < ib { ib } else { ia };
            let merged = comps.swap_remove(hi);
            let united = comps[lo] | merged;
            comps.set(lo, united);
        }
        i = i + 1;
    }
    proof {
        assert(edges@.take(i as int) =~= edges@);
    }
    comps
}

} // verus!
