//! Sorting and deduplicating vectors of small copyable keys.

use vstd::prelude::*;
use vstd::relations::{sorted_by, total_ordering};
use vstd::seq_lib::lemma_sorted_unique;
use crate::ir::ColRef;

verus! {

/// A copyable key with a total order and an executable comparison.
pub trait Key: Sized {
    spec fn le(a: Self, b: Self) -> bool;

    proof fn lemma_total()
        ensures
            total_ordering(|a: Self, b: Self| Self::le(a, b)),
    ;

    fn le_exec(a: Self, b: Self) -> (r: bool)
        ensures
            r == Self::le(a, b),
    ;

    fn eq_exec(a: Self, b: Self) -> (r: bool)
        ensures
            r == (a == b),
    ;
}

impl Key for usize {
    open spec fn le(a: usize, b: usize) -> bool {
        a <= b
    }

    proof fn lemma_total() {
    }

    fn le_exec(a: usize, b: usize) -> (r: bool) {
        a <= b
    }

    fn eq_exec(a: usize, b: usize) -> (r: bool) {
        a == b
    }
}

/// Column references ordered by relation, then column.
pub open spec fn colref_le(a: ColRef, b: ColRef) -> bool {
    a.rel < b.rel || (a.rel == b.rel && a.col <= b.col)
}

impl Key for ColRef {
    open spec fn le(a: ColRef, b: ColRef) -> bool {
        colref_le(a, b)
    }

    proof fn lemma_total() {
    }

    fn le_exec(a: ColRef, b: ColRef) -> (r: bool) {
        a.rel < b.rel || (a.rel == b.rel && a.col <= b.col)
    }

    fn eq_exec(a: ColRef, b: ColRef) -> (r: bool) {
        a.rel == b.rel && a.col == b.col
    }
}

/// Pairs of column references ordered by their first, then second member.
pub open spec fn pair_le(a: (ColRef, ColRef), b: (ColRef, ColRef)) -> bool {
    (colref_le(a.0, b.0) && a.0 != b.0) || (a.0 == b.0 && colref_le(a.1, b.1))
}

impl Key for (ColRef, ColRef) {
    open spec fn le(a: (ColRef, ColRef), b: (ColRef, ColRef)) -> bool {
        pair_le(a, b)
    }

    proof fn lemma_total() {
    }

    fn le_exec(a: (ColRef, ColRef), b: (ColRef, ColRef)) -> (r: bool) {
        let first_eq = a.0.rel == b.0.rel && a.0.col == b.0.col;
        (ColRef::le_exec(a.0, b.0) && !first_eq) || (first_eq && ColRef::le_exec(a.1, b.1))
    }

    fn eq_exec(a: (ColRef, ColRef), b: (ColRef, ColRef)) -> (r: bool) {
        ColRef::eq_exec(a.0, b.0) && ColRef::eq_exec(a.1, b.1)
    }
}

/// The order of a key type, as a relation.
pub open spec fn key_leq<K: Key + Copy>() -> spec_fn(K, K) -> bool {
    |a: K, b: K| K::le(a, b)
}

/// The elements of `s`, in order.
pub open spec fn sorted_keys<K: Key + Copy>(s: Seq<K>) -> Seq<K> {
    s.sort_by(key_leq::<K>())
}

/// Drops every element equal to its predecessor.
pub open spec fn dedup_adjacent<K>(s: Seq<K>) -> Seq<K>
    decreases s.len(),
{
    if s.len() <= 1 {
        s
    } else if s[s.len() - 1] == s[s.len() - 2] {
        dedup_adjacent(s.drop_last())
    } else {
        dedup_adjacent(s.drop_last()).push(s.last())
    }
}

/// Sorted, without repetitions.
pub open spec fn sorted_set<K: Key + Copy>(s: Seq<K>) -> Seq<K> {
    dedup_adjacent(sorted_keys(s))
}

/// Sorts keys (an insertion sort).
pub fn sort_keys<K: Key + Copy>(v: Vec<K>) -> (r: Vec<K>)
    ensures
        r@ == sorted_keys(v@),
{
    broadcast use vstd::seq_lib::group_to_multiset_ensures;

    proof {
        K::lemma_total();
    }
    let mut r: Vec<K> = Vec::new();
    let mut i: usize = 0;
    while i < v.len()
        invariant
            i <= v@.len(),
            v@.take(i as int).to_multiset() == r@.to_multiset(),
            sorted_by(r@, key_leq::<K>()),
            total_ordering(key_leq::<K>()),
        decreases v.len() - i,
    {
        let x = v[i];
        let mut k: usize = 0;
        while k < r.len() && !K::le_exec(x, r[k])
            invariant
                k <= r@.len(),
                forall|j: int| 0 <= j < k ==> !K::le(x, #[trigger] r@[j]),
            decreases r.len() - k,
        {
            k = k + 1;
        }
        let ghost rv = r@;
        r.insert(k, x);
        proof {
            assert(r@ =~= rv.insert(k as int, x));
            assert forall|a: int, b: int| 0 <= a < b < r@.len() implies #[trigger] key_leq::<K>()(
                r@[a],
                r@[b],
            ) by {
                let leq = key_leq::<K>();
                if b == k {
                    assert(!K::le(x, rv[a]));
                    assert(leq(rv[a], x) || leq(x, rv[a]));
                } else if a == k {
                    if b > k + 1 {
                        assert(K::le(x, rv[k as int]));
                        assert(leq(rv[k as int], rv[b - 1]));
                        assert(leq(x, rv[k as int]));
                        assert(leq(x, rv[b - 1]));
                    } else {
                        assert(K::le(x, rv[k as int]));
                    }
                } else if a < k && b < k {
                    assert(leq(rv[a], rv[b]));
                } else if a < k && b > k {
                    assert(leq(rv[a], rv[b - 1]));
                } else {
                    assert(leq(rv[a - 1], rv[b - 1]));
                }
            }
            vstd::seq_lib::to_multiset_insert(rv, k as int, x);
            assert(v@.take(i + 1) =~= v@.take(i as int).push(x));
            vstd::seq_lib::to_multiset_build(v@.take(i as int), x);
        }
        i = i + 1;
    }
    proof {
        assert(v@.take(i as int) =~= v@);
        v@.lemma_sort_by_ensures(key_leq::<K>());
        lemma_sorted_unique(r@, sorted_keys(v@), key_leq::<K>());
    }
    r
}

/// Removes consecutive repetitions.
pub fn dedup_keys<K: Key + Copy>(v: Vec<K>) -> (r: Vec<K>)
    ensures
        r@ == dedup_adjacent(v@),
{
    let mut r: Vec<K> = Vec::new();
    let mut i: usize = 0;
    while i < v.len()
        invariant
            i <= v@.len(),
            r@ == dedup_adjacent(v@.take(i as int)),
            i > 0 ==> r@.len() > 0 && r@.last() == v@[i - 1],
            i == 0 ==> r@.len() == 0,
        decreases v.len() - i,
    {
        let x = v[i];
        proof {
            assert(v@.take(i + 1).drop_last() =~= v@.take(i as int));
        }
        if i == 0 {
            r.push(x);
            proof {
                assert(r@ =~= v@.take(1));
            }
        } else if !K::eq_exec(r[r.len() - 1], x) {
            r.push(x);
        }
        i = i + 1;
    }
    proof {
        assert(v@.take(i as int) =~= v@);
    }
    r
}

/// Sorts and removes repetitions.
pub fn sort_dedup<K: Key + Copy>(v: Vec<K>) -> (r: Vec<K>)
    ensures
        r@ == sorted_set(v@),
{
    dedup_keys(sort_keys(v))
}

/// Whether two vectors of keys hold the same elements in the same order.
pub fn keys_equal<K: Key + Copy>(a: &Vec<K>, b: &Vec<K>) -> (r: bool)
    ensures
        r == (a@ == b@),
{
    if a.len() != b.len() {
        return false;
    }
    let mut i: usize = 0;
    while i < a.len()
        invariant
            i <= a@.len(),
            a@.len() == b@.len(),
            forall|j: int| 0 <= j < i ==> a@[j] == b@[j],
        decreases a.len() - i,
    {
        if !K::eq_exec(a[i], b[i]) {
            return false;
        }
        i = i + 1;
    }
    proof {
        assert(a@ =~= b@);
    }
    true
}

/// Sorting forgets the order of the input: two arrangements of the same
/// elements sort alike.
pub proof fn lemma_sorted_keys_perm<K: Key + Copy>(a: Seq<K>, b: Seq<K>)
    requires
        a.to_multiset() == b.to_multiset(),
    ensures
        sorted_keys(a) == sorted_keys(b),
{
    K::lemma_total();
    a.lemma_sort_by_ensures(key_leq::<K>());
    b.lemma_sort_by_ensures(key_leq::<K>());
    lemma_sorted_unique(sorted_keys(a), sorted_keys(b), key_leq::<K>());
}

proof fn lemma_dedup_adjacent_contains<K>(s: Seq<K>, x: K)
    ensures
        dedup_adjacent(s).contains(x) <==> s.contains(x),
    decreases s.len(),
{
    if s.len() > 1 {
        let init = s.drop_last();
        lemma_dedup_adjacent_contains(init, x);
        if s.contains(x) {
            let i = choose|i: int| 0 <= i < s.len() && s[i] == x;
            if i < s.len() - 1 {
                assert(init[i] == x);
            }
        }
        if init.contains(x) {
            let i = choose|i: int| 0 <= i < init.len() && init[i] == x;
            assert(s[i] == x);
        }
        if s[s.len() - 1] == s[s.len() - 2] {
            assert(init[init.len() - 1] == s.last());
        } else {
            let d = dedup_adjacent(init);
            assert(d.push(s.last())[d.len() as int] == s.last());
            if d.push(s.last()).contains(x) && x != s.last() {
                let i = choose|i: int| 0 <= i < d.push(s.last()).len() && d.push(s.last())[i] == x;
                assert(d[i] == x);
            }
            if d.contains(x) {
                let i = choose|i: int| 0 <= i < d.len() && d[i] == x;
                assert(d.push(s.last())[i] == x);
            }
        }
    }
}

/// Sorting and dropping repetitions keeps exactly the elements there were.
pub proof fn lemma_sorted_set_contains<K: Key + Copy>(s: Seq<K>, x: K)
    ensures
        sorted_set(s).contains(x) <==> s.contains(x),
{
    K::lemma_total();
    s.lemma_sort_by_ensures(key_leq::<K>());
    let t = sorted_keys(s);
    lemma_dedup_adjacent_contains(t, x);
    s.to_multiset_ensures();
    t.to_multiset_ensures();
    assert(s.to_multiset() == t.to_multiset());
    assert(s.contains(x) <==> s.to_multiset().count(x) > 0);
    assert(t.contains(x) <==> t.to_multiset().count(x) > 0);
}

/// The set of a concatenation does not depend on the order of its parts.
pub proof fn lemma_sorted_set_concat_commutes<K: Key + Copy>(a: Seq<K>, b: Seq<K>)
    ensures
        sorted_set(a + b) == sorted_set(b + a),
{
    vstd::seq_lib::lemma_seq_union_to_multiset_commutative(a, b);
    lemma_sorted_keys_perm(a + b, b + a);
}

} // verus!
