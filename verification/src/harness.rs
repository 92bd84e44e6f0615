//! What comparing an optimizer's results against a reference needs that
//! is pure computation: the query records, result-row normalization, and
//! the mismatch report.

use vstd::prelude::*;
use vstd::relations::{sorted_by, total_ordering};
use vstd::seq_lib::lemma_sorted_unique;
use crate::order::{compare_str, lemma_ord_chars, ord_chars};
use crate::text::chars_vec;
use crate::render::{dec_nat, push_dec};

verus! {

/// What `str::to_uppercase` makes of a text.
pub uninterp spec fn uppercase(s: Seq<char>) -> Seq<char>;

/// The uppercase of an ASCII character.
pub open spec fn ascii_upper(c: char) -> char {
    if 'a' <= c <= 'z' {
        ((c as u32) - 32) as char
    } else {
        c
    }
}

/// Every character is ASCII.
pub open spec fn all_ascii(s: Seq<char>) -> bool {
    forall|i: int| 0 <= i < s.len() ==> (#[trigger] s[i]) as u32 <= 127
}

/// Calls `str::to_uppercase`: the result is `uppercase` of the text, and
/// on an ASCII text each letter a-z becomes A-Z and nothing else changes.
#[verifier::external_body]
fn to_uppercase(s: &str) -> (r: String)
    ensures
        r@ == uppercase(s@),
        all_ascii(s@) ==> r@ == s@.map_values(|c: char| ascii_upper(c)),
{
    s.to_uppercase()
}

/// `needle` occurs in `hay` at position `i`.
pub open spec fn occurs_at(hay: Seq<char>, needle: Seq<char>, i: int) -> bool {
    0 <= i && i + needle.len() <= hay.len() && hay.subrange(i, i + needle.len()) == needle
}

/// `needle` occurs somewhere in `hay`.
pub open spec fn occurs(hay: Seq<char>, needle: Seq<char>) -> bool {
    exists|i: int| occurs_at(hay, needle, i)
}

/// Whether `n` occurs in `h` at position `i`.
fn matches_here(h: &Vec<char>, n: &Vec<char>, i: usize) -> (r: bool)
    requires
        i + n@.len() <= h@.len(),
    ensures
        r == (h@.subrange(i as int, i + n@.len()) == n@),
{
    let hl = h.len();
    let mut k: usize = 0;
    while k < n.len()
        invariant
            hl == h@.len(),
            i + n@.len() <= h@.len(),
            k <= n@.len(),
            forall|j: int| 0 <= j < k ==> h@[i + j] == n@[j],
        decreases n.len() - k,
    {
        if h[i + k] != n[k] {
            proof {
                assert(h@.subrange(i as int, i + n@.len())[k as int] != n@[k as int]);
            }
            return false;
        }
        k = k + 1;
    }
    proof {
        assert(h@.subrange(i as int, i + n@.len()) =~= n@);
    }
    true
}

/// Whether `needle` occurs in `hay` (see `occurs`).
pub fn contains_text(hay: &str, needle: &str) -> (r: bool)
    ensures
        r == occurs(hay@, needle@),
{
    let h = chars_vec(hay);
    let n = chars_vec(needle);
    if n.len() > h.len() {
        proof {
            assert forall|i: int| !occurs_at(hay@, needle@, i) by {}
        }
        return false;
    }
    let last = h.len() - n.len();
    let mut i: usize = 0;
    while i <= last
        invariant
            h@ == hay@,
            n@ == needle@,
            last == h@.len() - n@.len(),
            i <= last,
            forall|j: int| 0 <= j < i ==> !occurs_at(hay@, needle@, j),
        decreases last - i,
    {
        if matches_here(&h, &n, i) {
            proof {
                assert(occurs_at(hay@, needle@, i as int));
            }
            return true;
        }
        proof {
            assert(!occurs_at(hay@, needle@, i as int));
        }
        if i == last {
            proof {
                assert forall|j: int| !occurs_at(hay@, needle@, j) by {
                    if 0 <= j && j + needle@.len() <= hay@.len() {
                        assert(j <= i);
                    }
                }
            }
            return false;
        }
        i = i + 1;
    }
    false
}

/// One query of the corpus: its name, its SQL, and the highest
/// optimization level it needs to run feasibly (0: runs unoptimized).
#[derive(Debug, Clone)]
pub struct QueryFile {
    pub name: String,
    pub sql: String,
    pub tier: u8,
}

impl QueryFile {
    /// Whether the query orders its rows: its SQL, uppercased, holds
    /// `ORDER BY`.
    pub fn has_order_by(&self) -> (r: bool)
        ensures
            r == occurs(uppercase(self.sql@), "ORDER BY"@),
    {
        let upper = to_uppercase(self.sql.as_str());
        contains_text(upper.as_str(), "ORDER BY")
    }
}

/// The model of a result row: its values' texts.
pub open spec fn row_view(r: Vec<String>) -> Seq<Seq<char>> {
    r@.map_values(|v: String| v@)
}

/// The model of result rows.
pub open spec fn rows_view(rows: Seq<Vec<String>>) -> Seq<Seq<Seq<char>>> {
    rows.map_values(|r: Vec<String>| row_view(r))
}

/// Rows compared value by value, each value by its characters; a row
/// that is a prefix of another comes first.
pub open spec fn ord_row(a: Seq<Seq<char>>, b: Seq<Seq<char>>) -> int
    decreases a.len(),
{
    if a.len() == 0 {
        if b.len() == 0 {
            0
        } else {
            -1
        }
    } else if b.len() == 0 {
        1
    } else if a[0] != b[0] {
        ord_chars(a[0], b[0])
    } else {
        ord_row(a.drop_first(), b.drop_first())
    }
}

pub proof fn lemma_ord_row(a: Seq<Seq<char>>, b: Seq<Seq<char>>, c: Seq<Seq<char>>)
    ensures
        -1 <= ord_row(a, b) <= 1,
        ord_row(a, b) == 0 <==> a == b,
        ord_row(a, b) == -ord_row(b, a),
        ord_row(a, b) <= 0 && ord_row(b, c) <= 0 ==> ord_row(a, c) <= 0,
    decreases a.len(),
{
    if a.len() > 0 && b.len() > 0 {
        lemma_ord_chars(a[0], b[0], b[0]);
        if c.len() > 0 {
            lemma_ord_row(a.drop_first(), b.drop_first(), c.drop_first());
            lemma_ord_chars(a[0], b[0], c[0]);
            lemma_ord_chars(b[0], c[0], c[0]);
            lemma_ord_chars(a[0], c[0], c[0]);
            lemma_ord_chars(b[0], a[0], a[0]);
            lemma_ord_chars(c[0], b[0], b[0]);
        } else {
            lemma_ord_row(a.drop_first(), b.drop_first(), c);
        }
        if a.drop_first() == b.drop_first() && a[0] == b[0] {
            assert(a.len() == b.len());
            assert forall|i: int| 0 <= i < a.len() implies a[i] == b[i] by {
                if i > 0 {
                    assert(a[i] == a.drop_first()[i - 1]);
                    assert(b[i] == b.drop_first()[i - 1]);
                }
            }
            assert(a =~= b);
        }
        if a == b {
            assert(a.drop_first() == b.drop_first());
        }
    } else if a.len() > 0 && c.len() > 0 {
        lemma_ord_chars(a[0], c[0], c[0]);
    } else if a.len() == 0 && b.len() == 0 {
        assert(a =~= b);
    }
}

/// The row order as a relation.
pub open spec fn row_leq() -> spec_fn(Seq<Seq<char>>, Seq<Seq<char>>) -> bool {
    |a: Seq<Seq<char>>, b: Seq<Seq<char>>| ord_row(a, b) <= 0
}

pub proof fn lemma_row_leq_total()
    ensures
        total_ordering(row_leq()),
{
    let leq = row_leq();
    assert forall|x: Seq<Seq<char>>| #[trigger] leq(x, x) by {
        lemma_ord_row(x, x, x);
    }
    assert forall|x: Seq<Seq<char>>, y: Seq<Seq<char>>| #[trigger] leq(x, y) && #[trigger] leq(y, x) implies x == y by {
        lemma_ord_row(x, y, y);
    }
    assert forall|x: Seq<Seq<char>>, y: Seq<Seq<char>>, z: Seq<Seq<char>>| #[trigger] leq(x, y) && #[trigger] leq(y, z) implies leq(x, z) by {
        lemma_ord_row(x, y, z);
    }
    assert forall|x: Seq<Seq<char>>, y: Seq<Seq<char>>| #[trigger] leq(x, y) || #[trigger] leq(y, x) by {
        lemma_ord_row(x, y, y);
    }
}

/// Unordered results compare as multisets: two arrangements of the same
/// rows sort alike.
pub proof fn lemma_sorted_rows_ignore_order(a: Seq<Seq<Seq<char>>>, b: Seq<Seq<Seq<char>>>)
    requires
        a.to_multiset() == b.to_multiset(),
    ensures
        sorted_rows(a) == sorted_rows(b),
{
    lemma_row_leq_total();
    a.lemma_sort_by_ensures(row_leq());
    b.lemma_sort_by_ensures(row_leq());
    lemma_sorted_unique(sorted_rows(a), sorted_rows(b), row_leq());
}

/// Compares two rows (see `ord_row`).
fn compare_rows(a: &Vec<String>, b: &Vec<String>) -> (r: i8)
    ensures
        r == ord_row(row_view(*a), row_view(*b)),
{
    let ghost av = row_view(*a);
    let ghost bv = row_view(*b);
    let mut i: usize = 0;
    proof {
        assert(av.skip(0) =~= av);
        assert(bv.skip(0) =~= bv);
    }
    while i < a.len() && i < b.len()
        invariant
            i <= a@.len(),
            i <= b@.len(),
            av == row_view(*a),
            bv == row_view(*b),
            ord_row(av, bv) == ord_row(av.skip(i as int), bv.skip(i as int)),
        decreases a.len() - i,
    {
        let c = compare_str(a[i].as_str(), b[i].as_str());
        proof {
            crate::order::lemma_ord_chars_eq(a@[i as int]@, b@[i as int]@);
            assert(av.skip(i as int)[0] == a@[i as int]@);
            assert(bv.skip(i as int)[0] == b@[i as int]@);
            assert(av.skip(i as int).drop_first() =~= av.skip(i + 1));
            assert(bv.skip(i as int).drop_first() =~= bv.skip(i + 1));
        }
        if c != 0 {
            return c;
        }
        i = i + 1;
    }
    if i < a.len() {
        1
    } else if i < b.len() {
        -1
    } else {
        0
    }
}

/// The rows in row order.
pub open spec fn sorted_rows(rows: Seq<Seq<Seq<char>>>) -> Seq<Seq<Seq<char>>> {
    rows.sort_by(row_leq())
}

/// Sorts rows by the row order (an insertion sort).
fn sort_rows(rows: Vec<Vec<String>>) -> (r: Vec<Vec<String>>)
    ensures
        rows_view(r@) == sorted_rows(rows_view(rows@)),
{
    broadcast use vstd::seq_lib::group_to_multiset_ensures;

    proof {
        lemma_row_leq_total();
    }
    let ghost input = rows_view(rows@);
    let n = rows.len();
    let mut rest = rows;
    let mut rev: Vec<Vec<String>> = Vec::new();
    while rest.len() > 0
        invariant
            rest@.len() + rev@.len() == n,
            input.len() == n,
            forall|i: int| 0 <= i < rest@.len() ==> #[trigger] row_view(rest@[i]) == input[i],
            forall|i: int| 0 <= i < rev@.len() ==> #[trigger] row_view(rev@[i]) == input[n - 1 - i],
        decreases rest.len(),
    {
        let x = rest.pop().unwrap();
        rev.push(x);
    }
    let mut out: Vec<Vec<String>> = Vec::new();
    let mut k: usize = 0;
    proof {
        assert(input.take(0).to_multiset() =~= rows_view(out@).to_multiset());
    }
    while rev.len() > 0
        invariant
            k + rev@.len() == n,
            input.len() == n,
            forall|i: int| 0 <= i < rev@.len() ==> #[trigger] row_view(rev@[i]) == input[n - 1 - i],
            input.take(k as int).to_multiset() == rows_view(out@).to_multiset(),
            sorted_by(rows_view(out@), row_leq()),
            total_ordering(row_leq()),
        decreases rev.len(),
    {
        let x = rev.pop().unwrap();
        let ghost xv = row_view(x);
        proof {
            assert(xv == input[k as int]);
        }
        let ghost ov = rows_view(out@);
        let mut j: usize = 0;
        while j < out.len() && compare_rows(&x, &out[j]) > 0
            invariant
                j <= out@.len(),
                ov == rows_view(out@),
                xv == row_view(x),
                forall|t: int| 0 <= t < j ==> ord_row(xv, #[trigger] ov[t]) > 0,
            decreases out.len() - j,
        {
            j = j + 1;
        }
        let ghost before = out@;
        out.insert(j, x);
        proof {
            let leq = row_leq();
            assert(rows_view(out@) =~= ov.insert(j as int, xv));
            let nv = rows_view(out@);
            assert forall|a: int, b: int| 0 <= a < b < nv.len() implies #[trigger] leq(nv[a], nv[b]) by {
                if b == j {
                    assert(ord_row(xv, ov[a]) > 0);
                    lemma_ord_row(xv, ov[a], ov[a]);
                } else if a == j {
                    if j < ov.len() {
                        assert(!(ord_row(xv, ov[j as int]) > 0));
                        if b > j + 1 {
                            assert(leq(ov[j as int], ov[b - 1]));
                            lemma_ord_row(xv, ov[j as int], ov[b - 1]);
                        }
                    }
                } else if a < j && b < j {
                    assert(leq(ov[a], ov[b]));
                } else if a < j && b > j {
                    assert(leq(ov[a], ov[b - 1]));
                } else {
                    assert(leq(ov[a - 1], ov[b - 1]));
                }
            }
            vstd::seq_lib::to_multiset_insert(ov, j as int, xv);
            assert(input.take(k + 1) =~= input.take(k as int).push(xv));
            vstd::seq_lib::to_multiset_build(input.take(k as int), xv);
        }
        k = k + 1;
    }
    proof {
        assert(input.take(n as int) =~= input);
        input.lemma_sort_by_ensures(row_leq());
        lemma_sorted_unique(rows_view(out@), sorted_rows(input), row_leq());
    }
    out
}

/// Result rows made comparable: as they are when the query orders them,
/// else sorted (rows then compare as multisets).
pub fn normalize(rows: Vec<Vec<String>>, ordered: bool) -> (r: Vec<Vec<String>>)
    ensures
        rows_view(r@) == if ordered {
            rows_view(rows@)
        } else {
            sorted_rows(rows_view(rows@))
        },
{
    if ordered {
        rows
    } else {
        sort_rows(rows)
    }
}

/// What the `{:?}` formatting of a row's values prints.
pub uninterp spec fn debug_text(row: Seq<Seq<char>>) -> Seq<char>;

/// Calls the `Debug` formatting of a vector of strings (`format!("{:?}")`);
/// the text depends on the values alone.
#[verifier::external_body]
fn debug_row(row: &Vec<String>) -> (r: String)
    ensures
        r@ == debug_text(row_view(*row)),
{
    format!("{:?}", row)
}

/// The positions below `k` (and below both lengths) where the row lists
/// differ, ascending.
pub open spec fn mismatches(o: Seq<Seq<Seq<char>>>, s: Seq<Seq<Seq<char>>>, k: nat) -> Seq<nat>
    decreases k,
{
    if k == 0 {
        Seq::empty()
    } else {
        let j = (k - 1) as nat;
        mismatches(o, s, j) + if j < o.len() && j < s.len() && o[j as int] != s[j as int] {
            seq![j]
        } else {
            Seq::empty()
        }
    }
}

/// The first five elements (all of them when there are fewer).
pub open spec fn first_five(s: Seq<nat>) -> Seq<nat> {
    if s.len() <= 5 {
        s
    } else {
        s.take(5)
    }
}

/// The report lines of the differing rows at positions `idx`, joined by
/// line breaks.
pub open spec fn rows_lines(idx: Seq<nat>, o: Seq<Seq<Seq<char>>>, s: Seq<Seq<Seq<char>>>) -> Seq<char>
    decreases idx.len(),
{
    if idx.len() == 0 {
        Seq::empty()
    } else {
        let i = idx.last();
        let line = "  row "@ + dec_nat(i) + ":\n    oracle:  "@ + debug_text(o[i as int])
            + "\n    subject: "@ + debug_text(s[i as int]);
        if idx.len() == 1 {
            line
        } else {
            rows_lines(idx.drop_last(), o, s) + "\n"@ + line
        }
    }
}

/// The mismatch report: the sizes, then the first five differing rows, or
/// when the common prefix agrees, the first row one side lacks.
pub open spec fn diff_spec(label: Seq<char>, o: Seq<Seq<Seq<char>>>, s: Seq<Seq<Seq<char>>>) -> Option<
    Seq<char>,
> {
    if o == s {
        None
    } else {
        let head = label + ": MISMATCH — oracle "@ + dec_nat(o.len()) + " rows, subject "@ + dec_nat(s.len())
            + " rows\n"@;
        let m = first_five(mismatches(o, s, o.len()));
        Some(
            if m.len() == 0 {
                head + "  (rows agree on common prefix; lengths differ)\n"@ + if o.len() > s.len() {
                    "  first missing row: "@ + debug_text(o[s.len() as int]) + "\n"@
                } else {
                    "  first extra row:   "@ + debug_text(s[o.len() as int]) + "\n"@
                }
            } else {
                head + rows_lines(m, o, s) + "\n"@
            },
        )
    }
}

proof fn lemma_mismatches_len(o: Seq<Seq<Seq<char>>>, s: Seq<Seq<Seq<char>>>, k: nat)
    ensures
        mismatches(o, s, k).len() <= k,
        forall|t: int| 0 <= t < mismatches(o, s, k).len() ==> #[trigger] mismatches(o, s, k)[t] < k
            && mismatches(o, s, k)[t] < o.len() && mismatches(o, s, k)[t] < s.len(),
    decreases k,
{
    if k > 0 {
        lemma_mismatches_len(o, s, (k - 1) as nat);
        let a = mismatches(o, s, (k - 1) as nat);
        let all = mismatches(o, s, k);
        assert forall|t: int| 0 <= t < all.len() implies #[trigger] all[t] < k && all[t] < o.len() && all[t]
            < s.len() by {
            if t < a.len() {
                assert(all[t] == a[t]);
            }
        }
    }
}

/// No mismatch below the shorter length means one list extends the other.
proof fn lemma_no_mismatch_prefix(o: Seq<Seq<Seq<char>>>, s: Seq<Seq<Seq<char>>>, k: nat)
    requires
        mismatches(o, s, k).len() == 0,
    ensures
        forall|j: int| 0 <= j < k && j < o.len() && j < s.len() ==> o[j] == s[j],
    decreases k,
{
    if k > 0 {
        let a = mismatches(o, s, (k - 1) as nat);
        assert(a.len() == 0);
        lemma_no_mismatch_prefix(o, s, (k - 1) as nat);
    }
}

/// Whether two row lists have the same model.
fn rows_equal(o: &Vec<Vec<String>>, s: &Vec<Vec<String>>) -> (r: bool)
    ensures
        r == (rows_view(o@) == rows_view(s@)),
{
    let ghost ov = rows_view(o@);
    let ghost sv = rows_view(s@);
    if o.len() != s.len() {
        proof {
            assert(ov.len() != sv.len());
        }
        return false;
    }
    let mut i: usize = 0;
    while i < o.len()
        invariant
            i <= o@.len(),
            o@.len() == s@.len(),
            ov == rows_view(o@),
            sv == rows_view(s@),
            forall|j: int| 0 <= j < i ==> ov[j] == sv[j],
        decreases o.len() - i,
    {
        let c = compare_rows(&o[i], &s[i]);
        proof {
            lemma_ord_row(ov[i as int], sv[i as int], sv[i as int]);
        }
        if c != 0 {
            return false;
        }
        i = i + 1;
    }
    proof {
        assert(ov =~= sv);
    }
    true
}

/// Compares reference rows with the optimizer's rows: nothing when they
/// agree, else a report of the differences (see `diff_spec`).
pub fn diff_report(label: &str, oracle: &Vec<Vec<String>>, subject: &Vec<Vec<String>>) -> (r: Option<String>)
    ensures
        match r {
            Some(t) => diff_spec(label@, rows_view(oracle@), rows_view(subject@)) == Some(t@),
            None => diff_spec(label@, rows_view(oracle@), rows_view(subject@)) is None,
        },
{
    let ghost ov = rows_view(oracle@);
    let ghost sv = rows_view(subject@);
    if rows_equal(oracle, subject) {
        return None;
    }
    proof {
        reveal_strlit(": MISMATCH — oracle ");
        reveal_strlit(" rows, subject ");
        reveal_strlit(" rows\n");
        reveal_strlit("  (rows agree on common prefix; lengths differ)\n");
        reveal_strlit("  first missing row: ");
        reveal_strlit("  first extra row:   ");
        reveal_strlit("\n");
        reveal_strlit("  row ");
        reveal_strlit(":\n    oracle:  ");
        reveal_strlit("\n    subject: ");
    }
    let mut out = label.to_owned();
    out.append(": MISMATCH — oracle ");
    push_dec(&mut out, oracle.len() as u64);
    out.append(" rows, subject ");
    push_dec(&mut out, subject.len() as u64);
    out.append(" rows\n");
    let ghost head = out@;
    let common = if oracle.len() < subject.len() {
        oracle.len()
    } else {
        subject.len()
    };
    let mut found: Vec<usize> = Vec::new();
    let mut i: usize = 0;
    proof {
        assert(found@.map_values(|x: usize| x as nat) =~= first_five(mismatches(ov, sv, 0)));
    }
    while i < common
        invariant
            i <= common,
            common <= oracle@.len(),
            common <= subject@.len(),
            common == oracle@.len() || common == subject@.len(),
            ov == rows_view(oracle@),
            sv == rows_view(subject@),
            found@.map_values(|x: usize| x as nat) == first_five(mismatches(ov, sv, i as nat)),
        decreases common - i,
    {
        let c = compare_rows(&oracle[i], &subject[i]);
        let ghost before = mismatches(ov, sv, i as nat);
        proof {
            lemma_ord_row(ov[i as int], sv[i as int], sv[i as int]);
            lemma_mismatches_len(ov, sv, i as nat);
        }
        proof {
            assert(found@.map_values(|x: usize| x as nat).len() == found@.len());
            assert(first_five(before).len() == found@.len());
        }
        if c != 0 && found.len() < 5 {
            let ghost fb = found@;
            found.push(i);
            proof {
                assert(before.len() < 5);
                assert(first_five(before) =~= before);
                assert(found@.map_values(|x: usize| x as nat) =~= fb.map_values(|x: usize| x as nat).push(i as nat));
                assert(mismatches(ov, sv, (i + 1) as nat) == before + seq![i as nat]);
                assert(found@.map_values(|x: usize| x as nat) =~= first_five((before + seq![i as nat])));
            }
        } else {
            proof {
                if c != 0 {
                    assert(mismatches(ov, sv, (i + 1) as nat) == before + seq![i as nat]);
                    assert(first_five((before + seq![i as nat])) =~= first_five(before));
                } else {
                    assert(mismatches(ov, sv, (i + 1) as nat) =~= before);
                }
            }
        }
        i = i + 1;
    }
    proof {
        let k = ov.len();
        lemma_mismatches_len(ov, sv, common as nat);
        assert forall|kk: nat| common <= kk <= k implies mismatches(ov, sv, kk) == mismatches(
            ov,
            sv,
            common as nat,
        ) by {
            lemma_mismatches_stable(ov, sv, common as nat, kk);
        }
    }
    let ghost m = first_five(mismatches(ov, sv, ov.len()));
    proof {
        assert(found@.map_values(|x: usize| x as nat).len() == found@.len());
        assert(m == first_five(mismatches(ov, sv, common as nat)));
    }
    if found.len() == 0 {
        out.append("  (rows agree on common prefix; lengths differ)\n");
        if oracle.len() > subject.len() {
            out.append("  first missing row: ");
            let t = debug_row(&oracle[subject.len()]);
            out.append(t.as_str());
            out.append("\n");
            proof {
                assert(ov[sv.len() as int] == row_view(oracle@[subject@.len() as int]));
            }
        } else {
            proof {
                let mm = mismatches(ov, sv, common as nat);
                if mm.len() > 0 {
                    assert(first_five(mm).len() > 0);
                }
                lemma_no_mismatch_prefix(ov, sv, common as nat);
                if oracle@.len() == subject@.len() {
                    assert(ov =~= sv);
                }
            }
            out.append("  first extra row:   ");
            let t = debug_row(&subject[oracle.len()]);
            out.append(t.as_str());
            out.append("\n");
            proof {
                assert(sv[ov.len() as int] == row_view(subject@[oracle@.len() as int]));
            }
        }
        proof {
            assert(m.len() == 0);
            assert(out@ =~= diff_spec(label@, ov, sv).unwrap());
        }
    } else {
        let ghost mid = out@;
        let mut j: usize = 0;
        while j < found.len()
            invariant
                j <= found@.len(),
                found@.len() <= 5,
                found@.map_values(|x: usize| x as nat) == m,
                m.len() == found@.len(),
                forall|t: int| 0 <= t < m.len() ==> #[trigger] m[t] < ov.len() && m[t] < sv.len(),
                ov == rows_view(oracle@),
                sv == rows_view(subject@),
                out@ == mid + rows_lines(m.take(j as int), ov, sv),
            decreases found.len() - j,
        {
            let idx = found[j];
            proof {
                assert(m[j as int] == idx as nat);
            }
            if j > 0 {
                out.append("\n");
            }
            out.append("  row ");
            push_dec(&mut out, idx as u64);
            out.append(":\n    oracle:  ");
            let a = debug_row(&oracle[idx]);
            out.append(a.as_str());
            out.append("\n    subject: ");
            let b = debug_row(&subject[idx]);
            out.append(b.as_str());
            proof {
                assert(m.take(j + 1).drop_last() =~= m.take(j as int));
                assert(m.take(j + 1).last() == idx as nat);
                assert(ov[idx as int] == row_view(oracle@[idx as int]));
                assert(sv[idx as int] == row_view(subject@[idx as int]));
                assert(out@ =~= mid + rows_lines(m.take(j + 1), ov, sv));
            }
            j = j + 1;
        }
        out.append("\n");
        proof {
            assert(m.take(j as int) =~= m);
            assert(out@ =~= diff_spec(label@, ov, sv).unwrap());
        }
    }
    Some(out)
}

proof fn lemma_mismatches_stable(o: Seq<Seq<Seq<char>>>, s: Seq<Seq<Seq<char>>>, c: nat, k: nat)
    requires
        c <= k,
        c >= o.len() || c >= s.len(),
    ensures
        mismatches(o, s, k) == mismatches(o, s, c),
    decreases k - c,
{
    if k > c {
        lemma_mismatches_stable(o, s, c, (k - 1) as nat);
        assert(mismatches(o, s, k) =~= mismatches(o, s, (k - 1) as nat));
    }
}

/// Rows produced while executing a plan: in total, by scans, and per
/// operator in execution-tree order.
#[derive(Debug, Clone)]
pub struct RowWork {
    pub total_rows: u64,
    pub scan_rows: u64,
    pub per_operator: Vec<(String, u64)>,
}

/// An operator reads from storage: its name mentions `Csv` or
/// `DataSource`.
pub open spec fn is_scan_operator(name: Seq<char>) -> bool {
    occurs(name, "Csv"@) || occurs(name, "DataSource"@)
}

/// The rows of every operator, summed.
pub open spec fn rows_total(ops: Seq<(String, u64)>) -> int
    decreases ops.len(),
{
    if ops.len() == 0 {
        0
    } else {
        rows_total(ops.drop_last()) + ops.last().1
    }
}

/// The rows of the scan operators, summed.
pub open spec fn scan_total(ops: Seq<(String, u64)>) -> int
    decreases ops.len(),
{
    if ops.len() == 0 {
        0
    } else {
        scan_total(ops.drop_last()) + if is_scan_operator(ops.last().0@) {
            ops.last().1 as int
        } else {
            0
        }
    }
}

impl Default for RowWork {
    /// No operator recorded.
    fn default() -> (r: Self)
        ensures
            r.total_rows == 0,
            r.scan_rows == 0,
            r.per_operator@.len() == 0,
            r.wf(),
    {
        RowWork { total_rows: 0, scan_rows: 0, per_operator: Vec::new() }
    }
}

impl RowWork {
    /// The totals are the sums of the per-operator rows: over every
    /// operator, and over the scans.
    pub open spec fn wf(&self) -> bool {
        &&& self.total_rows == rows_total(self.per_operator@)
        &&& self.scan_rows == scan_total(self.per_operator@)
    }

    /// Records one operator and the rows it produced; the totals stay the
    /// sums of the per-operator rows.
    pub fn record(&mut self, name: String, rows: u64)
        requires
            old(self).total_rows + rows <= u64::MAX,
            is_scan_operator(name@) ==> old(self).scan_rows + rows <= u64::MAX,
        ensures
            old(self).wf() ==> final(self).wf(),
            final(self).total_rows == old(self).total_rows + rows,
            final(self).scan_rows == old(self).scan_rows + if is_scan_operator(name@) {
                rows
            } else {
                0
            },
            final(self).per_operator@ == old(self).per_operator@.push((name, rows)),
    {
        self.total_rows = self.total_rows + rows;
        let scan = contains_text(name.as_str(), "Csv") || contains_text(name.as_str(), "DataSource");
        if scan {
            self.scan_rows = self.scan_rows + rows;
        }
        let ghost before = self.per_operator@;
        self.per_operator.push((name, rows));
        proof {
            assert(self.per_operator@.drop_last() =~= before);
        }
    }
}

} // verus!
