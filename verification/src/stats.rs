//! Table statistics: row counts and per-column distinct-value counts.

use vstd::prelude::*;
use crate::order::{compare_str, lemma_ord_chars_eq};
use crate::ir::RelInfo;

verus! {

/// Statistics of one table.
#[derive(Debug, Clone, Default)]
pub struct TableStats {
    pub rows: u64,
    /// Distinct-value count per column name.
    pub ndv: Vec<(String, u64)>,
}

/// Statistics of every table, by table name.
#[derive(Debug, Clone, Default)]
pub struct Stats {
    pub tables: Vec<(String, TableStats)>,
}

/// The value of the first entry named `key`, if any.
pub open spec fn lookup<V>(entries: Seq<(String, V)>, key: Seq<char>) -> Option<V>
    decreases entries.len(),
{
    if entries.len() == 0 {
        None
    } else if entries[0].0@ == key {
        Some(entries[0].1)
    } else {
        lookup(entries.drop_first(), key)
    }
}

fn find_index<V>(entries: &Vec<(String, V)>, key: &str) -> (r: Option<usize>)
    ensures
        match r {
            Some(i) => i < entries@.len() && lookup(entries@, key@) == Some(entries@[i as int].1),
            None => lookup(entries@, key@) is None,
        },
{
    let mut i: usize = 0;
    assert(entries@.skip(0) =~= entries@);
    while i < entries.len()
        invariant
            i <= entries@.len(),
            lookup(entries@, key@) == lookup(entries@.skip(i as int), key@),
        decreases entries.len() - i,
    {
        let c = compare_str(entries[i].0.as_str(), key);
        proof {
            lemma_ord_chars_eq(entries@[i as int].0@, key@);
            assert(entries@.skip(i as int)[0] == entries@[i as int]);
        }
        if c == 0 {
            return Some(i);
        }
        assert(entries@.skip(i as int).drop_first() =~= entries@.skip(i + 1));
        i = i + 1;
    }
    None
}

impl Stats {
    /// The row count of a table.
    pub fn rows(&self, table: &str) -> (r: Option<u64>)
        ensures
            r == match lookup(self.tables@, table@) {
                Some(t) => Some(t.rows),
                None => None,
            },
    {
        match find_index(&self.tables, table) {
            Some(i) => Some(self.tables[i].1.rows),
            None => None,
        }
    }

    /// The distinct-value count of a column of a table.
    pub fn ndv(&self, table: &str, column: &str) -> (r: Option<u64>)
        ensures
            r == match lookup(self.tables@, table@) {
                Some(t) => lookup(t.ndv@, column@),
                None => None,
            },
    {
        match find_index(&self.tables, table) {
            Some(i) => {
                let t = &self.tables[i].1;
                match find_index(&t.ndv, column) {
                    Some(j) => Some(t.ndv[j].1),
                    None => None,
                }
            },
            None => None,
        }
    }
}

/// No name occurs twice among the entries.
pub open spec fn names_unique<V>(entries: Seq<(String, V)>) -> bool {
    forall|i: int, j: int| 0 <= i < entries.len() && 0 <= j < entries.len() && i != j ==> entries[i].0@
        != entries[j].0@
}

impl Stats {
    /// Each table is listed once, and each of its columns once.
    pub open spec fn wf(&self) -> bool {
        &&& names_unique(self.tables@)
        &&& forall|i: int| 0 <= i < self.tables@.len() ==> names_unique((#[trigger] self.tables@[i]).1.ndv@)
    }
}

/// With names listed once, the lookup finds an entry's value by its name:
/// the entries are read as a map.
pub proof fn lemma_lookup_unique<V>(entries: Seq<(String, V)>, i: int)
    requires
        names_unique(entries),
        0 <= i < entries.len(),
    ensures
        lookup(entries, entries[i].0@) == Some(entries[i].1),
    decreases entries.len(),
{
    if i > 0 {
        let rest = entries.drop_first();
        assert(entries[0].0@ != entries[i].0@);
        assert(names_unique(rest)) by {
            assert forall|a: int, b: int| 0 <= a < rest.len() && 0 <= b < rest.len() && a != b implies rest[a].0@
                != rest[b].0@ by {
                assert(rest[a] == entries[a + 1] && rest[b] == entries[b + 1]);
            }
        }
        assert(rest[i - 1] == entries[i]);
        lemma_lookup_unique(rest, i - 1);
    }
}

/// What every optimizer is handed besides the plan.
pub struct OptContext {
    pub stats: Stats,
}

/// The statistics and the relations of one query, which the cost formulas
/// read.
pub struct CostModel<'a> {
    pub stats: &'a Stats,
    pub rels: &'a [RelInfo],
}

impl OptContext {
    /// The cost model of a query over `rels`, reading this context's
    /// statistics.
    pub fn cost_model<'a>(&'a self, rels: &'a [RelInfo]) -> (r: CostModel<'a>)
        ensures
            *r.stats == self.stats,
            r.rels@ == rels@,
    {
        CostModel { stats: &self.stats, rels }
    }
}

} // verus!
