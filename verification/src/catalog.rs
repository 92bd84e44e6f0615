//! The four-table schema the queries are bound against.

use vstd::prelude::*;
use crate::order::{compare_str, lemma_ord_chars_eq};
use crate::catalog::ColumnType::{Float64, Int64, Utf8};

verus! {

/// Column types of the schema.
#[derive(Debug, Clone, Copy, PartialEq, Eq, Structural)]
pub enum ColumnType {
    Int64,
    Utf8,
    Float64,
}

/// The tables of the schema, in registration order.
pub open spec fn tables() -> Seq<Seq<char>> {
    seq!["customer"@, "orders"@, "lineitem"@, "part"@]
}

/// Whether `t` names a table of the schema.
pub open spec fn known_table(t: Seq<char>) -> bool {
    tables().contains(t)
}

/// The columns of a table, in file order.
pub open spec fn table_columns(t: Seq<char>) -> Seq<(Seq<char>, ColumnType)> {
    if t == "customer"@ {
        seq![
            ("c_custkey"@, ColumnType::Int64),
            ("c_name"@, ColumnType::Utf8),
            ("c_nationkey"@, ColumnType::Int64),
            ("c_mktsegment"@, ColumnType::Utf8),
            ("c_acctbal"@, ColumnType::Float64),
        ]
    } else if t == "orders"@ {
        seq![
            ("o_orderkey"@, ColumnType::Int64),
            ("o_custkey"@, ColumnType::Int64),
            ("o_orderstatus"@, ColumnType::Utf8),
            ("o_totalprice"@, ColumnType::Float64),
            ("o_orderdate"@, ColumnType::Utf8),
            ("o_orderpriority"@, ColumnType::Utf8),
        ]
    } else if t == "lineitem"@ {
        seq![
            ("l_orderkey"@, ColumnType::Int64),
            ("l_partkey"@, ColumnType::Int64),
            ("l_linenumber"@, ColumnType::Int64),
            ("l_quantity"@, ColumnType::Int64),
            ("l_extendedprice"@, ColumnType::Float64),
            ("l_discount"@, ColumnType::Float64),
            ("l_shipdate"@, ColumnType::Utf8),
            ("l_returnflag"@, ColumnType::Utf8),
        ]
    } else {
        seq![
            ("p_partkey"@, ColumnType::Int64),
            ("p_name"@, ColumnType::Utf8),
            ("p_brand"@, ColumnType::Utf8),
            ("p_size"@, ColumnType::Int64),
            ("p_retailprice"@, ColumnType::Float64),
        ]
    }
}

/// The names of the tables, in registration order.
pub fn table_names() -> (r: Vec<&'static str>)
    ensures
        r@.map_values(|s: &str| s@) == tables(),
{
    let v = vec!["customer", "orders", "lineitem", "part"];
    proof {
        assert(v@.map_values(|s: &str| s@) =~= tables());
    }
    v
}

/// Whether two strings are equal.
pub fn str_eq(a: &str, b: &str) -> (r: bool)
    ensures
        r == (a@ == b@),
{
    let c = compare_str(a, b);
    proof {
        lemma_ord_chars_eq(a@, b@);
    }
    c == 0
}

fn column_list(names: Vec<&'static str>, types: Vec<ColumnType>) -> (r: Vec<(&'static str, ColumnType)>)
    requires
        names.len() == types.len(),
    ensures
        r@.len() == names@.len(),
        forall|i: int| 0 <= i < r@.len() ==> #[trigger] r@[i] == (names@[i], types@[i]),
{
    let mut r: Vec<(&'static str, ColumnType)> = Vec::new();
    let mut i: usize = 0;
    while i < names.len()
        invariant
            i <= names@.len(),
            names@.len() == types@.len(),
            r@.len() == i,
            forall|j: int| 0 <= j < i ==> #[trigger] r@[j] == (names@[j], types@[j]),
        decreases names.len() - i,
    {
        r.push((names[i], types[i]));
        i = i + 1;
    }
    r
}

/// The columns of a schema table, in file order.
pub fn columns_for(table: &str) -> (r: Vec<(&'static str, ColumnType)>)
    requires
        known_table(table@),
    ensures
        r@.map_values(|c: (&str, ColumnType)| (c.0@, c.1)) == table_columns(table@),
{
    let (names, types) = if str_eq(table, "customer") {
        (
            vec!["c_custkey", "c_name", "c_nationkey", "c_mktsegment", "c_acctbal"],
            vec![Int64, Utf8, Int64, Utf8, Float64],
        )
    } else if str_eq(table, "orders") {
        (
            vec!["o_orderkey", "o_custkey", "o_orderstatus", "o_totalprice", "o_orderdate", "o_orderpriority"],
            vec![Int64, Int64, Utf8, Float64, Utf8, Utf8],
        )
    } else if str_eq(table, "lineitem") {
        (
            vec![
                "l_orderkey",
                "l_partkey",
                "l_linenumber",
                "l_quantity",
                "l_extendedprice",
                "l_discount",
                "l_shipdate",
                "l_returnflag",
            ],
            vec![Int64, Int64, Int64, Int64, Float64, Float64, Utf8, Utf8],
        )
    } else {
        (
            vec!["p_partkey", "p_name", "p_brand", "p_size", "p_retailprice"],
            vec![Int64, Utf8, Utf8, Int64, Float64],
        )
    };
    let r = column_list(names, types);
    proof {
        assert(r@.map_values(|c: (&str, ColumnType)| (c.0@, c.1)) =~= table_columns(table@));
    }
    r
}

/// Whether a name is a table of the schema.
pub fn is_known_table(name: &str) -> (r: bool)
    ensures
        r == known_table(name@),
{
    proof {
        reveal_strlit("customer");
        reveal_strlit("orders");
        reveal_strlit("lineitem");
        reveal_strlit("part");
        assert(tables() =~= seq!["customer"@, "orders"@, "lineitem"@, "part"@]);
    }
    let r = str_eq(name, "customer") || str_eq(name, "orders") || str_eq(name, "lineitem") || str_eq(
        name,
        "part",
    );
    proof {
        if known_table(name@) {
            let i = choose|i: int| 0 <= i < tables().len() && tables()[i] == name@;
            assert(i == 0 || i == 1 || i == 2 || i == 3);
        }
        if r {
            assert(tables()[0] == "customer"@);
            assert(tables()[1] == "orders"@);
            assert(tables()[2] == "lineitem"@);
            assert(tables()[3] == "part"@);
        }
    }
    r
}

/// One table as the binder sees it: its name, and its columns in file
/// order.
#[derive(Debug)]
pub struct TableMeta {
    pub name: String,
    pub columns: Vec<(String, ColumnType)>,
}

/// The tables names are resolved against.
#[derive(Debug)]
pub struct Catalog {
    pub tables: Vec<TableMeta>,
}

/// The model of a table: its name and its (column name, type) pairs.
pub open spec fn meta_view(t: TableMeta) -> (Seq<char>, Seq<(Seq<char>, ColumnType)>) {
    (t.name@, t.columns@.map_values(|c: (String, ColumnType)| (c.0@, c.1)))
}

impl View for Catalog {
    type V = Seq<(Seq<char>, Seq<(Seq<char>, ColumnType)>)>;

    open spec fn view(&self) -> Seq<(Seq<char>, Seq<(Seq<char>, ColumnType)>)> {
        self.tables@.map_values(|t: TableMeta| meta_view(t))
    }
}

impl Catalog {
    /// The first table named `name`, if any.
    pub fn table(&self, name: &str) -> (r: Option<&TableMeta>)
        ensures
            match r {
                Some(t) => exists|i: int|
                    0 <= i < self.tables@.len() && self.tables@[i] == *t && t.name@ == name@ && forall|j: int|
                        0 <= j < i ==> #[trigger] self.tables@[j].name@ != name@,
                None => forall|i: int| 0 <= i < self.tables@.len() ==> #[trigger] self.tables@[i].name@ != name@,
            },
    {
        let mut i: usize = 0;
        while i < self.tables.len()
            invariant
                i <= self.tables@.len(),
                forall|j: int| 0 <= j < i ==> #[trigger] self.tables@[j].name@ != name@,
            decreases self.tables.len() - i,
        {
            if str_eq(self.tables[i].name.as_str(), name) {
                return Some(&self.tables[i]);
            }
            i = i + 1;
        }
        None
    }
}

/// The (name, type) pairs of a column list, as owned strings.
fn owned_columns(cols: Vec<(&'static str, ColumnType)>) -> (r: Vec<(String, ColumnType)>)
    ensures
        r@.map_values(|c: (String, ColumnType)| (c.0@, c.1)) == cols@.map_values(
            |c: (&str, ColumnType)| (c.0@, c.1),
        ),
{
    let mut r: Vec<(String, ColumnType)> = Vec::new();
    let mut i: usize = 0;
    while i < cols.len()
        invariant
            i <= cols@.len(),
            r@.len() == i,
            r@.map_values(|c: (String, ColumnType)| (c.0@, c.1)) == cols@.take(i as int).map_values(
                |c: (&str, ColumnType)| (c.0@, c.1),
            ),
        decreases cols.len() - i,
    {
        let (n, t) = cols[i];
        let owned = n.to_owned();
        let ghost before = r@;
        r.push((owned, t));
        proof {
            let f = |c: (String, ColumnType)| (c.0@, c.1);
            let g = |c: (&str, ColumnType)| (c.0@, c.1);
            let want = cols@.take(i + 1).map_values(g);
            assert(before.map_values(f) == cols@.take(i as int).map_values(g));
            assert forall|j: int| 0 <= j < i + 1 implies #[trigger] r@.map_values(f)[j] == want[j] by {
                if j < i {
                    assert(r@[j] == before[j]);
                    assert(before.map_values(f)[j] == cols@.take(i as int).map_values(g)[j]);
                } else {
                    assert(r@[j] == (owned, t));
                    assert(cols@.take(i + 1)[j] == (n, t));
                }
            }
            assert(r@.map_values(f) =~= want);
        }
        i = i + 1;
    }
    proof {
        assert(cols@.take(i as int) =~= cols@);
    }
    r
}

/// The schema's catalog: every table in registration order, with its
/// columns.
pub fn catalog() -> (r: Catalog)
    ensures
        r@ == tables().map_values(|t: Seq<char>| (t, table_columns(t))),
{
    let names = table_names();
    let mut metas: Vec<TableMeta> = Vec::new();
    let mut i: usize = 0;
    while i < names.len()
        invariant
            i <= names@.len(),
            names@.map_values(|s: &str| s@) == tables(),
            metas@.len() == i,
            metas@.map_values(|t: TableMeta| meta_view(t)) == tables().take(i as int).map_values(
                |t: Seq<char>| (t, table_columns(t)),
            ),
        decreases names.len() - i,
    {
        let n = names[i];
        proof {
            assert(names@.map_values(|s: &str| s@)[i as int] == n@);
            assert(known_table(n@)) by {
                assert(tables()[i as int] == n@);
            }
        }
        let columns = owned_columns(columns_for(n));
        let name = n.to_owned();
        let meta = TableMeta { name, columns };
        let ghost before = metas@;
        metas.push(meta);
        proof {
            let f = |t: TableMeta| meta_view(t);
            let g = |t: Seq<char>| (t, table_columns(t));
            let want = tables().take(i + 1).map_values(g);
            assert(before.map_values(f) == tables().take(i as int).map_values(g));
            assert forall|j: int| 0 <= j < i + 1 implies #[trigger] metas@.map_values(f)[j] == want[j] by {
                if j < i {
                    assert(metas@[j] == before[j]);
                    assert(before.map_values(f)[j] == tables().take(i as int).map_values(g)[j]);
                } else {
                    assert(metas@[j] == meta);
                    assert(tables().take(i + 1)[j] == n@);
                }
            }
            assert(metas@.map_values(f) =~= want);
        }
        i = i + 1;
    }
    proof {
        assert(tables().take(i as int) =~= tables());
    }
    Catalog { tables: metas }
}

} // verus!
