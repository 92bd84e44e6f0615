use optimize::catalog::{catalog, columns_for, is_known_table, table_names, ColumnType};
use optimize::ir::RelInfo;
use optimize::stats::{OptContext, Stats, TableStats};

#[test]
fn catalog_lists_every_table_with_its_columns() {
    let cat = catalog();
    let names: Vec<&str> = cat.tables.iter().map(|t| t.name.as_str()).collect();
    assert_eq!(names, table_names());
    assert_eq!(names, vec!["customer", "orders", "lineitem", "part"]);
    let orders = cat.table("orders").expect("orders is a table");
    assert_eq!(orders.columns.len(), 6);
    assert_eq!(orders.columns[1], ("o_custkey".to_string(), ColumnType::Int64));
    assert_eq!(orders.columns[3], ("o_totalprice".to_string(), ColumnType::Float64));
    for t in &cat.tables {
        let expected: Vec<(String, ColumnType)> =
            columns_for(&t.name).into_iter().map(|(n, ty)| (n.to_string(), ty)).collect();
        assert_eq!(t.columns, expected);
    }
}

#[test]
fn catalog_lookup_misses_unknown_names() {
    let cat = catalog();
    assert!(cat.table("nation").is_none());
    assert!(cat.table("Orders").is_none());
    assert!(!is_known_table("nation"));
    assert!(is_known_table("part"));
}

#[test]
fn cost_model_reads_the_context_statistics() {
    let ctx = OptContext {
        stats: Stats {
            tables: vec![(
                "orders".to_string(),
                TableStats { rows: 5000, ndv: vec![("o_custkey".to_string(), 993)] },
            )],
        },
    };
    let rels = vec![RelInfo { table: "orders".to_string(), qualifier: "o".to_string() }];
    let cm = ctx.cost_model(&rels);
    assert_eq!(cm.rels.len(), 1);
    assert_eq!(cm.rels[0].qualifier, "o");
    assert_eq!(cm.stats.rows("orders"), Some(5000));
    assert_eq!(cm.stats.ndv("orders", "o_custkey"), Some(993));
    assert_eq!(cm.stats.ndv("orders", "o_orderkey"), None);
    assert_eq!(cm.stats.rows("customer"), None);
}
