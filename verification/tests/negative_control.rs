//! SQL outside the supported subset must be refused with a clean
//! unsupported-feature error. Each statement is built as the parser hands
//! it over for the SQL quoted above the test.

use optimize::bind::bind;
use optimize::error::{is_unsupported, OptError};
use optimize::ir::Ir;
use optimize::sql::{
    FromItem, JoinItem, JoinKind, QueryBody, Select, SelectItem, SqlExpr, SqlQuery, Statement,
    TableRef,
};

fn table(name: &str) -> TableRef {
    TableRef::Table { name: Some(name.to_string()), alias: None, has_args: false }
}

fn query(sel: Select) -> Statement {
    Statement::Query(SqlQuery {
        with: false,
        fetch_or_locks: false,
        body: QueryBody::Select(sel),
        order_by: None,
        limit: None,
    })
}

fn expect_unsupported(r: Result<Ir, OptError>) -> String {
    match r {
        Err(e) if is_unsupported(&e) => e.message(),
        Err(e) => panic!("expected Unsupported, got a different error: {}", e.message()),
        Ok(ir) => panic!("expected Unsupported, got a plan: {}", ir.to_string()),
    }
}

// SELECT c_mktsegment, COUNT(*) FROM customer GROUP BY c_mktsegment
#[test]
fn p0_group_by_is_unsupported() {
    let stmt = query(Select {
        distinct: false,
        top: false,
        having: false,
        group_by: true,
        from: vec![FromItem { relation: table("customer"), joins: vec![] }],
        selection: None,
        projection: vec![
            SelectItem::Expr(SqlExpr::Ident("c_mktsegment".to_string())),
            SelectItem::Expr(SqlExpr::Other("COUNT(*)".to_string())),
        ],
    });
    assert_eq!(expect_unsupported(bind(stmt)), "unsupported SQL feature: GROUP BY");
}

// SELECT c_name FROM customer WHERE c_custkey IN (SELECT o_custkey FROM orders)
#[test]
fn p0_subquery_is_unsupported() {
    let stmt = query(Select {
        distinct: false,
        top: false,
        having: false,
        group_by: false,
        from: vec![FromItem { relation: table("customer"), joins: vec![] }],
        selection: Some(SqlExpr::Other(
            "c_custkey IN (SELECT o_custkey FROM orders)".to_string(),
        )),
        projection: vec![SelectItem::Expr(SqlExpr::Ident("c_name".to_string()))],
    });
    assert_eq!(
        expect_unsupported(bind(stmt)),
        "unsupported SQL feature: expression: c_custkey IN (SELECT o_custkey FROM orders)"
    );
}

// SELECT c_name, o_orderkey FROM customer LEFT JOIN orders ON c_custkey = o_custkey
#[test]
fn p0_outer_join_is_unsupported() {
    let stmt = query(Select {
        distinct: false,
        top: false,
        having: false,
        group_by: false,
        from: vec![FromItem {
            relation: table("customer"),
            joins: vec![JoinItem { relation: table("orders"), kind: JoinKind::Other }],
        }],
        selection: None,
        projection: vec![
            SelectItem::Expr(SqlExpr::Ident("c_name".to_string())),
            SelectItem::Expr(SqlExpr::Ident("o_orderkey".to_string())),
        ],
    });
    assert_eq!(
        expect_unsupported(bind(stmt)),
        "unsupported SQL feature: only INNER JOIN is supported"
    );
}
