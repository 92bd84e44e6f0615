use optimize::bind::{bind, bind_expr, split_on};
use optimize::error::OptError;
use optimize::ir::{CmpOp, ColRef, Expr, Plan};
use optimize::sql::{
    FromItem, JoinCondition, JoinItem, JoinKind, LimitClause, OrderBy, OrderItem, QueryBody, Select,
    SelectItem, SqlBinOp, SqlExpr, SqlQuery, Statement, TableAlias, TableRef,
};
use optimize::text::parse_i64;

fn ident(s: &str) -> SqlExpr {
    SqlExpr::Ident(s.to_string())
}

fn qual(q: &str, c: &str) -> SqlExpr {
    SqlExpr::Compound(vec![q.to_string(), c.to_string()])
}

fn num(s: &str) -> SqlExpr {
    SqlExpr::Number { text: s.to_string(), float_bits: s.parse::<f64>().ok().map(f64::to_bits) }
}

fn bin(l: SqlExpr, op: SqlBinOp, r: SqlExpr) -> SqlExpr {
    SqlExpr::Binary { left: Box::new(l), op, right: Box::new(r) }
}

fn table(name: &str) -> TableRef {
    TableRef::Table { name: Some(name.to_string()), alias: None, has_args: false }
}

fn aliased(name: &str, alias: &str) -> TableRef {
    TableRef::Table {
        name: Some(name.to_string()),
        alias: Some(TableAlias { name: alias.to_string(), has_columns: false }),
        has_args: false,
    }
}

fn select(from: Vec<FromItem>, selection: Option<SqlExpr>, projection: Vec<SelectItem>) -> Select {
    Select { distinct: false, top: false, having: false, group_by: false, from, selection, projection }
}

fn query(sel: Select, order_by: Option<OrderBy>, limit: Option<LimitClause>) -> Statement {
    Statement::Query(SqlQuery { with: false, fetch_or_locks: false, body: QueryBody::Select(sel), order_by, limit })
}

fn item(t: TableRef) -> FromItem {
    FromItem { relation: t, joins: vec![] }
}

fn unsupported_text(r: Result<optimize::ir::Ir, OptError>) -> String {
    match r {
        Err(OptError::Unsupported(u)) => u.0,
        other => panic!("expected an unsupported-feature error, got {other:?}"),
    }
}

fn other_text(r: Result<optimize::ir::Ir, OptError>) -> String {
    match r {
        Err(OptError::Other(s)) => s,
        other => panic!("expected an error, got {other:?}"),
    }
}

#[test]
fn parse_i64_reads_like_std() {
    for t in ["0", "42", "+7", "-13", "9223372036854775807", "-9223372036854775808", "", "-", "+", "1a", " 1", "9223372036854775808", "007"] {
        assert_eq!(parse_i64(t), t.parse::<i64>().ok(), "text {t:?}");
    }
}

#[test]
fn comma_join_binds_to_cross_join_with_where_on_top() {
    let sel = select(
        vec![item(table("orders")), item(table("lineitem"))],
        Some(bin(
            bin(ident("o_orderkey"), SqlBinOp::Eq, ident("l_orderkey")),
            SqlBinOp::And,
            bin(ident("l_quantity"), SqlBinOp::Gt, num("30")),
        )),
        vec![SelectItem::Expr(ident("o_orderkey")), SelectItem::Expr(ident("l_partkey")), SelectItem::Expr(ident("l_quantity"))],
    );
    let ir = bind(query(sel, None, None)).expect("binds");
    let expected = "\
Project [#0.0, #1.1, #1.3]
  Filter ((#0.0 = #1.0) AND (#1.3 > 30))
    Join on=[]
      Scan #0
      Scan #1
";
    assert_eq!(ir.to_string(), expected);
    assert_eq!(ir.rels.len(), 2);
    assert_eq!(ir.rels[0].table, "orders");
    assert_eq!(ir.rels[1].qualifier, "lineitem");
}

#[test]
fn inner_join_on_splits_keys_and_residual() {
    let on = bin(
        bin(qual("o", "o_orderkey"), SqlBinOp::Eq, qual("l", "l_orderkey")),
        SqlBinOp::And,
        bin(qual("l", "l_quantity"), SqlBinOp::Lt, num("5")),
    );
    let from = vec![FromItem {
        relation: aliased("orders", "o"),
        joins: vec![JoinItem { relation: aliased("lineitem", "l"), kind: JoinKind::Inner(JoinCondition::On(on)) }],
    }];
    let sel = select(from, None, vec![SelectItem::Expr(qual("o", "o_custkey"))]);
    let ir = bind(query(sel, None, None)).expect("binds");
    assert_eq!(
        ir.to_string(),
        "Project [#0.1]\n  Join on=[#0.0 = #1.0] filter=(#1.3 < 5)\n    Scan #0\n    Scan #1\n"
    );
    assert_eq!(ir.rels[1].qualifier, "l");
}

#[test]
fn order_by_and_limit_sit_below_the_projection() {
    let sel = select(vec![item(table("part"))], None, vec![SelectItem::Expr(ident("p_name"))]);
    let ob = OrderBy::Exprs(vec![OrderItem { expr: ident("p_size"), asc: Some(false), nulls_given: false, with_fill: false }]);
    let ir = bind(query(sel, Some(ob), Some(LimitClause::Limit(Some(num("10")))))).expect("binds");
    assert_eq!(ir.to_string(), "Project [#0.1]\n  Limit 10\n    Sort [#0.3 DESC]\n      Scan #0\n");
}

#[test]
fn wildcard_expands_every_column_of_every_relation() {
    let sel = select(vec![item(table("customer")), item(table("part"))], None, vec![SelectItem::Wildcard]);
    let ir = bind(query(sel, None, None)).expect("binds");
    match &ir.root {
        Plan::Project { exprs, .. } => {
            assert_eq!(exprs.len(), 10);
            assert_eq!(exprs[5], Expr::Col(ColRef { rel: 1, col: 0 }));
        }
        other => panic!("expected a projection, got {other:?}"),
    }
}

#[test]
fn negative_literals_fold_into_the_constant() {
    let sel = select(
        vec![item(table("customer"))],
        Some(bin(ident("c_acctbal"), SqlBinOp::Lt, SqlExpr::Negate(Box::new(num("900"))))),
        vec![SelectItem::Expr(ident("c_name"))],
    );
    let ir = bind(query(sel, None, None)).expect("binds");
    assert_eq!(ir.to_string(), "Project [#0.1]\n  Filter (#0.4 < -900)\n    Scan #0\n");

    let sel = select(
        vec![item(table("customer"))],
        Some(bin(ident("c_acctbal"), SqlBinOp::Lt, SqlExpr::Negate(Box::new(num("900.5"))))),
        vec![SelectItem::Expr(ident("c_name"))],
    );
    let ir = bind(query(sel, None, None)).expect("binds");
    match &ir.root {
        Plan::Project { input, .. } => match &**input {
            Plan::Filter { predicate: Expr::Cmp { r, .. }, .. } => {
                assert_eq!(**r, Expr::Float((-900.5f64).to_bits()));
            }
            other => panic!("expected a filter, got {other:?}"),
        },
        other => panic!("expected a projection, got {other:?}"),
    }
}

#[test]
fn unsupported_constructs_are_clean_errors() {
    let mut sel = select(vec![item(table("customer"))], None, vec![SelectItem::Expr(ident("c_name"))]);
    sel.group_by = true;
    assert_eq!(unsupported_text(bind(query(sel, None, None))), "GROUP BY");

    let sel = select(vec![FromItem { relation: TableRef::Derived, joins: vec![] }], None, vec![SelectItem::Wildcard]);
    assert_eq!(unsupported_text(bind(query(sel, None, None))), "subquery in FROM");

    let from = vec![FromItem {
        relation: table("customer"),
        joins: vec![JoinItem { relation: table("orders"), kind: JoinKind::Other }],
    }];
    let sel = select(from, None, vec![SelectItem::Wildcard]);
    assert_eq!(unsupported_text(bind(query(sel, None, None))), "only INNER JOIN is supported");

    assert_eq!(unsupported_text(bind(Statement::Other)), "only SELECT queries are supported");

    let sel = select(vec![item(table("customer"))], None, vec![SelectItem::Expr(SqlExpr::Other("EXISTS (...)".to_string()))]);
    assert_eq!(unsupported_text(bind(query(sel, None, None))), "expression: EXISTS (...)");
}

#[test]
fn name_resolution_errors() {
    let sel = select(vec![item(table("nation"))], None, vec![SelectItem::Wildcard]);
    assert_eq!(other_text(bind(query(sel, None, None))), "unknown table 'nation'");

    let sel = select(vec![item(table("customer")), item(table("customer"))], None, vec![SelectItem::Wildcard]);
    assert_eq!(
        other_text(bind(query(sel, None, None))),
        "duplicate table name/alias 'customer' in FROM (add an alias)"
    );

    let sel = select(
        vec![item(aliased("customer", "a")), item(aliased("customer", "b"))],
        None,
        vec![SelectItem::Expr(ident("c_name"))],
    );
    assert_eq!(other_text(bind(query(sel, None, None))), "ambiguous column 'c_name' (qualify it)");

    let sel = select(vec![item(table("customer"))], None, vec![SelectItem::Expr(qual("x", "c_name"))]);
    assert_eq!(other_text(bind(query(sel, None, None))), "unknown table or alias 'x'");

    let sel = select(vec![item(table("customer"))], None, vec![SelectItem::Expr(ident("o_orderkey"))]);
    assert_eq!(other_text(bind(query(sel, None, None))), "unknown column 'o_orderkey'");
}

#[test]
fn split_on_orients_keys_and_refuses_outside_references() {
    let eq = |a: ColRef, b: ColRef| Expr::Cmp { op: CmpOp::Eq, l: Box::new(Expr::Col(a)), r: Box::new(Expr::Col(b)) };
    let c = |rel, col| ColRef { rel, col };
    let (on, filter) = split_on(eq(c(1, 0), c(0, 2)), &vec![0], 1).expect("splits");
    assert_eq!(on, vec![(c(0, 2), c(1, 0))]);
    assert!(filter.is_none());

    let (on, filter) = split_on(eq(c(1, 0), c(1, 2)), &vec![0], 1).expect("splits");
    assert!(on.is_empty());
    assert_eq!(filter, Some(eq(c(1, 0), c(1, 2))));

    assert!(matches!(split_on(eq(c(2, 0), c(1, 2)), &vec![0], 1), Err(OptError::Unsupported(_))));
}

#[test]
fn a_literal_spelling_the_smallest_integer_binds_unless_negated() {
    let rels: Vec<optimize::ir::RelInfo> = Vec::new();
    let min = num("-9223372036854775808");
    assert_eq!(bind_expr(&min, &rels).unwrap(), Expr::Int(i64::MIN));
    let nested = SqlExpr::Nested(Box::new(num("-9223372036854775808")));
    assert_eq!(bind_expr(&nested, &rels).unwrap(), Expr::Int(i64::MIN));
    let negated_max = SqlExpr::Negate(Box::new(num("9223372036854775807")));
    assert_eq!(bind_expr(&negated_max, &rels).unwrap(), Expr::Int(-i64::MAX));
}
