//! The parsed SQL the binder reads: statements, queries, FROM items and
//! expressions, as plain values. Constructs outside the supported subset
//! are kept only as far as the binder needs to name them in an error.

use vstd::prelude::*;

verus! {

/// A binary operator. `Other` carries the text of an operator the binder
/// does not support.
#[derive(Debug)]
pub enum SqlBinOp {
    And,
    Or,
    Eq,
    NotEq,
    Lt,
    LtEq,
    Gt,
    GtEq,
    Plus,
    Minus,
    Multiply,
    Divide,
    Other(String),
}

/// An expression. A numeric literal keeps its text, and the bit pattern of
/// the double the text spells if it spells one. `OtherLiteral` and `Other`
/// carry the text of an unsupported literal or expression.
#[derive(Debug)]
pub enum SqlExpr {
    Ident(String),
    Compound(Vec<String>),
    Number { text: String, float_bits: Option<u64> },
    Str(String),
    Bool(bool),
    OtherLiteral(String),
    Nested(Box<SqlExpr>),
    Not(Box<SqlExpr>),
    Negate(Box<SqlExpr>),
    Binary { left: Box<SqlExpr>, op: SqlBinOp, right: Box<SqlExpr> },
    Other(String),
}

/// A table alias, and whether it lists column names.
#[derive(Debug)]
pub struct TableAlias {
    pub name: String,
    pub has_columns: bool,
}

/// A FROM item. A table's `name` is present when it is a single plain
/// identifier; `has_args` marks a table-valued function call.
#[derive(Debug)]
pub enum TableRef {
    Table { name: Option<String>, alias: Option<TableAlias>, has_args: bool },
    Derived,
    Other,
}

/// The condition of a join.
#[derive(Debug)]
pub enum JoinCondition {
    On(SqlExpr),
    Absent,
    /// `USING` or `NATURAL`.
    Other,
}

/// The kind of a join: inner (with its condition), a plain cross join, or
/// another kind.
#[derive(Debug)]
pub enum JoinKind {
    Inner(JoinCondition),
    Cross,
    Other,
}

#[derive(Debug)]
pub struct JoinItem {
    pub relation: TableRef,
    pub kind: JoinKind,
}

/// One comma-separated FROM entry: a relation and the joins chained on it.
#[derive(Debug)]
pub struct FromItem {
    pub relation: TableRef,
    pub joins: Vec<JoinItem>,
}

/// One ORDER BY key: `asc` as written, and whether NULLS FIRST/LAST or
/// WITH FILL was given.
#[derive(Debug)]
pub struct OrderItem {
    pub expr: SqlExpr,
    pub asc: Option<bool>,
    pub nulls_given: bool,
    pub with_fill: bool,
}

#[derive(Debug)]
pub enum OrderBy {
    Exprs(Vec<OrderItem>),
    All,
}

/// A LIMIT clause: a plain limit (possibly without a value), or one with an
/// offset or a LIMIT BY.
#[derive(Debug)]
pub enum LimitClause {
    Limit(Option<SqlExpr>),
    Other,
}

#[derive(Debug)]
pub enum SelectItem {
    Expr(SqlExpr),
    Wildcard,
    QualifiedWildcard,
    Aliased,
}

/// A SELECT: the flags of the clauses the binder refuses, and the clauses
/// it reads.
#[derive(Debug)]
pub struct Select {
    pub distinct: bool,
    pub top: bool,
    pub having: bool,
    pub group_by: bool,
    pub from: Vec<FromItem>,
    pub selection: Option<SqlExpr>,
    pub projection: Vec<SelectItem>,
}

/// A query body: a SELECT, or a set operation or VALUES.
#[derive(Debug)]
pub enum QueryBody {
    Select(Select),
    Other,
}

#[derive(Debug)]
pub struct SqlQuery {
    pub with: bool,
    pub fetch_or_locks: bool,
    pub body: QueryBody,
    pub order_by: Option<OrderBy>,
    pub limit: Option<LimitClause>,
}

/// A statement: a query, or anything else.
#[derive(Debug)]
pub enum Statement {
    Query(SqlQuery),
    Other,
}

} // verus!
