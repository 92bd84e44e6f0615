//! The binder: parsed SQL to the IR. Names resolve to positional column
//! references against the schema. Comma joins bind to a cross-join shape
//! with WHERE whole on top; `INNER JOIN ... ON` binds to a join with key
//! pairs and a residual filter. The tree, bottom up: scans and joins,
//! filter, sort, limit, and the projection at the very top. Everything
//! outside the supported subset is an `Unsupported` error.

use vstd::prelude::*;
use crate::ir::{ArithOp, CmpOp, ColRef, Expr, Ir, Plan, RelInfo, SExpr, SPlan, view_exprs, lemma_view_exprs};
use crate::error::{OptError, unsupported};
use crate::catalog::{ColumnType, columns_for, is_known_table, known_table, str_eq, table_columns};
use crate::sql::{
    FromItem, JoinCondition, JoinItem, JoinKind, LimitClause, OrderBy, OrderItem, QueryBody, Select,
    SelectItem, SqlBinOp, SqlExpr, SqlQuery, Statement, TableRef,
};
use crate::text::{parse_i64, parse_i64_spec};
use crate::p1::scans_below;

verus! {

/// The model of a binding error: unsupported SQL, or another error, with
/// its message.
pub enum BindError {
    Unsupported(Seq<char>),
    Other(Seq<char>),
}

pub open spec fn err_model(e: OptError) -> BindError {
    match e {
        OptError::Unsupported(u) => BindError::Unsupported(u.0@),
        OptError::Other(s) => BindError::Other(s@),
        OptError::Todo(t) => BindError::Other(t.0@),
    }
}

/// A relation of the query as the binder sees it: (table, qualifier).
pub open spec fn rels_model(rels: Seq<RelInfo>) -> Seq<(Seq<char>, Seq<char>)> {
    rels.map_values(|r: RelInfo| (r.table@, r.qualifier@))
}

/// `a`, `b` and `c` one after another.
fn text3(a: &str, b: &str, c: &str) -> (s: String)
    ensures
        s@ == a@ + b@ + c@,
{
    let mut s = a.to_owned();
    s.append(b);
    s.append(c);
    s
}

/// `a` to `e` one after another.
fn text5(a: &str, b: &str, c: &str, d: &str, e: &str) -> (s: String)
    ensures
        s@ == a@ + b@ + c@ + d@ + e@,
{
    let mut s = text3(a, b, c);
    s.append(d);
    s.append(e);
    s
}

/// An unsupported-feature error with a literal message.
fn refuse(what: &str) -> (e: OptError)
    ensures
        err_model(e) == BindError::Unsupported(what@),
{
    unsupported(what.to_owned())
}

/// The first column of `cols` from `i` on named `name`.
pub open spec fn first_col(cols: Seq<(Seq<char>, ColumnType)>, name: Seq<char>, i: nat) -> Option<usize>
    decreases cols.len() - i,
{
    if i >= cols.len() {
        None
    } else if cols[i as int].0 == name {
        Some(i as usize)
    } else {
        first_col(cols, name, i + 1)
    }
}

/// The position of column `name` in a schema table.
pub open spec fn col_in(table: Seq<char>, name: Seq<char>) -> Option<usize> {
    if known_table(table) {
        first_col(table_columns(table), name, 0)
    } else {
        None
    }
}

/// The first relation from `i` on known by qualifier `q`.
pub open spec fn first_rel(rels: Seq<(Seq<char>, Seq<char>)>, q: Seq<char>, i: nat) -> Option<usize>
    decreases rels.len() - i,
{
    if i >= rels.len() {
        None
    } else if rels[i as int].1 == q {
        Some(i as usize)
    } else {
        first_rel(rels, q, i + 1)
    }
}

/// The column `name` in each relation that has one, in order.
pub open spec fn hits(rels: Seq<(Seq<char>, Seq<char>)>, name: Seq<char>) -> Seq<ColRef>
    decreases rels.len(),
{
    if rels.len() == 0 {
        Seq::empty()
    } else {
        hits(rels.drop_last(), name) + match col_in(rels.last().0, name) {
            Some(c) => seq![ColRef { rel: (rels.len() - 1) as usize, col: c }],
            None => Seq::empty(),
        }
    }
}

/// Name resolution. Qualified: the relation with that qualifier, and the
/// column in its table. Unqualified: the one relation whose table has the
/// column; more than one is ambiguous.
pub open spec fn resolve_spec(q: Option<Seq<char>>, name: Seq<char>, rels: Seq<(Seq<char>, Seq<char>)>) -> Result<
    ColRef,
    BindError,
> {
    match q {
        Some(q) => match first_rel(rels, q, 0) {
            None => Err(BindError::Other("unknown table or alias '"@ + q + "'"@)),
            Some(rel) => match col_in(rels[rel as int].0, name) {
                Some(col) => Ok(ColRef { rel, col }),
                None => Err(BindError::Other("no column '"@ + name + "' in '"@ + q + "'"@)),
            },
        },
        None => {
            let h = hits(rels, name);
            if h.len() == 1 {
                Ok(h[0])
            } else if h.len() >= 2 {
                Err(BindError::Other("ambiguous column '"@ + name + "' (qualify it)"@))
            } else {
                Err(BindError::Other("unknown column '"@ + name + "'"@))
            }
        },
    }
}

/// The position of a column in a schema table (see `col_in`).
fn col_in_exec(table: &str, name: &str) -> (r: Option<usize>)
    ensures
        r == col_in(table@, name@),
{
    if !is_known_table(table) {
        return None;
    }
    let cols = columns_for(table);
    let ghost cv = table_columns(table@);
    proof {
        assert(cols@.map_values(|c: (&str, ColumnType)| (c.0@, c.1)).len() == cols@.len());
    }
    let mut i: usize = 0;
    while i < cols.len()
        invariant
            i <= cols@.len(),
            cv == table_columns(table@),
            cv == cols@.map_values(|c: (&str, ColumnType)| (c.0@, c.1)),
            known_table(table@),
            first_col(cv, name@, 0) == first_col(cv, name@, i as nat),
        decreases cols.len() - i,
    {
        proof {
            assert(cv[i as int].0 == cols@[i as int].0@);
        }
        if str_eq(cols[i].0, name) {
            return Some(i);
        }
        i = i + 1;
    }
    None
}

/// Resolves a column name (see `resolve_spec`).
fn resolve(qualifier: Option<&str>, name: &str, rels: &Vec<RelInfo>) -> (r: Result<ColRef, OptError>)
    ensures
        match r {
            Ok(c) => resolve_spec(
                match qualifier {
                    Some(q) => Some(q@),
                    None => None,
                },
                name@,
                rels_model(rels@),
            ) == Ok::<ColRef, BindError>(c),
            Err(e) => resolve_spec(
                match qualifier {
                    Some(q) => Some(q@),
                    None => None,
                },
                name@,
                rels_model(rels@),
            ) == Err::<ColRef, BindError>(err_model(e)),
        },
{
    let ghost rm = rels_model(rels@);
    match qualifier {
        Some(q) => {
            let mut i: usize = 0;
            while i < rels.len() && !str_eq(rels[i].qualifier.as_str(), q)
                invariant
                    i <= rels@.len(),
                    rm == rels_model(rels@),
                    first_rel(rm, q@, 0) == first_rel(rm, q@, i as nat),
                decreases rels.len() - i,
            {
                i = i + 1;
            }
            if i >= rels.len() {
                proof {
                    reveal_strlit("unknown table or alias '");
                    reveal_strlit("'");
                }
                return Err(OptError::Other(text3("unknown table or alias '", q, "'")));
            }
            match col_in_exec(rels[i].table.as_str(), name) {
                Some(col) => Ok(ColRef { rel: i, col }),
                None => {
                    proof {
                        reveal_strlit("no column '");
                        reveal_strlit("' in '");
                        reveal_strlit("'");
                    }
                    Err(OptError::Other(text5("no column '", name, "' in '", q, "'")))
                },
            }
        },
        None => {
            let mut found: Vec<ColRef> = Vec::new();
            let mut i: usize = 0;
            while i < rels.len()
                invariant
                    i <= rels@.len(),
                    rm == rels_model(rels@),
                    found@ == hits(rm.take(i as int), name@),
                decreases rels.len() - i,
            {
                proof {
                    assert(rm.take(i + 1).drop_last() =~= rm.take(i as int));
                    assert(rm.take(i + 1).last() == rm[i as int]);
                }
                match col_in_exec(rels[i].table.as_str(), name) {
                    Some(c) => {
                        found.push(ColRef { rel: i, col: c });
                    },
                    None => {},
                }
                i = i + 1;
                proof {
                    assert(found@ =~= hits(rm.take(i as int), name@));
                }
            }
            proof {
                assert(rm.take(i as int) =~= rm);
            }
            if found.len() == 1 {
                Ok(found[0])
            } else if found.len() >= 2 {
                proof {
                    reveal_strlit("ambiguous column '");
                    reveal_strlit("' (qualify it)");
                }
                Err(OptError::Other(text3("ambiguous column '", name, "' (qualify it)")))
            } else {
                proof {
                    reveal_strlit("unknown column '");
                    reveal_strlit("'");
                }
                Err(OptError::Other(text3("unknown column '", name, "'")))
            }
        },
    }
}

/// A double's bit pattern with negative zero read as zero, so that the
/// two spellings of zero bind alike.
pub open spec fn fold_zero(b: u64) -> u64 {
    if b == 0 || b == 0x8000_0000_0000_0000u64 {
        0
    } else {
        b
    }
}

/// The bit pattern of the negated double (its sign bit flipped), zero
/// folded.
pub open spec fn negated_bits(b: u64) -> u64 {
    fold_zero(b ^ 0x8000_0000_0000_0000u64)
}

/// A numeric literal: an `i64` if the text parses as one, else the double
/// it spells.
pub open spec fn bind_number(text: Seq<char>, float_bits: Option<u64>) -> Result<SExpr, BindError> {
    match parse_i64_spec(text) {
        Some(n) => Ok(SExpr::Int(n)),
        None => match float_bits {
            Some(b) => Ok(SExpr::Float(fold_zero(b))),
            None => Err(BindError::Unsupported("numeric literal "@ + text)),
        },
    }
}

/// The expression is a numeric literal spelling the smallest `i64`,
/// possibly in parentheses: what binds to that integer.
pub open spec fn spells_min(e: SqlExpr) -> bool
    decreases e,
{
    match e {
        SqlExpr::Number { text, .. } => parse_i64_spec(text@) == Some(i64::MIN),
        SqlExpr::Nested(x) => spells_min(*x),
        _ => false,
    }
}

/// No unary minus of the expression applies to a literal spelling the
/// smallest `i64` (whose negation does not fit).
pub open spec fn literals_fit(e: SqlExpr) -> bool
    decreases e,
{
    match e {
        SqlExpr::Nested(x) => literals_fit(*x),
        SqlExpr::Not(x) => literals_fit(*x),
        SqlExpr::Negate(x) => !spells_min(*x) && literals_fit(*x),
        SqlExpr::Binary { left, right, .. } => literals_fit(*left) && literals_fit(*right),
        _ => true,
    }
}

/// A binary operator applied to two bound operands. AND and OR chains
/// flatten to the left as they are built, keeping textual order.
pub open spec fn combine(op: SqlBinOp, l: SExpr, r: SExpr) -> Result<SExpr, BindError> {
    match op {
        SqlBinOp::And => Ok(
            match l {
                SExpr::And(v) => SExpr::And(v.push(r)),
                _ => SExpr::And(seq![l, r]),
            },
        ),
        SqlBinOp::Or => Ok(
            match l {
                SExpr::Or(v) => SExpr::Or(v.push(r)),
                _ => SExpr::Or(seq![l, r]),
            },
        ),
        SqlBinOp::Eq => Ok(SExpr::Cmp { op: CmpOp::Eq, l: Box::new(l), r: Box::new(r) }),
        SqlBinOp::NotEq => Ok(SExpr::Cmp { op: CmpOp::Ne, l: Box::new(l), r: Box::new(r) }),
        SqlBinOp::Lt => Ok(SExpr::Cmp { op: CmpOp::Lt, l: Box::new(l), r: Box::new(r) }),
        SqlBinOp::LtEq => Ok(SExpr::Cmp { op: CmpOp::Le, l: Box::new(l), r: Box::new(r) }),
        SqlBinOp::Gt => Ok(SExpr::Cmp { op: CmpOp::Gt, l: Box::new(l), r: Box::new(r) }),
        SqlBinOp::GtEq => Ok(SExpr::Cmp { op: CmpOp::Ge, l: Box::new(l), r: Box::new(r) }),
        SqlBinOp::Plus => Ok(SExpr::Arith { op: ArithOp::Add, l: Box::new(l), r: Box::new(r) }),
        SqlBinOp::Minus => Ok(SExpr::Arith { op: ArithOp::Sub, l: Box::new(l), r: Box::new(r) }),
        SqlBinOp::Multiply => Ok(SExpr::Arith { op: ArithOp::Mul, l: Box::new(l), r: Box::new(r) }),
        SqlBinOp::Divide => Ok(SExpr::Arith { op: ArithOp::Div, l: Box::new(l), r: Box::new(r) }),
        SqlBinOp::Other(t) => Err(BindError::Unsupported("operator "@ + t@)),
    }
}

/// Binding an expression: column names resolve (see `resolve_spec`),
/// literals become constants, a minus folds into the literal below it,
/// and operators apply once both operands are bound (left first).
pub open spec fn bind_expr_spec(e: SqlExpr, rels: Seq<(Seq<char>, Seq<char>)>) -> Result<SExpr, BindError>
    decreases e,
{
    match e {
        SqlExpr::Ident(id) => match resolve_spec(None, id@, rels) {
            Ok(c) => Ok(SExpr::Col(c)),
            Err(err) => Err(err),
        },
        SqlExpr::Compound(parts) => if parts.len() == 2 {
            match resolve_spec(Some(parts[0]@), parts[1]@, rels) {
                Ok(c) => Ok(SExpr::Col(c)),
                Err(err) => Err(err),
            }
        } else {
            Err(BindError::Unsupported("3+-part column name"@))
        },
        SqlExpr::Number { text, float_bits } => bind_number(text@, float_bits),
        SqlExpr::Str(s) => Ok(SExpr::Str(s@)),
        SqlExpr::Bool(b) => Ok(SExpr::Bool(b)),
        SqlExpr::OtherLiteral(t) => Err(BindError::Unsupported("literal "@ + t@)),
        SqlExpr::Nested(x) => bind_expr_spec(*x, rels),
        SqlExpr::Not(x) => match bind_expr_spec(*x, rels) {
            Ok(v) => Ok(SExpr::Not(Box::new(v))),
            Err(err) => Err(err),
        },
        SqlExpr::Negate(x) => match bind_expr_spec(*x, rels) {
            Ok(SExpr::Int(n)) => Ok(SExpr::Int((-n) as i64)),
            Ok(SExpr::Float(b)) => Ok(SExpr::Float(negated_bits(b))),
            Ok(_) => Err(BindError::Unsupported("unary minus on a non-literal"@)),
            Err(err) => Err(err),
        },
        SqlExpr::Binary { left, op, right } => match bind_expr_spec(*left, rels) {
            Err(err) => Err(err),
            Ok(l) => match bind_expr_spec(*right, rels) {
                Err(err) => Err(err),
                Ok(r) => combine(op, l, r),
            },
        },
        SqlExpr::Other(t) => Err(BindError::Unsupported("expression: "@ + t@)),
    }
}

/// Under `literals_fit`, an expression that does not itself spell the
/// smallest `i64` never binds to it.
proof fn lemma_bound_int_fits(e: SqlExpr, rels: Seq<(Seq<char>, Seq<char>)>)
    requires
        literals_fit(e),
        !spells_min(e),
    ensures
        bind_expr_spec(e, rels) matches Ok(SExpr::Int(n)) ==> n != i64::MIN,
    decreases e,
{
    match e {
        SqlExpr::Nested(x) => lemma_bound_int_fits(*x, rels),
        SqlExpr::Negate(x) => lemma_bound_int_fits(*x, rels),
        _ => {},
    }
}

/// Binds a numeric literal (see `bind_number`).
fn bind_number_exec(text: &String, float_bits: Option<u64>) -> (r: Result<Expr, OptError>)
    ensures
        match r {
            Ok(x) => bind_number(text@, float_bits) == Ok::<SExpr, BindError>(x@),
            Err(e) => bind_number(text@, float_bits) == Err::<SExpr, BindError>(err_model(e)),
        },
{
    match parse_i64(text.as_str()) {
        Some(n) => Ok(Expr::Int(n)),
        None => match float_bits {
            Some(b) => {
                let f: u64 = if b == 0 || b == 0x8000_0000_0000_0000u64 {
                    0
                } else {
                    b
                };
                Ok(Expr::Float(f))
            },
            None => {
                proof {
                    reveal_strlit("numeric literal ");
                    reveal_strlit("");
                }
                Err(unsupported(text3("numeric literal ", text.as_str(), "")))
            },
        },
    }
}

/// Binds an expression against the relations (see `bind_expr_spec`).
pub fn bind_expr(e: &SqlExpr, rels: &Vec<RelInfo>) -> (r: Result<Expr, OptError>)
    requires
        literals_fit(*e),
    ensures
        match r {
            Ok(x) => bind_expr_spec(*e, rels_model(rels@)) == Ok::<SExpr, BindError>(x@),
            Err(err) => bind_expr_spec(*e, rels_model(rels@)) == Err::<SExpr, BindError>(err_model(err)),
        },
    decreases e,
{
    let ghost rm = rels_model(rels@);
    proof {
        reveal_with_fuel(crate::ir::view_expr, 2);
    }
    match e {
        SqlExpr::Ident(id) => match resolve(None, id.as_str(), rels) {
            Ok(c) => Ok(Expr::Col(c)),
            Err(err) => Err(err),
        },
        SqlExpr::Compound(parts) => {
            if parts.len() == 2 {
                match resolve(Some(parts[0].as_str()), parts[1].as_str(), rels) {
                    Ok(c) => Ok(Expr::Col(c)),
                    Err(err) => Err(err),
                }
            } else {
                proof {
                    reveal_strlit("3+-part column name");
                }
                Err(refuse("3+-part column name"))
            }
        },
        SqlExpr::Number { text, float_bits } => bind_number_exec(text, *float_bits),
        SqlExpr::Str(s) => Ok(Expr::Str(s.clone())),
        SqlExpr::Bool(b) => Ok(Expr::Bool(*b)),
        SqlExpr::OtherLiteral(t) => {
            proof {
                reveal_strlit("literal ");
                reveal_strlit("");
            }
            Err(unsupported(text3("literal ", t.as_str(), "")))
        },
        SqlExpr::Nested(x) => bind_expr(x, rels),
        SqlExpr::Not(x) => match bind_expr(x, rels) {
            Ok(v) => Ok(Expr::Not(Box::new(v))),
            Err(err) => Err(err),
        },
        SqlExpr::Negate(x) => {
            proof {
                lemma_bound_int_fits(**x, rm);
            }
            match bind_expr(x, rels) {
                Ok(Expr::Int(n)) => Ok(Expr::Int(-n)),
                Ok(Expr::Float(b)) => {
                    let nb = b ^ 0x8000_0000_0000_0000u64;
                    let f: u64 = if nb == 0 || nb == 0x8000_0000_0000_0000u64 {
                        0
                    } else {
                        nb
                    };
                    Ok(Expr::Float(f))
                },
                Ok(_) => {
                    proof {
                        reveal_strlit("unary minus on a non-literal");
                    }
                    Err(refuse("unary minus on a non-literal"))
                },
                Err(err) => Err(err),
            }
        },
        SqlExpr::Binary { left, op, right } => {
            let l = match bind_expr(left, rels) {
                Ok(v) => v,
                Err(err) => {
                    return Err(err);
                },
            };
            let r = match bind_expr(right, rels) {
                Ok(v) => v,
                Err(err) => {
                    return Err(err);
                },
            };
            combine_exec(op, l, r)
        },
        SqlExpr::Other(t) => {
            proof {
                reveal_strlit("expression: ");
                reveal_strlit("");
            }
            Err(unsupported(text3("expression: ", t.as_str(), "")))
        },
    }
}

/// Applies a binary operator to bound operands (see `combine`).
fn combine_exec(op: &SqlBinOp, l: Expr, r: Expr) -> (res: Result<Expr, OptError>)
    ensures
        match res {
            Ok(x) => combine(*op, l@, r@) == Ok::<SExpr, BindError>(x@),
            Err(e) => combine(*op, l@, r@) == Err::<SExpr, BindError>(err_model(e)),
        },
{
    proof {
        reveal_with_fuel(crate::ir::view_expr, 2);
    }
    match op {
        SqlBinOp::And => match l {
            Expr::And(v) => {
                let mut v = v;
                let ghost prev = v@;
                v.push(r);
                proof {
                    assert(v@.drop_last() =~= prev);
                }
                Ok(Expr::And(v))
            },
            other => {
                let ghost (a, b) = (other@, r@);
                let v = vec![other, r];
                proof {
                    lemma_view_exprs(v@);
                    assert(view_exprs(v@) =~= seq![a, b]);
                }
                Ok(Expr::And(v))
            },
        },
        SqlBinOp::Or => match l {
            Expr::Or(v) => {
                let mut v = v;
                let ghost prev = v@;
                v.push(r);
                proof {
                    assert(v@.drop_last() =~= prev);
                }
                Ok(Expr::Or(v))
            },
            other => {
                let ghost (a, b) = (other@, r@);
                let v = vec![other, r];
                proof {
                    lemma_view_exprs(v@);
                    assert(view_exprs(v@) =~= seq![a, b]);
                }
                Ok(Expr::Or(v))
            },
        },
        SqlBinOp::Eq => Ok(Expr::Cmp { op: CmpOp::Eq, l: Box::new(l), r: Box::new(r) }),
        SqlBinOp::NotEq => Ok(Expr::Cmp { op: CmpOp::Ne, l: Box::new(l), r: Box::new(r) }),
        SqlBinOp::Lt => Ok(Expr::Cmp { op: CmpOp::Lt, l: Box::new(l), r: Box::new(r) }),
        SqlBinOp::LtEq => Ok(Expr::Cmp { op: CmpOp::Le, l: Box::new(l), r: Box::new(r) }),
        SqlBinOp::Gt => Ok(Expr::Cmp { op: CmpOp::Gt, l: Box::new(l), r: Box::new(r) }),
        SqlBinOp::GtEq => Ok(Expr::Cmp { op: CmpOp::Ge, l: Box::new(l), r: Box::new(r) }),
        SqlBinOp::Plus => Ok(Expr::Arith { op: ArithOp::Add, l: Box::new(l), r: Box::new(r) }),
        SqlBinOp::Minus => Ok(Expr::Arith { op: ArithOp::Sub, l: Box::new(l), r: Box::new(r) }),
        SqlBinOp::Multiply => Ok(Expr::Arith { op: ArithOp::Mul, l: Box::new(l), r: Box::new(r) }),
        SqlBinOp::Divide => Ok(Expr::Arith { op: ArithOp::Div, l: Box::new(l), r: Box::new(r) }),
        SqlBinOp::Other(t) => {
            proof {
                reveal_strlit("operator ");
                reveal_strlit("");
            }
            Err(unsupported(text3("operator ", t.as_str(), "")))
        },
    }
}

/// The key pairs and residual conjuncts of an ON predicate, from its
/// conjuncts in order: an equality of a column of the group and a column
/// of the joined relation is a key pair, oriented (group, joined); an
/// equality within the joined relation and every other conjunct is
/// residual; an equality reaching outside the join is refused.
pub open spec fn split_on_parts(cs: Seq<SExpr>, group: Seq<usize>, right: usize) -> Result<
    (Seq<(ColRef, ColRef)>, Seq<SExpr>),
    BindError,
>
    decreases cs.len(),
{
    if cs.len() == 0 {
        Ok((Seq::empty(), Seq::empty()))
    } else {
        match split_on_parts(cs.drop_last(), group, right) {
            Err(e) => Err(e),
            Ok((on, res)) => {
                let c = cs.last();
                match c {
                    SExpr::Cmp { op: CmpOp::Eq, l, r } => match (*l, *r) {
                        (SExpr::Col(a), SExpr::Col(b)) => {
                            if group.contains(a.rel) && b.rel == right {
                                Ok((on.push((a, b)), res))
                            } else if group.contains(b.rel) && a.rel == right {
                                Ok((on.push((b, a)), res))
                            } else if a.rel == right && b.rel == right {
                                Ok((on, res.push(c)))
                            } else {
                                Err(
                                    BindError::Unsupported(
                                        "ON predicate referencing tables outside the join"@,
                                    ),
                                )
                            }
                        },
                        _ => Ok((on, res.push(c))),
                    },
                    _ => Ok((on, res.push(c))),
                }
            },
        }
    }
}

/// The residual conjuncts as one filter: none, the conjunct, or their
/// conjunction.
pub open spec fn residual_filter(res: Seq<SExpr>) -> Option<SExpr> {
    if res.len() == 0 {
        None
    } else if res.len() == 1 {
        Some(res[0])
    } else {
        Some(SExpr::And(res))
    }
}

/// An ON predicate split into key pairs and a residual filter.
pub open spec fn split_on_spec(bound: SExpr, group: Seq<usize>, right: usize) -> Result<
    (Seq<(ColRef, ColRef)>, Option<SExpr>),
    BindError,
> {
    match split_on_parts(crate::p1::split_conj(bound), group, right) {
        Ok((on, res)) => Ok((on, residual_filter(res))),
        Err(e) => Err(e),
    }
}

/// Splits a bound ON predicate for a join of the group `group_rels` with
/// relation `right` (see `split_on_spec`).
pub fn split_on(bound: Expr, group_rels: &Vec<usize>, right: usize) -> (r: Result<
    (Vec<(ColRef, ColRef)>, Option<Expr>),
    OptError,
>)
    ensures
        match r {
            Ok((on, f)) => split_on_spec(bound@, group_rels@, right) == Ok::<
                (Seq<(ColRef, ColRef)>, Option<SExpr>),
                BindError,
            >((on@, crate::ir::view_opt(f))),
            Err(e) => split_on_spec(bound@, group_rels@, right) == Err::<
                (Seq<(ColRef, ColRef)>, Option<SExpr>),
                BindError,
            >(err_model(e)),
        },
{
    let ghost cv = crate::p1::split_conj(bound@);
    let conjuncts = crate::p1::split_conjunctions(bound);
    proof {
        lemma_view_exprs(conjuncts@);
        reveal_with_fuel(crate::ir::view_expr, 2);
    }
    let n = conjuncts.len();
    let mut rest = conjuncts;
    let mut rev: Vec<Expr> = Vec::new();
    while rest.len() > 0
        invariant
            rest@.len() + rev@.len() == n,
            cv.len() == n,
            forall|i: int| 0 <= i < rest@.len() ==> #[trigger] crate::ir::view_expr(rest@[i]) == cv[i],
            forall|i: int| 0 <= i < rev@.len() ==> #[trigger] crate::ir::view_expr(rev@[i]) == cv[n - 1 - i],
        decreases rest.len(),
    {
        let e = rest.pop().unwrap();
        rev.push(e);
    }
    let mut on: Vec<(ColRef, ColRef)> = Vec::new();
    let mut residual: Vec<Expr> = Vec::new();
    let mut k: usize = 0;
    while rev.len() > 0
        invariant
            k + rev@.len() == n,
            cv.len() == n,
            cv == crate::p1::split_conj(bound@),
            forall|i: int| 0 <= i < rev@.len() ==> #[trigger] crate::ir::view_expr(rev@[i]) == cv[n - 1 - i],
            split_on_parts(cv.take(k as int), group_rels@, right) == Ok::<
                (Seq<(ColRef, ColRef)>, Seq<SExpr>),
                BindError,
            >((on@, view_exprs(residual@))),
        decreases rev.len(),
    {
        let c = rev.pop().unwrap();
        let ghost prev = residual@;
        proof {
            reveal_with_fuel(crate::ir::view_expr, 2);
            assert(crate::ir::view_expr(c) == cv[k as int]);
            assert(cv.take(k + 1).drop_last() =~= cv.take(k as int));
            assert(cv.take(k + 1).last() == cv[k as int]);
            lemma_view_exprs(residual@);
        }
        let mut is_key_candidate = false;
        let mut a = ColRef { rel: 0, col: 0 };
        let mut b = ColRef { rel: 0, col: 0 };
        match &c {
            Expr::Cmp { op: CmpOp::Eq, l, r } => match (&**l, &**r) {
                (Expr::Col(x), Expr::Col(y)) => {
                    is_key_candidate = true;
                    a = *x;
                    b = *y;
                },
                _ => {},
            },
            _ => {},
        }
        if is_key_candidate {
            if crate::p1::contains_usize(group_rels, a.rel) && b.rel == right {
                on.push((a, b));
            } else if crate::p1::contains_usize(group_rels, b.rel) && a.rel == right {
                on.push((b, a));
            } else if a.rel == right && b.rel == right {
                residual.push(c);
                proof {
                    assert(residual@.drop_last() =~= prev);
                }
            } else {
                proof {
                    reveal_strlit("ON predicate referencing tables outside the join");
                    assert(split_on_parts(cv.take(k + 1), group_rels@, right) == Err::<
                        (Seq<(ColRef, ColRef)>, Seq<SExpr>),
                        BindError,
                    >(BindError::Unsupported("ON predicate referencing tables outside the join"@)));
                    lemma_split_on_parts_err(cv, group_rels@, right, (k + 1) as nat);
                    assert(split_on_parts(cv, group_rels@, right) == Err::<
                        (Seq<(ColRef, ColRef)>, Seq<SExpr>),
                        BindError,
                    >(BindError::Unsupported("ON predicate referencing tables outside the join"@)));
                }
                return Err(refuse("ON predicate referencing tables outside the join"));
            }
        } else {
            residual.push(c);
            proof {
                assert(residual@.drop_last() =~= prev);
            }
        }
        k = k + 1;
    }
    proof {
        assert(cv.take(n as int) =~= cv);
        lemma_view_exprs(residual@);
    }
    let filter = if residual.len() == 0 {
        None
    } else if residual.len() == 1 {
        residual.pop()
    } else {
        Some(Expr::And(residual))
    };
    Ok((on, filter))
}

/// An error while splitting a prefix stays the error of the whole.
proof fn lemma_split_on_parts_err(cs: Seq<SExpr>, group: Seq<usize>, right: usize, k: nat)
    requires
        k <= cs.len(),
        split_on_parts(cs.take(k as int), group, right) is Err,
    ensures
        split_on_parts(cs, group, right) == split_on_parts(cs.take(k as int), group, right),
    decreases cs.len() - k,
{
    if k < cs.len() {
        assert(cs.take(k as int + 1).drop_last() =~= cs.take(k as int));
        lemma_split_on_parts_err(cs, group, right, k + 1);
    } else {
        assert(cs.take(k as int) =~= cs);
    }
}

/// A relation added under qualifier `q`, unless a relation already has
/// that qualifier.
pub open spec fn add_rel(rels: Seq<(Seq<char>, Seq<char>)>, table: Seq<char>, q: Seq<char>) -> Result<
    Seq<(Seq<char>, Seq<char>)>,
    BindError,
> {
    if exists|i: int| 0 <= i < rels.len() && (#[trigger] rels[i]).1 == q {
        Err(BindError::Other("duplicate table name/alias '"@ + q + "' in FROM (add an alias)"@))
    } else {
        Ok(rels.push((table, q)))
    }
}

/// One FROM relation: a single-identifier schema table, known by its
/// alias if it has one (an alias replaces the table's name), else by its
/// name; qualifiers must be unique.
pub open spec fn push_rel_spec(rels: Seq<(Seq<char>, Seq<char>)>, t: TableRef) -> Result<
    Seq<(Seq<char>, Seq<char>)>,
    BindError,
> {
    match t {
        TableRef::Table { name, alias, has_args } => if has_args {
            Err(BindError::Unsupported("non-table FROM item"@))
        } else {
            match name {
                None => Err(BindError::Unsupported("qualified table name (schema.table)"@)),
                Some(id) => if !known_table(id@) {
                    Err(BindError::Other("unknown table '"@ + id@ + "'"@))
                } else {
                    match alias {
                        Some(a) => if a.has_columns {
                            Err(BindError::Unsupported("table alias with column list"@))
                        } else {
                            add_rel(rels, id@, a.name@)
                        },
                        None => add_rel(rels, id@, id@),
                    }
                },
            }
        },
        TableRef::Derived => Err(BindError::Unsupported("subquery in FROM"@)),
        TableRef::Other => Err(BindError::Unsupported("non-table FROM item"@)),
    }
}

/// Adds a FROM relation (see `push_rel_spec`); its index.
fn push_rel(rels: &mut Vec<RelInfo>, t: &TableRef) -> (r: Result<usize, OptError>)
    ensures
        match r {
            Ok(i) => i == old(rels)@.len() && push_rel_spec(rels_model(old(rels)@), *t) == Ok::<
                Seq<(Seq<char>, Seq<char>)>,
                BindError,
            >(rels_model(final(rels)@)),
            Err(e) => push_rel_spec(rels_model(old(rels)@), *t) == Err::<
                Seq<(Seq<char>, Seq<char>)>,
                BindError,
            >(err_model(e)),
        },
{
    let ghost rm = rels_model(rels@);
    match t {
        TableRef::Table { name, alias, has_args } => {
            if *has_args {
                proof {
                    reveal_strlit("non-table FROM item");
                }
                return Err(refuse("non-table FROM item"));
            }
            let table = match name {
                None => {
                    proof {
                        reveal_strlit("qualified table name (schema.table)");
                    }
                    return Err(refuse("qualified table name (schema.table)"));
                },
                Some(id) => id,
            };
            if !is_known_table(table.as_str()) {
                proof {
                    reveal_strlit("unknown table '");
                    reveal_strlit("'");
                }
                return Err(OptError::Other(text3("unknown table '", table.as_str(), "'")));
            }
            let qualifier = match alias {
                Some(a) => {
                    if a.has_columns {
                        proof {
                            reveal_strlit("table alias with column list");
                        }
                        return Err(refuse("table alias with column list"));
                    }
                    a.name.clone()
                },
                None => table.clone(),
            };
            let ghost spec_result = push_rel_spec(rm, *t);
            proof {
                assert(spec_result == add_rel(rm, table@, qualifier@));
            }
            let mut i: usize = 0;
            while i < rels.len()
                invariant
                    i <= rels@.len(),
                    rm == rels_model(rels@),
                    rels@ == old(rels)@,
                    spec_result == push_rel_spec(rm, *t),
                    spec_result == add_rel(rm, table@, qualifier@),
                    forall|j: int| 0 <= j < i ==> rm[j].1 != qualifier@,
                decreases rels.len() - i,
            {
                if str_eq(rels[i].qualifier.as_str(), qualifier.as_str()) {
                    proof {
                        reveal_strlit("duplicate table name/alias '");
                        reveal_strlit("' in FROM (add an alias)");
                        assert(rm[i as int].1 == qualifier@);
                    }
                    return Err(
                        OptError::Other(
                            text3("duplicate table name/alias '", qualifier.as_str(), "' in FROM (add an alias)"),
                        ),
                    );
                }
                i = i + 1;
            }
            let n = rels.len();
            rels.push(RelInfo { table: table.clone(), qualifier });
            proof {
                assert(rels_model(rels@) =~= rm.push((table@, rels@[n as int].qualifier@)));
            }
            Ok(n)
        },
        TableRef::Derived => {
            proof {
                reveal_strlit("subquery in FROM");
            }
            Err(refuse("subquery in FROM"))
        },
        TableRef::Other => {
            proof {
                reveal_strlit("non-table FROM item");
            }
            Err(refuse("non-table FROM item"))
        },
    }
}

/// The binder's state within one FROM entry: the relations so far, the
/// relations of the entry's group, and the group's join tree.
pub type GroupState = (Seq<(Seq<char>, Seq<char>)>, Seq<usize>, SPlan);

/// One join chained onto a group: only inner (or plain cross) joins; the
/// joined relation is added, its ON predicate bound against every
/// relation so far and split into key pairs and a residual filter.
pub open spec fn join_step(st: GroupState, j: JoinItem) -> Result<GroupState, BindError> {
    if j.kind is Other {
        Err(BindError::Unsupported("only INNER JOIN is supported"@))
    } else {
        match push_rel_spec(st.0, j.relation) {
            Err(e) => Err(e),
            Ok(rels) => {
                let right = st.0.len() as usize;
                let cond = match j.kind {
                    JoinKind::Inner(JoinCondition::On(e)) => match bind_expr_spec(e, rels) {
                        Err(err) => Err(err),
                        Ok(bound) => split_on_spec(bound, st.1, right),
                    },
                    JoinKind::Inner(JoinCondition::Other) => Err(
                        BindError::Unsupported("USING / NATURAL join"@),
                    ),
                    _ => Ok((Seq::empty(), None)),
                };
                match cond {
                    Err(e) => Err(e),
                    Ok((on, f)) => Ok(
                        (
                            rels,
                            st.1.push(right),
                            SPlan::Join {
                                left: Box::new(st.2),
                                right: Box::new(SPlan::Scan { rel: right }),
                                on,
                                filter: f,
                            },
                        ),
                    ),
                }
            },
        }
    }
}

/// The joins of a FROM entry, in order.
pub open spec fn joins_fold(st: GroupState, js: Seq<JoinItem>) -> Result<GroupState, BindError>
    decreases js.len(),
{
    if js.len() == 0 {
        Ok(st)
    } else {
        match joins_fold(st, js.drop_last()) {
            Err(e) => Err(e),
            Ok(s1) => join_step(s1, js.last()),
        }
    }
}

proof fn lemma_joins_fold_err(st: GroupState, js: Seq<JoinItem>, k: nat)
    requires
        k <= js.len(),
        joins_fold(st, js.take(k as int)) is Err,
    ensures
        joins_fold(st, js) == joins_fold(st, js.take(k as int)),
    decreases js.len() - k,
{
    if k < js.len() {
        assert(js.take(k as int + 1).drop_last() =~= js.take(k as int));
        lemma_joins_fold_err(st, js, k + 1);
    } else {
        assert(js.take(k as int) =~= js);
    }
}

/// Every ON predicate of the joins has literals that fit.
pub open spec fn joins_fit(js: Seq<JoinItem>) -> bool {
    forall|j: int|
        0 <= j < js.len() ==> ((#[trigger] js[j]).kind matches JoinKind::Inner(JoinCondition::On(e))
            ==> literals_fit(e))
}

/// One FROM entry: its relation, then the joins chained onto it.
pub open spec fn group_spec(rels: Seq<(Seq<char>, Seq<char>)>, item: FromItem) -> Result<
    (Seq<(Seq<char>, Seq<char>)>, SPlan),
    BindError,
> {
    match push_rel_spec(rels, item.relation) {
        Err(e) => Err(e),
        Ok(r1) => {
            let base = rels.len() as usize;
            match joins_fold((r1, seq![base], SPlan::Scan { rel: base }), item.joins@) {
                Err(e) => Err(e),
                Ok(st) => Ok((st.0, st.2)),
            }
        },
    }
}

/// Binds one join onto the group (see `join_step`).
fn bind_join(
    j: &JoinItem,
    rels: &mut Vec<RelInfo>,
    group_rels: &mut Vec<usize>,
    group: Plan,
) -> (r: Result<Plan, OptError>)
    requires
        j.kind matches JoinKind::Inner(JoinCondition::On(e)) ==> literals_fit(e),
    ensures
        match r {
            Ok(p) => join_step((rels_model(old(rels)@), old(group_rels)@, group@), *j) == Ok::<
                GroupState,
                BindError,
            >((rels_model(final(rels)@), final(group_rels)@, p@)),
            Err(e) => join_step((rels_model(old(rels)@), old(group_rels)@, group@), *j) == Err::<
                GroupState,
                BindError,
            >(err_model(e)),
        },
{
    proof {
        reveal_strlit("only INNER JOIN is supported");
        reveal_strlit("USING / NATURAL join");
    }
    if matches!(j.kind, JoinKind::Other) {
        return Err(refuse("only INNER JOIN is supported"));
    }
    let right = match push_rel(rels, &j.relation) {
        Ok(i) => i,
        Err(e) => {
            return Err(e);
        },
    };
    let (on, filter) = match &j.kind {
        JoinKind::Inner(JoinCondition::On(e)) => {
            let bound = match bind_expr(e, rels) {
                Ok(b) => b,
                Err(err) => {
                    return Err(err);
                },
            };
            match split_on(bound, group_rels, right) {
                Ok(x) => x,
                Err(err) => {
                    return Err(err);
                },
            }
        },
        JoinKind::Inner(JoinCondition::Other) => {
            return Err(refuse("USING / NATURAL join"));
        },
        _ => (Vec::new(), None),
    };
    group_rels.push(right);
    proof {
        reveal_with_fuel(crate::ir::view_plan, 2);
    }
    Ok(Plan::Join { left: Box::new(group), right: Box::new(Plan::Scan { rel: right }), on, filter })
}

/// Binds one FROM entry (see `group_spec`).
fn bind_group(item: &FromItem, rels: &mut Vec<RelInfo>) -> (r: Result<Plan, OptError>)
    requires
        joins_fit(item.joins@),
    ensures
        match r {
            Ok(p) => group_spec(rels_model(old(rels)@), *item) == Ok::<
                (Seq<(Seq<char>, Seq<char>)>, SPlan),
                BindError,
            >((rels_model(final(rels)@), p@)),
            Err(e) => group_spec(rels_model(old(rels)@), *item) == Err::<
                (Seq<(Seq<char>, Seq<char>)>, SPlan),
                BindError,
            >(err_model(e)),
        },
{
    let ghost rm0 = rels_model(rels@);
    let base = match push_rel(rels, &item.relation) {
        Ok(i) => i,
        Err(e) => {
            return Err(e);
        },
    };
    let ghost st0: GroupState = (rels_model(rels@), seq![base], SPlan::Scan { rel: base });
    let mut group_rels: Vec<usize> = Vec::new();
    group_rels.push(base);
    let mut group = Plan::Scan { rel: base };
    proof {
        assert(group_rels@ =~= seq![base]);
        assert(item.joins@.take(0) =~= Seq::<JoinItem>::empty());
    }
    let mut k: usize = 0;
    while k < item.joins.len()
        invariant
            k <= item.joins@.len(),
            joins_fit(item.joins@),
            rm0 == rels_model(old(rels)@),
            base == rm0.len(),
            push_rel_spec(rm0, item.relation) == Ok::<Seq<(Seq<char>, Seq<char>)>, BindError>(st0.0),
            st0 == (st0.0, seq![base], SPlan::Scan { rel: base }),
            joins_fold(st0, item.joins@.take(k as int)) == Ok::<GroupState, BindError>(
                (rels_model(rels@), group_rels@, group@),
            ),
        decreases item.joins.len() - k,
    {
        let ghost before: GroupState = (rels_model(rels@), group_rels@, group@);
        proof {
            assert(item.joins@.take(k + 1).drop_last() =~= item.joins@.take(k as int));
            assert(item.joins@.take(k + 1).last() == item.joins@[k as int]);
        }
        let j = &item.joins[k];
        match bind_join(j, rels, &mut group_rels, group) {
            Ok(p) => {
                group = p;
            },
            Err(e) => {
                proof {
                    lemma_joins_fold_err(st0, item.joins@, (k + 1) as nat);
                }
                return Err(e);
            },
        }
        k = k + 1;
    }
    proof {
        assert(item.joins@.take(k as int) =~= item.joins@);
    }
    Ok(group)
}

/// The FROM entries in order; each later entry joins the tree so far in
/// a cross-join shape (no keys, no filter).
pub open spec fn from_fold(items: Seq<FromItem>) -> Result<(Seq<(Seq<char>, Seq<char>)>, Option<SPlan>), BindError>
    decreases items.len(),
{
    if items.len() == 0 {
        Ok((Seq::empty(), None))
    } else {
        match from_fold(items.drop_last()) {
            Err(e) => Err(e),
            Ok((rels, acc)) => match group_spec(rels, items.last()) {
                Err(e) => Err(e),
                Ok((rels2, g)) => Ok(
                    (
                        rels2,
                        Some(
                            match acc {
                                None => g,
                                Some(a) => SPlan::Join {
                                    left: Box::new(a),
                                    right: Box::new(g),
                                    on: Seq::empty(),
                                    filter: None,
                                },
                            },
                        ),
                    ),
                ),
            },
        }
    }
}

proof fn lemma_from_fold_err(items: Seq<FromItem>, k: nat)
    requires
        k <= items.len(),
        from_fold(items.take(k as int)) is Err,
    ensures
        from_fold(items) == from_fold(items.take(k as int)),
    decreases items.len() - k,
{
    if k < items.len() {
        assert(items.take(k as int + 1).drop_last() =~= items.take(k as int));
        lemma_from_fold_err(items, k + 1);
    } else {
        assert(items.take(k as int) =~= items);
    }
}

pub open spec fn from_fits(items: Seq<FromItem>) -> bool {
    forall|i: int| 0 <= i < items.len() ==> joins_fit((#[trigger] items[i]).joins@)
}

/// Binds the FROM clause (see `from_fold`).
fn bind_from(items: &Vec<FromItem>, rels: &mut Vec<RelInfo>) -> (r: Result<Option<Plan>, OptError>)
    requires
        from_fits(items@),
        old(rels)@.len() == 0,
    ensures
        match r {
            Ok(p) => from_fold(items@) == Ok::<(Seq<(Seq<char>, Seq<char>)>, Option<SPlan>), BindError>(
                (
                    rels_model(final(rels)@),
                    match p {
                        Some(x) => Some(x@),
                        None => None,
                    },
                ),
            ),
            Err(e) => from_fold(items@) == Err::<(Seq<(Seq<char>, Seq<char>)>, Option<SPlan>), BindError>(
                err_model(e),
            ),
        },
{
    let mut plan: Option<Plan> = None;
    let mut k: usize = 0;
    proof {
        assert(items@.take(0) =~= Seq::<FromItem>::empty());
        assert(rels_model(rels@) =~= Seq::<(Seq<char>, Seq<char>)>::empty());
    }
    while k < items.len()
        invariant
            k <= items@.len(),
            from_fits(items@),
            from_fold(items@.take(k as int)) == Ok::<(Seq<(Seq<char>, Seq<char>)>, Option<SPlan>), BindError>(
                (
                    rels_model(rels@),
                    match plan {
                        Some(x) => Some(x@),
                        None => None,
                    },
                ),
            ),
        decreases items.len() - k,
    {
        proof {
            assert(items@.take(k + 1).drop_last() =~= items@.take(k as int));
            assert(items@.take(k + 1).last() == items@[k as int]);
        }
        let g = match bind_group(&items[k], rels) {
            Ok(g) => g,
            Err(e) => {
                proof {
                    lemma_from_fold_err(items@, (k + 1) as nat);
                }
                return Err(e);
            },
        };
        plan = match plan {
            None => Some(g),
            Some(acc) => Some(
                Plan::Join { left: Box::new(acc), right: Box::new(g), on: Vec::new(), filter: None },
            ),
        };
        proof {
            reveal_with_fuel(crate::ir::view_plan, 2);
        }
        k = k + 1;
    }
    proof {
        assert(items@.take(k as int) =~= items@);
    }
    Ok(plan)
}

/// The ORDER BY keys in order: each bound, descending when written DESC;
/// NULLS FIRST/LAST and WITH FILL are refused.
pub open spec fn keys_fold(items: Seq<OrderItem>, rels: Seq<(Seq<char>, Seq<char>)>) -> Result<
    Seq<(SExpr, bool)>,
    BindError,
>
    decreases items.len(),
{
    if items.len() == 0 {
        Ok(Seq::empty())
    } else {
        match keys_fold(items.drop_last(), rels) {
            Err(e) => Err(e),
            Ok(keys) => {
                let o = items.last();
                if o.with_fill || o.nulls_given {
                    Err(BindError::Unsupported("ORDER BY WITH FILL / NULLS FIRST"@))
                } else {
                    match bind_expr_spec(o.expr, rels) {
                        Err(e) => Err(e),
                        Ok(x) => Ok(keys.push((x, o.asc == Some(false)))),
                    }
                }
            },
        }
    }
}

/// Each bound ORDER BY key comes from its item, in order: the item's
/// expression bound, descending exactly when DESC is written, ascending
/// when no direction is given.
pub proof fn lemma_keys_direction(items: Seq<OrderItem>, rels: Seq<(Seq<char>, Seq<char>)>)
    ensures
        keys_fold(items, rels) matches Ok(keys) ==> keys.len() == items.len() && forall|i: int|
            0 <= i < items.len() ==> {
                &&& bind_expr_spec(items[i].expr, rels) == Ok::<SExpr, BindError>((#[trigger] keys[i]).0)
                &&& keys[i].1 == (items[i].asc == Some(false))
                &&& (items[i].asc is None ==> !keys[i].1)
            },
    decreases items.len(),
{
    if items.len() > 0 {
        lemma_keys_direction(items.drop_last(), rels);
        if let Ok(keys) = keys_fold(items, rels) {
            let prev = keys_fold(items.drop_last(), rels)->Ok_0;
            assert(keys == prev.push(keys.last()));
            assert forall|i: int| 0 <= i < items.len() implies {
                &&& bind_expr_spec(items[i].expr, rels) == Ok::<SExpr, BindError>((#[trigger] keys[i]).0)
                &&& keys[i].1 == (items[i].asc == Some(false))
                &&& (items[i].asc is None ==> !keys[i].1)
            } by {
                if i < items.len() - 1 {
                    assert(keys[i] == prev[i]);
                    assert(items[i] == items.drop_last()[i]);
                }
            }
        }
    }
}

proof fn lemma_keys_fold_err(items: Seq<OrderItem>, rels: Seq<(Seq<char>, Seq<char>)>, k: nat)
    requires
        k <= items.len(),
        keys_fold(items.take(k as int), rels) is Err,
    ensures
        keys_fold(items, rels) == keys_fold(items.take(k as int), rels),
    decreases items.len() - k,
{
    if k < items.len() {
        assert(items.take(k as int + 1).drop_last() =~= items.take(k as int));
        lemma_keys_fold_err(items, rels, k + 1);
    } else {
        assert(items.take(k as int) =~= items);
    }
}

pub open spec fn keys_fit(items: Seq<OrderItem>) -> bool {
    forall|i: int| 0 <= i < items.len() ==> literals_fit((#[trigger] items[i]).expr)
}

/// Binds the ORDER BY keys (see `keys_fold`).
fn bind_keys(items: &Vec<OrderItem>, rels: &Vec<RelInfo>) -> (r: Result<Vec<(Expr, bool)>, OptError>)
    requires
        keys_fit(items@),
    ensures
        match r {
            Ok(ks) => keys_fold(items@, rels_model(rels@)) == Ok::<Seq<(SExpr, bool)>, BindError>(
                crate::ir::view_keys(ks@),
            ),
            Err(e) => keys_fold(items@, rels_model(rels@)) == Err::<Seq<(SExpr, bool)>, BindError>(
                err_model(e),
            ),
        },
{
    let ghost rm = rels_model(rels@);
    let mut keys: Vec<(Expr, bool)> = Vec::new();
    let mut k: usize = 0;
    proof {
        assert(items@.take(0) =~= Seq::<OrderItem>::empty());
        assert(crate::ir::view_keys(keys@) =~= Seq::<(SExpr, bool)>::empty());
    }
    while k < items.len()
        invariant
            k <= items@.len(),
            keys_fit(items@),
            rm == rels_model(rels@),
            keys_fold(items@.take(k as int), rm) == Ok::<Seq<(SExpr, bool)>, BindError>(
                crate::ir::view_keys(keys@),
            ),
        decreases items.len() - k,
    {
        proof {
            assert(items@.take(k + 1).drop_last() =~= items@.take(k as int));
            assert(items@.take(k + 1).last() == items@[k as int]);
        }
        let o = &items[k];
        if o.with_fill || o.nulls_given {
            proof {
                reveal_strlit("ORDER BY WITH FILL / NULLS FIRST");
                lemma_keys_fold_err(items@, rm, (k + 1) as nat);
            }
            return Err(refuse("ORDER BY WITH FILL / NULLS FIRST"));
        }
        let x = match bind_expr(&o.expr, rels) {
            Ok(x) => x,
            Err(e) => {
                proof {
                    lemma_keys_fold_err(items@, rm, (k + 1) as nat);
                }
                return Err(e);
            },
        };
        let desc = match o.asc {
            Some(a) => !a,
            None => false,
        };
        let ghost prev = keys@;
        keys.push((x, desc));
        proof {
            assert(crate::ir::view_keys(keys@) =~= crate::ir::view_keys(prev).push((keys@.last().0@, desc)));
        }
        k = k + 1;
    }
    proof {
        assert(items@.take(k as int) =~= items@);
    }
    Ok(keys)
}

/// The column counts of the relations' tables.
pub open spec fn widths_of(rels: Seq<(Seq<char>, Seq<char>)>) -> Seq<usize> {
    rels.map_values(|r: (Seq<char>, Seq<char>)| table_columns(r.0).len() as usize)
}

/// The SELECT list in order: expressions bound, `*` standing for every
/// column of every relation, relation by relation.
pub open spec fn proj_fold(items: Seq<SelectItem>, rels: Seq<(Seq<char>, Seq<char>)>) -> Result<
    Seq<SExpr>,
    BindError,
>
    decreases items.len(),
{
    if items.len() == 0 {
        Ok(Seq::empty())
    } else {
        match proj_fold(items.drop_last(), rels) {
            Err(e) => Err(e),
            Ok(es) => match items.last() {
                SelectItem::Expr(e) => match bind_expr_spec(e, rels) {
                    Err(err) => Err(err),
                    Ok(x) => Ok(es.push(x)),
                },
                SelectItem::Wildcard => Ok(
                    es + crate::p1::all_columns(widths_of(rels)).map_values(|c: ColRef| SExpr::Col(c)),
                ),
                SelectItem::QualifiedWildcard => Err(BindError::Unsupported("qualified wildcard (t.*)"@)),
                SelectItem::Aliased => Err(BindError::Unsupported("SELECT-list aliases"@)),
            },
        }
    }
}

proof fn lemma_proj_fold_err(items: Seq<SelectItem>, rels: Seq<(Seq<char>, Seq<char>)>, k: nat)
    requires
        k <= items.len(),
        proj_fold(items.take(k as int), rels) is Err,
    ensures
        proj_fold(items, rels) == proj_fold(items.take(k as int), rels),
    decreases items.len() - k,
{
    if k < items.len() {
        assert(items.take(k as int + 1).drop_last() =~= items.take(k as int));
        lemma_proj_fold_err(items, rels, k + 1);
    } else {
        assert(items.take(k as int) =~= items);
    }
}

pub open spec fn proj_fit(items: Seq<SelectItem>) -> bool {
    forall|i: int| 0 <= i < items.len() ==> ((#[trigger] items[i]) matches SelectItem::Expr(e) ==> literals_fit(e))
}

/// Every relation's table is a schema table.
pub open spec fn rels_known(rels: Seq<(Seq<char>, Seq<char>)>) -> bool {
    forall|i: int| 0 <= i < rels.len() ==> known_table((#[trigger] rels[i]).0)
}

/// Appends a column reference to every column of every relation.
fn push_all_columns(out: &mut Vec<Expr>, rels: &Vec<RelInfo>)
    requires
        rels_known(rels_model(rels@)),
    ensures
        view_exprs(final(out)@) == view_exprs(old(out)@) + crate::p1::all_columns(
            widths_of(rels_model(rels@)),
        ).map_values(|c: ColRef| SExpr::Col(c)),
{
    let ghost rm = rels_model(rels@);
    let ghost w = widths_of(rm);
    let ghost start = view_exprs(out@);
    let mut ri: usize = 0;
    proof {
        assert(w.take(0) =~= Seq::<usize>::empty());
        assert(start + crate::p1::all_columns(w.take(0)).map_values(|c: ColRef| SExpr::Col(c)) =~= start);
    }
    while ri < rels.len()
        invariant
            ri <= rels@.len(),
            rm == rels_model(rels@),
            w == widths_of(rm),
            rels_known(rm),
            view_exprs(out@) == start + crate::p1::all_columns(w.take(ri as int)).map_values(
                |c: ColRef| SExpr::Col(c),
            ),
        decreases rels.len() - ri,
    {
        proof {
            assert(known_table(rm[ri as int].0));
            assert(rm[ri as int].0 == rels@[ri as int].table@);
        }
        let cols = columns_for(rels[ri].table.as_str());
        let width = cols.len();
        proof {
            assert(cols@.map_values(|c: (&str, ColumnType)| (c.0@, c.1)).len() == cols@.len());
            assert(w[ri as int] == width);
            assert(w.take(ri + 1).drop_last() =~= w.take(ri as int));
            assert(w.take(ri + 1).last() == width);
        }
        let ghost before = view_exprs(out@);
        let mut ci: usize = 0;
        while ci < width
            invariant
                ci <= width,
                view_exprs(out@) == before + Seq::new(ci as nat, |c: int| SExpr::Col(ColRef { rel: ri, col: c as usize })),
            decreases width - ci,
        {
            let ghost prev = out@;
            out.push(Expr::Col(ColRef { rel: ri, col: ci }));
            proof {
                lemma_view_exprs(out@);
                lemma_view_exprs(prev);
                assert(out@[out@.len() - 1] == Expr::Col(ColRef { rel: ri, col: ci }));
                assert forall|j: int| 0 <= j < prev.len() implies out@[j] == prev[j] by {}
                let target = before + Seq::new(
                    (ci + 1) as nat,
                    |c: int| SExpr::Col(ColRef { rel: ri, col: c as usize }),
                );
                let old_t = before + Seq::new(ci as nat, |c: int| SExpr::Col(ColRef { rel: ri, col: c as usize }));
                assert(view_exprs(prev) == old_t);
                assert forall|j: int| 0 <= j < target.len() implies #[trigger] view_exprs(out@)[j] == target[j] by {
                    if j < prev.len() {
                        assert(view_exprs(out@)[j] == crate::ir::view_expr(out@[j]));
                        assert(view_exprs(prev)[j] == crate::ir::view_expr(prev[j]));
                        assert(old_t[j] == target[j]);
                    } else {
                        assert(j == prev.len());
                        assert(view_exprs(out@)[j] == crate::ir::view_expr(out@[j]));
                    }
                }
                assert(view_exprs(out@) =~= before + Seq::new(
                    (ci + 1) as nat,
                    |c: int| SExpr::Col(ColRef { rel: ri, col: c as usize }),
                ));
            }
            ci = ci + 1;
        }
        proof {
            let all_prev = crate::p1::all_columns(w.take(ri as int));
            let all_next = crate::p1::all_columns(w.take(ri + 1));
            let block = Seq::new(width as nat, |c: int| ColRef { rel: ri, col: c as usize });
            assert(all_next == all_prev + block);
            assert((all_prev + block).map_values(|c: ColRef| SExpr::Col(c)) =~= all_prev.map_values(
                |c: ColRef| SExpr::Col(c),
            ) + Seq::new(width as nat, |c: int| SExpr::Col(ColRef { rel: ri, col: c as usize })));
            assert(view_exprs(out@) =~= start + all_next.map_values(|c: ColRef| SExpr::Col(c)));
        }
        ri = ri + 1;
    }
    proof {
        assert(w.take(ri as int) =~= w);
    }
}

/// Binds the SELECT list (see `proj_fold`).
fn bind_projection(items: &Vec<SelectItem>, rels: &Vec<RelInfo>) -> (r: Result<Vec<Expr>, OptError>)
    requires
        proj_fit(items@),
        rels_known(rels_model(rels@)),
    ensures
        match r {
            Ok(es) => proj_fold(items@, rels_model(rels@)) == Ok::<Seq<SExpr>, BindError>(view_exprs(es@)),
            Err(e) => proj_fold(items@, rels_model(rels@)) == Err::<Seq<SExpr>, BindError>(err_model(e)),
        },
{
    let ghost rm = rels_model(rels@);
    let mut exprs: Vec<Expr> = Vec::new();
    let mut k: usize = 0;
    proof {
        assert(items@.take(0) =~= Seq::<SelectItem>::empty());
        assert(view_exprs(exprs@) =~= Seq::<SExpr>::empty());
    }
    while k < items.len()
        invariant
            k <= items@.len(),
            proj_fit(items@),
            rm == rels_model(rels@),
            rels_known(rm),
            proj_fold(items@.take(k as int), rm) == Ok::<Seq<SExpr>, BindError>(view_exprs(exprs@)),
        decreases items.len() - k,
    {
        proof {
            assert(items@.take(k + 1).drop_last() =~= items@.take(k as int));
            assert(items@.take(k + 1).last() == items@[k as int]);
            reveal_strlit("qualified wildcard (t.*)");
            reveal_strlit("SELECT-list aliases");
        }
        match &items[k] {
            SelectItem::Expr(e) => {
                let x = match bind_expr(e, rels) {
                    Ok(x) => x,
                    Err(err) => {
                        proof {
                            lemma_proj_fold_err(items@, rm, (k + 1) as nat);
                        }
                        return Err(err);
                    },
                };
                let ghost prev = exprs@;
                exprs.push(x);
                proof {
                    assert(exprs@.drop_last() =~= prev);
                }
            },
            SelectItem::Wildcard => {
                push_all_columns(&mut exprs, rels);
            },
            SelectItem::QualifiedWildcard => {
                proof {
                    lemma_proj_fold_err(items@, rm, (k + 1) as nat);
                }
                return Err(refuse("qualified wildcard (t.*)"));
            },
            SelectItem::Aliased => {
                proof {
                    lemma_proj_fold_err(items@, rm, (k + 1) as nat);
                }
                return Err(refuse("SELECT-list aliases"));
            },
        }
        k = k + 1;
    }
    proof {
        assert(items@.take(k as int) =~= items@);
    }
    Ok(exprs)
}

proof fn lemma_scans_mono(p: SPlan, n: nat, m: nat)
    requires
        scans_below(p, n),
        n <= m,
    ensures
        scans_below(p, m),
    decreases p,
{
    match p {
        SPlan::Filter { input, .. } => lemma_scans_mono(*input, n, m),
        SPlan::Project { input, .. } => lemma_scans_mono(*input, n, m),
        SPlan::Sort { input, .. } => lemma_scans_mono(*input, n, m),
        SPlan::Limit { input, .. } => lemma_scans_mono(*input, n, m),
        SPlan::Join { left, right, .. } => {
            lemma_scans_mono(*left, n, m);
            lemma_scans_mono(*right, n, m);
        },
        _ => {},
    }
}

proof fn lemma_push_rel_known(rels: Seq<(Seq<char>, Seq<char>)>, t: TableRef)
    requires
        rels_known(rels),
    ensures
        push_rel_spec(rels, t) matches Ok(r2) ==> rels_known(r2) && r2.len() == rels.len() + 1,
{
    match push_rel_spec(rels, t) {
        Ok(r2) => {
            assert forall|i: int| 0 <= i < r2.len() implies known_table((#[trigger] r2[i]).0) by {
                if i < rels.len() {
                    assert(r2[i] == rels[i]);
                }
            }
        },
        Err(_) => {},
    }
}

proof fn lemma_joins_fold_wf(st: GroupState, js: Seq<JoinItem>)
    requires
        rels_known(st.0),
        scans_below(st.2, st.0.len()),
    ensures
        joins_fold(st, js) matches Ok(s2) ==> rels_known(s2.0) && s2.0.len() >= st.0.len() && (s2.0.len()
            <= usize::MAX ==> scans_below(s2.2, s2.0.len())),
    decreases js.len(),
{
    if js.len() > 0 {
        lemma_joins_fold_wf(st, js.drop_last());
        match joins_fold(st, js.drop_last()) {
            Ok(s1) => {
                let j = js.last();
                lemma_push_rel_known(s1.0, j.relation);
                match push_rel_spec(s1.0, j.relation) {
                    Ok(r2) => {
                        if r2.len() <= usize::MAX {
                            lemma_scans_mono(s1.2, s1.0.len(), r2.len());
                            let right = s1.0.len() as usize;
                            assert(right == s1.0.len());
                            assert(scans_below(SPlan::Scan { rel: right }, r2.len()));
                        }
                    },
                    Err(_) => {},
                }
            },
            Err(_) => {},
        }
    }
}

proof fn lemma_group_wf(rels: Seq<(Seq<char>, Seq<char>)>, item: FromItem)
    requires
        rels_known(rels),
    ensures
        group_spec(rels, item) matches Ok((r2, g)) ==> rels_known(r2) && r2.len() >= rels.len() + 1 && (
        r2.len() <= usize::MAX ==> scans_below(g, r2.len())),
{
    lemma_push_rel_known(rels, item.relation);
    match push_rel_spec(rels, item.relation) {
        Ok(r1) => {
            let base = rels.len() as usize;
            if rels.len() < usize::MAX {
                assert(base == rels.len());
            }
            lemma_joins_fold_wf((r1, seq![base], SPlan::Scan { rel: base }), item.joins@);
        },
        Err(_) => {},
    }
}

/// The FROM clause binds schema tables only, and its tree scans only its
/// relations.
proof fn lemma_from_fold_known(items: Seq<FromItem>)
    ensures
        from_fold(items) matches Ok((rels, p)) ==> rels_known(rels) && (rels.len() <= usize::MAX ==> (p matches Some(
            t,
        ) ==> scans_below(t, rels.len()))),
    decreases items.len(),
{
    if items.len() > 0 {
        lemma_from_fold_known(items.drop_last());
        match from_fold(items.drop_last()) {
            Ok((rels, acc)) => {
                lemma_group_wf(rels, items.last());
                match group_spec(rels, items.last()) {
                    Ok((r2, g)) => {
                        match acc {
                            Some(a) => if r2.len() <= usize::MAX {
                                lemma_scans_mono(a, rels.len(), r2.len());
                            },
                            None => {},
                        }
                    },
                    Err(_) => {},
                }
            },
            Err(_) => {},
        }
    }
}

/// A bound statement is well formed for the optimizers: its relations
/// are schema tables, and its scans are among its relations.
pub proof fn lemma_bind_well_formed(stmt: Statement)
    ensures
        bind_spec(stmt) matches Ok((p, rels)) ==> rels_known(rels) && (rels.len() <= usize::MAX ==> scans_below(
            p,
            rels.len(),
        )),
{
    match stmt {
        Statement::Query(q) => match q.body {
            QueryBody::Select(sel) => {
                lemma_from_fold_known(sel.from@);
                reveal_with_fuel(scans_below, 5);
            },
            _ => {},
        },
        _ => {},
    }
}

/// WHERE: the predicate bound whole, over the FROM tree.
pub open spec fn where_spec(p: SPlan, sel: Option<SqlExpr>, rels: Seq<(Seq<char>, Seq<char>)>) -> Result<
    SPlan,
    BindError,
> {
    match sel {
        None => Ok(p),
        Some(e) => match bind_expr_spec(e, rels) {
            Err(err) => Err(err),
            Ok(x) => Ok(SPlan::Filter { input: Box::new(p), predicate: x }),
        },
    }
}

/// ORDER BY: a sort over the tree so far, when there are keys.
pub open spec fn order_spec(p: SPlan, ob: Option<OrderBy>, rels: Seq<(Seq<char>, Seq<char>)>) -> Result<
    SPlan,
    BindError,
> {
    match ob {
        None => Ok(p),
        Some(OrderBy::All) => Err(BindError::Unsupported("ORDER BY ALL"@)),
        Some(OrderBy::Exprs(v)) => match keys_fold(v@, rels) {
            Err(err) => Err(err),
            Ok(keys) => if keys.len() > 0 {
                Ok(SPlan::Sort { input: Box::new(p), keys })
            } else {
                Ok(p)
            },
        },
    }
}

/// LIMIT: a non-negative integer literal.
pub open spec fn limit_spec(p: SPlan, lc: Option<LimitClause>, rels: Seq<(Seq<char>, Seq<char>)>) -> Result<
    SPlan,
    BindError,
> {
    match lc {
        None => Ok(p),
        Some(LimitClause::Other) => Err(BindError::Unsupported("OFFSET / LIMIT BY"@)),
        Some(LimitClause::Limit(None)) => Ok(p),
        Some(LimitClause::Limit(Some(e))) => match bind_expr_spec(e, rels) {
            Err(err) => Err(err),
            Ok(SExpr::Int(n)) => if n >= 0 {
                Ok(SPlan::Limit { input: Box::new(p), n: n as u64 })
            } else {
                Err(BindError::Unsupported("non-integer LIMIT"@))
            },
            Ok(_) => Err(BindError::Unsupported("non-integer LIMIT"@)),
        },
    }
}

/// A SELECT: the refused clauses first, then FROM, WHERE, ORDER BY, LIMIT
/// and the SELECT list, the projection on top.
pub open spec fn bind_select_spec(q: SqlQuery, sel: Select) -> Result<
    (SPlan, Seq<(Seq<char>, Seq<char>)>),
    BindError,
> {
    if sel.distinct {
        Err(BindError::Unsupported("DISTINCT"@))
    } else if sel.top {
        Err(BindError::Unsupported("TOP"@))
    } else if sel.having {
        Err(BindError::Unsupported("HAVING"@))
    } else if sel.group_by {
        Err(BindError::Unsupported("GROUP BY"@))
    } else {
        match from_fold(sel.from@) {
            Err(e) => Err(e),
            Ok((rels, None)) => Err(BindError::Unsupported("SELECT without FROM"@)),
            Ok((rels, Some(p0))) => match where_spec(p0, sel.selection, rels) {
                Err(e) => Err(e),
                Ok(p1) => match order_spec(p1, q.order_by, rels) {
                    Err(e) => Err(e),
                    Ok(p2) => match limit_spec(p2, q.limit, rels) {
                        Err(e) => Err(e),
                        Ok(p3) => match proj_fold(sel.projection@, rels) {
                            Err(e) => Err(e),
                            Ok(es) => if es.len() == 0 {
                                Err(BindError::Unsupported("empty SELECT list"@))
                            } else {
                                Ok((SPlan::Project { input: Box::new(p3), exprs: es }, rels))
                            },
                        },
                    },
                },
            },
        }
    }
}

/// Binding a statement (see `bind_select_spec`): only a plain SELECT,
/// without WITH, FETCH or locking clauses.
pub open spec fn bind_spec(stmt: Statement) -> Result<(SPlan, Seq<(Seq<char>, Seq<char>)>), BindError> {
    match stmt {
        Statement::Other => Err(BindError::Unsupported("only SELECT queries are supported"@)),
        Statement::Query(q) => if q.with {
            Err(BindError::Unsupported("WITH (CTEs)"@))
        } else if q.fetch_or_locks {
            Err(BindError::Unsupported("FETCH / FOR UPDATE"@))
        } else {
            match q.body {
                QueryBody::Other => Err(
                    BindError::Unsupported("set operations (UNION/EXCEPT/INTERSECT) or VALUES"@),
                ),
                QueryBody::Select(sel) => bind_select_spec(q, sel),
            }
        },
    }
}

/// Every numeric literal of the statement fits (see `literals_fit`).
pub open spec fn stmt_fits(stmt: Statement) -> bool {
    match stmt {
        Statement::Query(q) => match q.body {
            QueryBody::Select(sel) => {
                &&& from_fits(sel.from@)
                &&& (sel.selection matches Some(e) ==> literals_fit(e))
                &&& (q.order_by matches Some(OrderBy::Exprs(v)) ==> keys_fit(v@))
                &&& (q.limit matches Some(LimitClause::Limit(Some(e))) ==> literals_fit(e))
                &&& proj_fit(sel.projection@)
            },
            QueryBody::Other => true,
        },
        Statement::Other => true,
    }
}

/// Binds a statement (see `bind_spec`).
pub fn bind(stmt: Statement) -> (r: Result<Ir, OptError>)
    requires
        stmt_fits(stmt),
    ensures
        match r {
            Ok(ir) => bind_spec(stmt) == Ok::<(SPlan, Seq<(Seq<char>, Seq<char>)>), BindError>(
                (ir.root@, rels_model(ir.rels@)),
            ),
            Err(e) => bind_spec(stmt) == Err::<(SPlan, Seq<(Seq<char>, Seq<char>)>), BindError>(err_model(e)),
        },
        r matches Ok(ir) ==> crate::p1::ir_wf(ir),
{
    proof {
        lemma_bind_well_formed(stmt);
        reveal_strlit("only SELECT queries are supported");
        reveal_strlit("WITH (CTEs)");
        reveal_strlit("FETCH / FOR UPDATE");
        reveal_strlit("set operations (UNION/EXCEPT/INTERSECT) or VALUES");
        reveal_strlit("DISTINCT");
        reveal_strlit("TOP");
        reveal_strlit("HAVING");
        reveal_strlit("GROUP BY");
        reveal_strlit("SELECT without FROM");
        reveal_strlit("ORDER BY ALL");
        reveal_strlit("OFFSET / LIMIT BY");
        reveal_strlit("non-integer LIMIT");
        reveal_strlit("empty SELECT list");
        reveal_with_fuel(crate::ir::view_plan, 2);
    }
    let ghost st = stmt;
    let q = match stmt {
        Statement::Query(q) => q,
        Statement::Other => {
            return Err(refuse("only SELECT queries are supported"));
        },
    };
    if q.with {
        return Err(refuse("WITH (CTEs)"));
    }
    if q.fetch_or_locks {
        return Err(refuse("FETCH / FOR UPDATE"));
    }
    let ghost qg = q;
    let SqlQuery { with, fetch_or_locks, body, order_by, limit } = q;
    let sel = match body {
        QueryBody::Select(s) => s,
        QueryBody::Other => {
            return Err(refuse("set operations (UNION/EXCEPT/INTERSECT) or VALUES"));
        },
    };
    if sel.distinct {
        return Err(refuse("DISTINCT"));
    }
    if sel.top {
        return Err(refuse("TOP"));
    }
    if sel.having {
        return Err(refuse("HAVING"));
    }
    if sel.group_by {
        return Err(refuse("GROUP BY"));
    }
    let mut rels: Vec<RelInfo> = Vec::new();
    let from = match bind_from(&sel.from, &mut rels) {
        Ok(p) => p,
        Err(e) => {
            return Err(e);
        },
    };
    let ghost rm = rels_model(rels@);
    proof {
        lemma_from_fold_known(sel.from@);
        assert(st == Statement::Query(qg));
        assert(qg.body == QueryBody::Select(sel));
        assert(bind_spec(st) == bind_select_spec(qg, sel));
    }
    let mut plan = match from {
        Some(p) => p,
        None => {
            return Err(refuse("SELECT without FROM"));
        },
    };
    let ghost p0 = plan@;
    match &sel.selection {
        Some(e) => {
            let x = match bind_expr(e, &rels) {
                Ok(x) => x,
                Err(err) => {
                    return Err(err);
                },
            };
            plan = Plan::Filter { input: Box::new(plan), predicate: x };
        },
        None => {},
    }
    let ghost p1 = plan@;
    proof {
        assert(where_spec(p0, sel.selection, rm) == Ok::<SPlan, BindError>(p1));
    }
    match &order_by {
        Some(OrderBy::All) => {
            return Err(refuse("ORDER BY ALL"));
        },
        Some(OrderBy::Exprs(v)) => {
            let keys = match bind_keys(v, &rels) {
                Ok(k) => k,
                Err(err) => {
                    return Err(err);
                },
            };
            if keys.len() > 0 {
                plan = Plan::Sort { input: Box::new(plan), keys };
            }
        },
        None => {},
    }
    let ghost p2 = plan@;
    proof {
        assert(order_spec(p1, qg.order_by, rm) == Ok::<SPlan, BindError>(p2));
    }
    match &limit {
        Some(LimitClause::Other) => {
            return Err(refuse("OFFSET / LIMIT BY"));
        },
        Some(LimitClause::Limit(Some(e))) => {
            let x = match bind_expr(e, &rels) {
                Ok(x) => x,
                Err(err) => {
                    return Err(err);
                },
            };
            match x {
                Expr::Int(n) => {
                    if n >= 0 {
                        plan = Plan::Limit { input: Box::new(plan), n: n as u64 };
                    } else {
                        return Err(refuse("non-integer LIMIT"));
                    }
                },
                _ => {
                    return Err(refuse("non-integer LIMIT"));
                },
            }
        },
        _ => {},
    }
    let ghost p3 = plan@;
    proof {
        assert(limit_spec(p2, qg.limit, rm) == Ok::<SPlan, BindError>(p3));
    }
    let exprs = match bind_projection(&sel.projection, &rels) {
        Ok(es) => es,
        Err(err) => {
            return Err(err);
        },
    };
    proof {
        lemma_view_exprs(exprs@);
    }
    if exprs.len() == 0 {
        return Err(refuse("empty SELECT list"));
    }
    let ir = Ir { root: Plan::Project { input: Box::new(plan), exprs }, rels };
    let count = ir.rels.len();
    proof {
        assert(count == ir.rels@.len());
        let rmv = rels_model(ir.rels@);
        assert(bind_spec(st) == Ok::<(SPlan, Seq<(Seq<char>, Seq<char>)>), BindError>((ir.root@, rmv)));
        assert(rmv.len() == ir.rels@.len());
        assert(rels_known(rmv));
        assert(scans_below(ir.root@, rmv.len()));
        assert forall|i: int| 0 <= i < ir.rels@.len() implies known_table(
            (#[trigger] ir.rels@[i]).table@,
        ) by {
            assert(rmv[i].0 == ir.rels@[i].table@);
        }
    }
    Ok(ir)
}

} // verus!
