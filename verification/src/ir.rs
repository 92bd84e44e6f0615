//! The logical IR: plans, expressions and column references, with their
//! mathematical models (`SExpr`, `SPlan`) that every contract speaks of.

use vstd::prelude::*;

verus! {

/// A bound column: `rel` indexes the query's relation list, `col` that
/// table's columns. Both are stable under every rewrite.
#[derive(Debug, Clone, Copy, PartialEq, Eq, Structural, Hash, PartialOrd, Ord)]
pub struct ColRef {
    pub rel: usize,
    pub col: usize,
}

#[derive(Debug, Clone, Copy, PartialEq, Eq, Structural, Hash, PartialOrd, Ord)]
pub enum CmpOp {
    Eq,
    Ne,
    Lt,
    Le,
    Gt,
    Ge,
}

#[derive(Debug, Clone, Copy, PartialEq, Eq, Structural, Hash, PartialOrd, Ord)]
pub enum ArithOp {
    Add,
    Sub,
    Mul,
    Div,
}

/// Scalar expressions. `Float` holds the bit pattern of a double, so that
/// equality and ordering stay structural.
#[derive(Debug, PartialEq, Eq, Hash, PartialOrd, Ord)]
pub enum Expr {
    Col(ColRef),
    Int(i64),
    Str(String),
    Bool(bool),
    Float(u64),
    Cmp { op: CmpOp, l: Box<Expr>, r: Box<Expr> },
    And(Vec<Expr>),
    Or(Vec<Expr>),
    Not(Box<Expr>),
    Arith { op: ArithOp, l: Box<Expr>, r: Box<Expr> },
}

/// The model of an expression: strings become character sequences and
/// vectors become sequences.
pub enum SExpr {
    Col(ColRef),
    Int(i64),
    Str(Seq<char>),
    Bool(bool),
    Float(u64),
    Cmp { op: CmpOp, l: Box<SExpr>, r: Box<SExpr> },
    And(Seq<SExpr>),
    Or(Seq<SExpr>),
    Not(Box<SExpr>),
    Arith { op: ArithOp, l: Box<SExpr>, r: Box<SExpr> },
}

pub open spec fn view_exprs(s: Seq<Expr>) -> Seq<SExpr>
    decreases s, 1nat,
{
    if s.len() == 0 {
        Seq::empty()
    } else {
        view_exprs(s.drop_last()).push(view_expr(s.last()))
    }
}

pub open spec fn view_expr(e: Expr) -> SExpr
    decreases e, 0nat,
{
    match e {
        Expr::Col(c) => SExpr::Col(c),
        Expr::Int(n) => SExpr::Int(n),
        Expr::Str(s) => SExpr::Str(s@),
        Expr::Bool(b) => SExpr::Bool(b),
        Expr::Float(b) => SExpr::Float(b),
        Expr::Cmp { op, l, r } => SExpr::Cmp {
            op,
            l: Box::new(view_expr(*l)),
            r: Box::new(view_expr(*r)),
        },
        Expr::And(cs) => SExpr::And(view_exprs(cs@)),
        Expr::Or(cs) => SExpr::Or(view_exprs(cs@)),
        Expr::Not(x) => SExpr::Not(Box::new(view_expr(*x))),
        Expr::Arith { op, l, r } => SExpr::Arith {
            op,
            l: Box::new(view_expr(*l)),
            r: Box::new(view_expr(*r)),
        },
    }
}

impl View for Expr {
    type V = SExpr;

    open spec fn view(&self) -> SExpr {
        view_expr(*self)
    }
}

/// The element-wise reading of `view_exprs`.
pub proof fn lemma_view_exprs(s: Seq<Expr>)
    ensures
        view_exprs(s).len() == s.len(),
        forall|i: int| 0 <= i < s.len() ==> #[trigger] view_exprs(s)[i] == view_expr(s[i]),
    decreases s.len(),
{
    if s.len() > 0 {
        lemma_view_exprs(s.drop_last());
    }
}

impl Clone for Expr {
    fn clone(&self) -> (r: Self)
        ensures
            r@ == self@,
        decreases self,
    {
        match self {
            Expr::Col(c) => Expr::Col(*c),
            Expr::Int(n) => Expr::Int(*n),
            Expr::Str(s) => Expr::Str(s.clone()),
            Expr::Bool(b) => Expr::Bool(*b),
            Expr::Float(b) => Expr::Float(*b),
            Expr::Cmp { op, l, r } => Expr::Cmp {
                op: *op,
                l: Box::new((**l).clone()),
                r: Box::new((**r).clone()),
            },
            Expr::And(cs) => Expr::And(clone_exprs(cs)),
            Expr::Or(cs) => Expr::Or(clone_exprs(cs)),
            Expr::Not(x) => Expr::Not(Box::new((**x).clone())),
            Expr::Arith { op, l, r } => Expr::Arith {
                op: *op,
                l: Box::new((**l).clone()),
                r: Box::new((**r).clone()),
            },
        }
    }
}

/// A copy of a vector of expressions with the same model.
pub fn clone_exprs(v: &Vec<Expr>) -> (r: Vec<Expr>)
    ensures
        view_exprs(r@) == view_exprs(v@),
    decreases v,
{
    let mut r: Vec<Expr> = Vec::new();
    let mut i: usize = 0;
    proof {
        lemma_view_exprs(v@);
    }
    while i < v.len()
        invariant
            i <= v.len(),
            r@.len() == i,
            forall|j: int| 0 <= j < i ==> #[trigger] view_expr(r@[j]) == view_expr(v@[j]),
        decreases v.len() - i,
    {
        proof {
            assert(decreases_to!(v => v[i as int]));
        }
        let c = v[i].clone();
        r.push(c);
        i = i + 1;
    }
    proof {
        lemma_view_exprs(r@);
        assert(view_exprs(r@) =~= view_exprs(v@));
    }
    r
}

/// Model of a whole sequence of (key, descending) pairs.
pub open spec fn view_keys(s: Seq<(Expr, bool)>) -> Seq<(SExpr, bool)> {
    s.map_values(|k: (Expr, bool)| (view_expr(k.0), k.1))
}

pub open spec fn view_opt(o: Option<Expr>) -> Option<SExpr> {
    match o {
        Some(e) => Some(view_expr(e)),
        None => None,
    }
}

/// One relation of the query: its table, and the name it is known by.
#[derive(Debug, PartialEq, Eq, Hash, PartialOrd, Ord)]
pub struct RelInfo {
    pub table: String,
    pub qualifier: String,
}

impl Clone for RelInfo {
    fn clone(&self) -> (r: Self)
        ensures
            r.table@ == self.table@,
            r.qualifier@ == self.qualifier@,
    {
        RelInfo { table: self.table.clone(), qualifier: self.qualifier.clone() }
    }
}

/// Logical plans.
#[derive(Debug, PartialEq, Eq, Hash, PartialOrd, Ord)]
pub enum Plan {
    Scan { rel: usize },
    /// Zero rows, standing in for the relations it absorbed.
    EmptyScan { rels: Vec<usize> },
    Filter { input: Box<Plan>, predicate: Expr },
    Project { input: Box<Plan>, exprs: Vec<Expr> },
    Join { left: Box<Plan>, right: Box<Plan>, on: Vec<(ColRef, ColRef)>, filter: Option<Expr> },
    Sort { input: Box<Plan>, keys: Vec<(Expr, bool)> },
    Limit { input: Box<Plan>, n: u64 },
}

/// The model of a plan.
pub enum SPlan {
    Scan { rel: usize },
    EmptyScan { rels: Seq<usize> },
    Filter { input: Box<SPlan>, predicate: SExpr },
    Project { input: Box<SPlan>, exprs: Seq<SExpr> },
    Join {
        left: Box<SPlan>,
        right: Box<SPlan>,
        on: Seq<(ColRef, ColRef)>,
        filter: Option<SExpr>,
    },
    Sort { input: Box<SPlan>, keys: Seq<(SExpr, bool)> },
    Limit { input: Box<SPlan>, n: u64 },
}

pub open spec fn view_plan(p: Plan) -> SPlan
    decreases p,
{
    match p {
        Plan::Scan { rel } => SPlan::Scan { rel },
        Plan::EmptyScan { rels } => SPlan::EmptyScan { rels: rels@ },
        Plan::Filter { input, predicate } => SPlan::Filter {
            input: Box::new(view_plan(*input)),
            predicate: view_expr(predicate),
        },
        Plan::Project { input, exprs } => SPlan::Project {
            input: Box::new(view_plan(*input)),
            exprs: view_exprs(exprs@),
        },
        Plan::Join { left, right, on, filter } => SPlan::Join {
            left: Box::new(view_plan(*left)),
            right: Box::new(view_plan(*right)),
            on: on@,
            filter: view_opt(filter),
        },
        Plan::Sort { input, keys } => SPlan::Sort {
            input: Box::new(view_plan(*input)),
            keys: view_keys(keys@),
        },
        Plan::Limit { input, n } => SPlan::Limit { input: Box::new(view_plan(*input)), n },
    }
}

impl View for Plan {
    type V = SPlan;

    open spec fn view(&self) -> SPlan {
        view_plan(*self)
    }
}

/// A bound query: the plan tree and the relations its column references
/// point into.
#[derive(Debug, PartialEq, Eq, Hash)]
pub struct Ir {
    pub root: Plan,
    pub rels: Vec<RelInfo>,
}

/// The column references of an expression, left to right.
pub open spec fn expr_cols(e: SExpr) -> Seq<ColRef>
    decreases e, 0nat,
{
    match e {
        SExpr::Col(c) => seq![c],
        SExpr::Not(x) => expr_cols(*x),
        SExpr::Cmp { l, r, .. } => expr_cols(*l) + expr_cols(*r),
        SExpr::Arith { l, r, .. } => expr_cols(*l) + expr_cols(*r),
        SExpr::And(cs) => seq_cols(cs),
        SExpr::Or(cs) => seq_cols(cs),
        _ => Seq::empty(),
    }
}

/// The column references of a list of expressions, in order.
pub open spec fn seq_cols(s: Seq<SExpr>) -> Seq<ColRef>
    decreases s, 1nat,
{
    if s.len() == 0 {
        Seq::empty()
    } else {
        seq_cols(s.drop_last()) + expr_cols(s.last())
    }
}

/// A copy of a vector of copyable values.
pub fn copy_vec<T: Copy>(v: &Vec<T>) -> (r: Vec<T>)
    ensures
        r@ == v@,
{
    let mut r: Vec<T> = Vec::new();
    let mut i: usize = 0;
    while i < v.len()
        invariant
            i <= v@.len(),
            r@ == v@.take(i as int),
        decreases v.len() - i,
    {
        r.push(v[i]);
        i = i + 1;
        proof {
            assert(r@ =~= v@.take(i as int));
        }
    }
    proof {
        assert(v@.take(i as int) =~= v@);
    }
    r
}

/// A copy of a vector of sort keys with the same model.
pub fn clone_keys(v: &Vec<(Expr, bool)>) -> (r: Vec<(Expr, bool)>)
    ensures
        view_keys(r@) == view_keys(v@),
{
    let mut r: Vec<(Expr, bool)> = Vec::new();
    let mut i: usize = 0;
    while i < v.len()
        invariant
            i <= v@.len(),
            r@.len() == i,
            forall|j: int| 0 <= j < i ==> #[trigger] view_expr(r@[j].0) == view_expr(v@[j].0) && r@[j].1
                == v@[j].1,
        decreases v.len() - i,
    {
        let k = (v[i].0.clone(), v[i].1);
        r.push(k);
        i = i + 1;
    }
    proof {
        assert(view_keys(r@) =~= view_keys(v@));
    }
    r
}

/// A copy of an optional expression with the same model.
pub fn clone_opt(o: &Option<Expr>) -> (r: Option<Expr>)
    ensures
        view_opt(r) == view_opt(*o),
{
    match o {
        Some(e) => Some(e.clone()),
        None => None,
    }
}

/// A copy of a plan with the same model.
pub fn clone_plan(p: &Plan) -> (r: Plan)
    ensures
        r@ == p@,
    decreases p,
{
    match p {
        Plan::Scan { rel } => Plan::Scan { rel: *rel },
        Plan::EmptyScan { rels } => Plan::EmptyScan { rels: copy_vec(rels) },
        Plan::Filter { input, predicate } => Plan::Filter {
            input: Box::new(clone_plan(input)),
            predicate: predicate.clone(),
        },
        Plan::Project { input, exprs } => Plan::Project {
            input: Box::new(clone_plan(input)),
            exprs: clone_exprs(exprs),
        },
        Plan::Join { left, right, on, filter } => Plan::Join {
            left: Box::new(clone_plan(left)),
            right: Box::new(clone_plan(right)),
            on: copy_vec(on),
            filter: clone_opt(filter),
        },
        Plan::Sort { input, keys } => Plan::Sort {
            input: Box::new(clone_plan(input)),
            keys: clone_keys(keys),
        },
        Plan::Limit { input, n } => Plan::Limit { input: Box::new(clone_plan(input)), n: *n },
    }
}

impl Clone for Plan {
    fn clone(&self) -> (r: Self)
        ensures
            r@ == self@,
    {
        clone_plan(self)
    }
}

} // verus!
