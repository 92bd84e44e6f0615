//! A rule engine in the Starburst style: rewrites are rules (a match test
//! and an action), grouped in classes that are driven over the whole tree
//! to a fixpoint, each class under a budget of rule considerations.

use vstd::prelude::*;
use crate::ir::{
    CmpOp, RelInfo, ColRef, Expr, Ir, Plan, SExpr, SPlan, view_expr, view_exprs, view_keys, view_opt, view_plan,
    lemma_view_exprs,
};
use crate::p1::{
    ConjunctClass, classify, classify_conjunct, dedup, dedup_expr, dedup_exprs, dedup_keys, fold,
    fold_expr, fold_exprs, fold_keys, plan_rels, rels_of, split_conj, split_conjunctions,
    scans_below, narrow_spec, all_columns, rel_widths, ir_wf, prune,
};
use crate::order::expr_eq;
use crate::sorting::{sort_dedup, sorted_set};
use crate::render::{dec_nat, plan_text, push_dec};
use vstd::string::StrSliceExecFns;

verus! {

/// The rewrite rules, declared in the alphabetical order of their names.
#[derive(Debug, Clone, Copy, PartialEq, Eq, Structural)]
pub enum Rule {
    DedupExprs,
    EmptyJoin,
    EmptyLimit,
    EmptySort,
    FalseFilters,
    FoldExprs,
    MergeFilter,
    Pred2JoinKey,
    PredPdJoin,
    PredPdProj,
    PredPdSort,
    SplitAnd,
}

/// The position of a rule in the alphabetical order of names.
pub open spec fn rule_index(r: Rule) -> nat {
    match r {
        Rule::DedupExprs => 0,
        Rule::EmptyJoin => 1,
        Rule::EmptyLimit => 2,
        Rule::EmptySort => 3,
        Rule::FalseFilters => 4,
        Rule::FoldExprs => 5,
        Rule::MergeFilter => 6,
        Rule::Pred2JoinKey => 7,
        Rule::PredPdJoin => 8,
        Rule::PredPdProj => 9,
        Rule::PredPdSort => 10,
        Rule::SplitAnd => 11,
    }
}

/// The number of rules.
pub open spec fn rule_count() -> nat {
    12
}

pub open spec fn rule_name(r: Rule) -> Seq<char> {
    match r {
        Rule::DedupExprs => "DEDUPEXPRS"@,
        Rule::EmptyJoin => "EMPTYJOIN"@,
        Rule::EmptyLimit => "EMPTYLIMIT"@,
        Rule::EmptySort => "EMPTYSORT"@,
        Rule::FalseFilters => "FALSEFILTERS"@,
        Rule::FoldExprs => "FOLDEXPRS"@,
        Rule::MergeFilter => "MERGEFILTER"@,
        Rule::Pred2JoinKey => "PRED2JOINKEY"@,
        Rule::PredPdJoin => "PREDPDJOIN"@,
        Rule::PredPdProj => "PREDPDPROJ"@,
        Rule::PredPdSort => "PREDPDSORT"@,
        Rule::SplitAnd => "SPLITAND"@,
    }
}

impl Rule {
    /// The rule's name.
    pub fn name(&self) -> (r: &'static str)
        ensures
            r@ == rule_name(*self),
    {
        match self {
            Rule::DedupExprs => "DEDUPEXPRS",
            Rule::EmptyJoin => "EMPTYJOIN",
            Rule::EmptyLimit => "EMPTYLIMIT",
            Rule::EmptySort => "EMPTYSORT",
            Rule::FalseFilters => "FALSEFILTERS",
            Rule::FoldExprs => "FOLDEXPRS",
            Rule::MergeFilter => "MERGEFILTER",
            Rule::Pred2JoinKey => "PRED2JOINKEY",
            Rule::PredPdJoin => "PREDPDJOIN",
            Rule::PredPdProj => "PREDPDPROJ",
            Rule::PredPdSort => "PREDPDSORT",
            Rule::SplitAnd => "SPLITAND",
        }
    }

    /// The rule's position in the alphabetical order of names.
    pub fn index(&self) -> (r: usize)
        ensures
            r == rule_index(*self),
    {
        match self {
            Rule::DedupExprs => 0,
            Rule::EmptyJoin => 1,
            Rule::EmptyLimit => 2,
            Rule::EmptySort => 3,
            Rule::FalseFilters => 4,
            Rule::FoldExprs => 5,
            Rule::MergeFilter => 6,
            Rule::Pred2JoinKey => 7,
            Rule::PredPdJoin => 8,
            Rule::PredPdProj => 9,
            Rule::PredPdSort => 10,
            Rule::SplitAnd => 11,
        }
    }
}

/// Folding would change one of the node's expressions (filters,
/// projections and sort keys carry expressions).
pub open spec fn fold_changes_node(node: SPlan) -> bool {
    match node {
        SPlan::Filter { predicate, .. } => fold(predicate) != predicate,
        SPlan::Project { exprs, .. } => exists|i: int|
            0 <= i < exprs.len() && fold(#[trigger] exprs[i]) != exprs[i],
        SPlan::Sort { keys, .. } => exists|i: int|
            0 <= i < keys.len() && fold(#[trigger] keys[i].0) != keys[i].0,
        _ => false,
    }
}

/// Redundancy removal would change one of the node's expressions.
pub open spec fn dedup_changes_node(node: SPlan) -> bool {
    match node {
        SPlan::Filter { predicate, .. } => dedup(predicate) != predicate,
        SPlan::Project { exprs, .. } => exists|i: int|
            0 <= i < exprs.len() && dedup(#[trigger] exprs[i]) != exprs[i],
        SPlan::Sort { keys, .. } => exists|i: int|
            0 <= i < keys.len() && dedup(#[trigger] keys[i].0) != keys[i].0,
        _ => false,
    }
}

/// The node with each of its expressions folded.
pub open spec fn fold_node(node: SPlan) -> SPlan {
    match node {
        SPlan::Filter { input, predicate } => SPlan::Filter { input, predicate: fold(predicate) },
        SPlan::Project { input, exprs } => SPlan::Project {
            input,
            exprs: exprs.map_values(|e: SExpr| fold(e)),
        },
        SPlan::Sort { input, keys } => SPlan::Sort {
            input,
            keys: keys.map_values(|k: (SExpr, bool)| (fold(k.0), k.1)),
        },
        _ => node,
    }
}

/// The node with redundancy removed from each of its expressions.
pub open spec fn dedup_node(node: SPlan) -> SPlan {
    match node {
        SPlan::Filter { input, predicate } => SPlan::Filter { input, predicate: dedup(predicate) },
        SPlan::Project { input, exprs } => SPlan::Project {
            input,
            exprs: exprs.map_values(|e: SExpr| dedup(e)),
        },
        SPlan::Sort { input, keys } => SPlan::Sort {
            input,
            keys: keys.map_values(|k: (SExpr, bool)| (dedup(k.0), k.1)),
        },
        _ => node,
    }
}

/// Nested filters holding `cs[0]` outermost down to the last conjunct
/// innermost, over `input`.
pub open spec fn stack_filters(input: SPlan, cs: Seq<SExpr>) -> SPlan
    decreases cs.len(),
{
    if cs.len() == 0 {
        input
    } else {
        SPlan::Filter { input: Box::new(stack_filters(input, cs.drop_first())), predicate: cs[0] }
    }
}

/// The side a predicate fits: `Some(true)` left, `Some(false)` right.
pub open spec fn side_of(pred: SExpr, left: SPlan, right: SPlan) -> Option<bool> {
    match classify(pred, rels_of(left), rels_of(right)) {
        ConjunctClass::Left => Some(true),
        ConjunctClass::Right => Some(false),
        _ => None,
    }
}

/// Whether a rule applies at a node.
pub open spec fn rule_matches(r: Rule, node: SPlan) -> bool {
    match r {
        Rule::FoldExprs => fold_changes_node(node),
        Rule::DedupExprs => dedup_changes_node(node),
        Rule::FalseFilters => node matches SPlan::Filter { predicate, .. } && predicate == SExpr::Bool(false),
        Rule::EmptySort => node matches SPlan::Sort { input, .. } && *input is EmptyScan,
        Rule::EmptyLimit => node matches SPlan::Limit { input, .. } && *input is EmptyScan,
        Rule::EmptyJoin => node matches SPlan::Join { left, right, .. } && (*left is EmptyScan
            || *right is EmptyScan),
        Rule::SplitAnd => node matches SPlan::Filter { predicate, .. } && predicate is And,
        Rule::PredPdSort => node matches SPlan::Filter { input, .. } && *input is Sort,
        Rule::PredPdProj => node matches SPlan::Filter { input, .. } && *input is Project,
        Rule::MergeFilter => node matches SPlan::Filter { input, .. } && *input is Filter,
        Rule::PredPdJoin => node matches SPlan::Filter { input, predicate } && (*input matches SPlan::Join {
            left,
            right,
            ..
        } && side_of(predicate, *left, *right) is Some),
        Rule::Pred2JoinKey => node matches SPlan::Filter { input, predicate } && (*input matches SPlan::Join {
            left,
            right,
            ..
        } && classify(predicate, rels_of(*left), rels_of(*right)) is Key),
    }
}

/// What a rule makes of a node it matches.
pub open spec fn rule_apply(r: Rule, node: SPlan) -> SPlan {
    match r {
        Rule::FoldExprs => fold_node(node),
        Rule::DedupExprs => dedup_node(node),
        Rule::FalseFilters => match node {
            SPlan::Filter { input, .. } => SPlan::EmptyScan { rels: rels_of(*input) },
            _ => node,
        },
        Rule::EmptySort => match node {
            SPlan::Sort { input, .. } => *input,
            _ => node,
        },
        Rule::EmptyLimit => match node {
            SPlan::Limit { input, .. } => *input,
            _ => node,
        },
        Rule::EmptyJoin => match node {
            SPlan::Join { left, right, .. } => SPlan::EmptyScan {
                rels: sorted_set(rels_of(*left) + rels_of(*right)),
            },
            _ => node,
        },
        Rule::SplitAnd => match node {
            SPlan::Filter { input, predicate: SExpr::And(cs) } => stack_filters(*input, cs),
            _ => node,
        },
        Rule::PredPdSort => match node {
            SPlan::Filter { input, predicate } => match *input {
                SPlan::Sort { input: inner, keys } => SPlan::Sort {
                    input: Box::new(SPlan::Filter { input: inner, predicate }),
                    keys,
                },
                _ => node,
            },
            _ => node,
        },
        Rule::PredPdProj => match node {
            SPlan::Filter { input, predicate } => match *input {
                SPlan::Project { input: inner, exprs } => SPlan::Project {
                    input: Box::new(SPlan::Filter { input: inner, predicate }),
                    exprs,
                },
                _ => node,
            },
            _ => node,
        },
        Rule::MergeFilter => match node {
            SPlan::Filter { input, predicate } => match *input {
                SPlan::Filter { input: inner_input, predicate: inner_predicate } => SPlan::Filter {
                    input: inner_input,
                    predicate: SExpr::And(split_conj(predicate) + split_conj(inner_predicate)),
                },
                _ => node,
            },
            _ => node,
        },
        Rule::PredPdJoin => match node {
            SPlan::Filter { input, predicate } => match *input {
                SPlan::Join { left, right, on, filter } => match side_of(predicate, *left, *right) {
                    Some(true) => SPlan::Join {
                        left: Box::new(SPlan::Filter { input: left, predicate }),
                        right,
                        on,
                        filter,
                    },
                    _ => SPlan::Join {
                        left,
                        right: Box::new(SPlan::Filter { input: right, predicate }),
                        on,
                        filter,
                    },
                },
                _ => node,
            },
            _ => node,
        },
        Rule::Pred2JoinKey => match node {
            SPlan::Filter { input, predicate } => match *input {
                SPlan::Join { left, right, on, filter } => match classify(
                    predicate,
                    rels_of(*left),
                    rels_of(*right),
                ) {
                    ConjunctClass::Key(a, b) => SPlan::Join { left, right, on: on.insert(0, (a, b)), filter },
                    _ => SPlan::Join { left, right, on, filter },
                },
                _ => node,
            },
            _ => node,
        },
    }
}

fn fold_changes(e: &Expr) -> (r: bool)
    ensures
        r == (fold(e@) != e@),
{
    let f = fold_expr(e.clone());
    !expr_eq(&f, e)
}

fn dedup_changes(e: &Expr) -> (r: bool)
    ensures
        r == (dedup(e@) != e@),
{
    let f = dedup_expr(e.clone());
    !expr_eq(&f, e)
}

/// Whether rewriting the node's expressions by folding (`folding`) or by
/// redundancy removal would change one of them.
#[verifier::loop_isolation(false)]
fn node_exprs_change(node: &Plan, folding: bool) -> (r: bool)
    ensures
        folding ==> r == fold_changes_node(node@),
        !folding ==> r == dedup_changes_node(node@),
{
    match node {
        Plan::Filter { predicate, .. } => {
            if folding {
                fold_changes(predicate)
            } else {
                dedup_changes(predicate)
            }
        },
        Plan::Project { exprs, .. } => {
            let ghost vs = view_exprs(exprs@);
            proof {
                lemma_view_exprs(exprs@);
            }
            let mut i: usize = 0;
            while i < exprs.len()
                invariant
                    i <= exprs@.len(),
                    vs == view_exprs(exprs@),
                    vs.len() == exprs@.len(),
                    forall|j: int| 0 <= j < exprs@.len() ==> #[trigger] vs[j] == view_expr(exprs@[j]),
                    folding ==> forall|j: int| 0 <= j < i ==> fold(#[trigger] vs[j]) == vs[j],
                    !folding ==> forall|j: int| 0 <= j < i ==> dedup(#[trigger] vs[j]) == vs[j],
                decreases exprs.len() - i,
            {
                let c = if folding {
                    fold_changes(&exprs[i])
                } else {
                    dedup_changes(&exprs[i])
                };
                if c {
                    proof {
                        assert(vs[i as int] == exprs@[i as int]@);
                        if folding {
                            assert(fold(vs[i as int]) != vs[i as int]);
                        } else {
                            assert(dedup(vs[i as int]) != vs[i as int]);
                        }
                    }
                    return true;
                }
                i = i + 1;
            }
            false
        },
        Plan::Sort { keys, .. } => {
            let ghost ks = view_keys(keys@);
            let mut i: usize = 0;
            while i < keys.len()
                invariant
                    i <= keys@.len(),
                    ks == view_keys(keys@),
                    folding ==> forall|j: int| 0 <= j < i ==> fold(#[trigger] ks[j].0) == ks[j].0,
                    !folding ==> forall|j: int| 0 <= j < i ==> dedup(#[trigger] ks[j].0) == ks[j].0,
                decreases keys.len() - i,
            {
                let c = if folding {
                    fold_changes(&keys[i].0)
                } else {
                    dedup_changes(&keys[i].0)
                };
                if c {
                    proof {
                        assert(ks[i as int].0 == keys@[i as int].0@);
                        if folding {
                            assert(fold(ks[i as int].0) != ks[i as int].0);
                        } else {
                            assert(dedup(ks[i as int].0) != ks[i as int].0);
                        }
                    }
                    return true;
                }
                i = i + 1;
            }
            false
        },
        _ => false,
    }
}

fn node_rewrite_exprs(node: Plan, folding: bool) -> (r: Plan)
    ensures
        folding ==> r@ == fold_node(node@),
        !folding ==> r@ == dedup_node(node@),
{
    match node {
        Plan::Filter { input, predicate } => Plan::Filter {
            input,
            predicate: if folding {
                fold_expr(predicate)
            } else {
                dedup_expr(predicate)
            },
        },
        Plan::Project { input, exprs } => {
            let exprs = if folding {
                fold_exprs(exprs)
            } else {
                dedup_exprs(exprs)
            };
            Plan::Project { input, exprs }
        },
        Plan::Sort { input, keys } => {
            let keys = if folding {
                fold_keys(keys)
            } else {
                dedup_keys(keys)
            };
            Plan::Sort { input, keys }
        },
        other => other,
    }
}

/// The side a predicate fits (see `side_of`).
fn side(predicate: &Expr, left: &Plan, right: &Plan) -> (r: Option<bool>)
    ensures
        r == side_of(predicate@, left@, right@),
{
    let lr = plan_rels(left);
    let rr = plan_rels(right);
    match classify_conjunct(predicate, &lr, &rr) {
        ConjunctClass::Left => Some(true),
        ConjunctClass::Right => Some(false),
        _ => None,
    }
}

/// The join key a predicate forms, oriented (left, right), if any.
fn key(predicate: &Expr, left: &Plan, right: &Plan) -> (r: ConjunctClass)
    ensures
        r == classify(predicate@, rels_of(left@), rels_of(right@)),
{
    let lr = plan_rels(left);
    let rr = plan_rels(right);
    classify_conjunct(predicate, &lr, &rr)
}

/// Whether a rule applies at a node (see `rule_matches`).
pub fn matches_at(r: Rule, node: &Plan) -> (b: bool)
    ensures
        b == rule_matches(r, node@),
{
    proof {
        reveal_with_fuel(view_plan, 2);
    }
    match r {
        Rule::FoldExprs => node_exprs_change(node, true),
        Rule::DedupExprs => node_exprs_change(node, false),
        Rule::FalseFilters => match node {
            Plan::Filter { predicate, .. } => matches!(predicate, Expr::Bool(false)),
            _ => false,
        },
        Rule::EmptySort => match node {
            Plan::Sort { input, .. } => matches!(**input, Plan::EmptyScan { .. }),
            _ => false,
        },
        Rule::EmptyLimit => match node {
            Plan::Limit { input, .. } => matches!(**input, Plan::EmptyScan { .. }),
            _ => false,
        },
        Rule::EmptyJoin => match node {
            Plan::Join { left, right, .. } => matches!(**left, Plan::EmptyScan { .. }) || matches!(
                **right,
                Plan::EmptyScan { .. }
            ),
            _ => false,
        },
        Rule::SplitAnd => match node {
            Plan::Filter { predicate, .. } => matches!(predicate, Expr::And(_)),
            _ => false,
        },
        Rule::PredPdSort => match node {
            Plan::Filter { input, .. } => matches!(**input, Plan::Sort { .. }),
            _ => false,
        },
        Rule::PredPdProj => match node {
            Plan::Filter { input, .. } => matches!(**input, Plan::Project { .. }),
            _ => false,
        },
        Rule::MergeFilter => match node {
            Plan::Filter { input, .. } => matches!(**input, Plan::Filter { .. }),
            _ => false,
        },
        Rule::PredPdJoin => match node {
            Plan::Filter { input, predicate } => match &**input {
                Plan::Join { left, right, .. } => side(predicate, left, right).is_some(),
                _ => false,
            },
            _ => false,
        },
        Rule::Pred2JoinKey => match node {
            Plan::Filter { input, predicate } => match &**input {
                Plan::Join { left, right, .. } => matches!(key(predicate, left, right), ConjunctClass::Key(..)),
                _ => false,
            },
            _ => false,
        },
    }
}

/// Nested filters over `input`, the first conjunct outermost (see
/// `stack_filters`).
fn stack(input: Plan, cs: Vec<Expr>) -> (r: Plan)
    ensures
        r@ == stack_filters(input@, view_exprs(cs@)),
{
    let ghost vs = view_exprs(cs@);
    let ghost iv = input@;
    let n = cs.len();
    proof {
        lemma_view_exprs(cs@);
    }
    let mut rest = cs;
    let mut acc = input;
    proof {
        assert(vs.skip(n as int).len() == 0);
    }
    while rest.len() > 0
        invariant
            vs.len() == n,
            rest@.len() <= n,
            forall|j: int| 0 <= j < rest@.len() ==> #[trigger] view_expr(rest@[j]) == vs[j],
            acc@ == stack_filters(iv, vs.skip(rest@.len() as int)),
        decreases rest.len(),
    {
        let k = rest.len();
        let c = rest.pop().unwrap();
        proof {
            assert(view_expr(c) == vs[k - 1]);
            let tail = vs.skip(k - 1);
            assert(tail[0] == vs[k - 1]);
            assert(tail.drop_first() =~= vs.skip(k as int));
        }
        acc = Plan::Filter { input: Box::new(acc), predicate: c };
    }
    proof {
        assert(vs.skip(0) =~= vs);
    }
    acc
}

/// What a rule makes of a node it matches (see `rule_apply`).
pub fn apply_at(r: Rule, node: Plan) -> (out: Plan)
    ensures
        out@ == rule_apply(r, node@),
{
    proof {
        reveal_with_fuel(view_plan, 2);
    }
    match r {
        Rule::FoldExprs => node_rewrite_exprs(node, true),
        Rule::DedupExprs => node_rewrite_exprs(node, false),
        Rule::FalseFilters => match node {
            Plan::Filter { input, .. } => Plan::EmptyScan { rels: plan_rels(&input) },
            other => other,
        },
        Rule::EmptySort => match node {
            Plan::Sort { input, .. } => *input,
            other => other,
        },
        Rule::EmptyLimit => match node {
            Plan::Limit { input, .. } => *input,
            other => other,
        },
        Rule::EmptyJoin => match node {
            Plan::Join { left, right, .. } => {
                let mut rels = plan_rels(&left);
                let mut more = plan_rels(&right);
                rels.append(&mut more);
                Plan::EmptyScan { rels: sort_dedup(rels) }
            },
            other => other,
        },
        Rule::SplitAnd => match node {
            Plan::Filter { input, predicate: Expr::And(cs) } => stack(*input, cs),
            other => other,
        },
        Rule::PredPdSort => match node {
            Plan::Filter { input, predicate } => match *input {
                Plan::Sort { input: inner, keys } => Plan::Sort {
                    input: Box::new(Plan::Filter { input: inner, predicate }),
                    keys,
                },
                other => Plan::Filter { input: Box::new(other), predicate },
            },
            other => other,
        },
        Rule::PredPdProj => match node {
            Plan::Filter { input, predicate } => match *input {
                Plan::Project { input: inner, exprs } => Plan::Project {
                    input: Box::new(Plan::Filter { input: inner, predicate }),
                    exprs,
                },
                other => Plan::Filter { input: Box::new(other), predicate },
            },
            other => other,
        },
        Rule::MergeFilter => match node {
            Plan::Filter { input, predicate } => match *input {
                Plan::Filter { input: inner_input, predicate: inner_predicate } => {
                    let mut cs = split_conjunctions(predicate);
                    let mut more = split_conjunctions(inner_predicate);
                    proof {
                        lemma_view_exprs(cs@);
                        lemma_view_exprs(more@);
                    }
                    let ghost (a, b) = (view_exprs(cs@), view_exprs(more@));
                    cs.append(&mut more);
                    proof {
                        lemma_view_exprs(cs@);
                        assert(view_exprs(cs@) =~= a + b);
                    }
                    Plan::Filter { input: inner_input, predicate: Expr::And(cs) }
                },
                other => Plan::Filter { input: Box::new(other), predicate },
            },
            other => other,
        },
        Rule::PredPdJoin => match node {
            Plan::Filter { input, predicate } => match *input {
                Plan::Join { left, right, on, filter } => match side(&predicate, &left, &right) {
                    Some(true) => Plan::Join {
                        left: Box::new(Plan::Filter { input: left, predicate }),
                        right,
                        on,
                        filter,
                    },
                    _ => Plan::Join {
                        left,
                        right: Box::new(Plan::Filter { input: right, predicate }),
                        on,
                        filter,
                    },
                },
                other => Plan::Filter { input: Box::new(other), predicate },
            },
            other => other,
        },
        Rule::Pred2JoinKey => match node {
            Plan::Filter { input, predicate } => match *input {
                Plan::Join { left, right, on, filter } => {
                    let mut on = on;
                    match key(&predicate, &left, &right) {
                        ConjunctClass::Key(a, b) => {
                            on.insert(0, (a, b));
                        },
                        _ => {},
                    }
                    Plan::Join { left, right, on, filter }
                },
                other => Plan::Filter { input: Box::new(other), predicate },
            },
            other => other,
        },
    }
}


/// How a class reacts to a firing: `Sequential` retries the same rule at
/// the node, `Priority` restarts from its first rule.
#[derive(Debug, Clone, Copy, PartialEq, Eq, Structural)]
pub enum Scheme {
    Sequential,
    Priority,
}

/// A class of rules driven together, and the number of rule
/// considerations it may spend before it stops.
pub struct RuleClass {
    pub name: &'static str,
    pub scheme: Scheme,
    pub rules: Vec<Rule>,
    pub budget: usize,
}

/// What the engine reads of a class.
pub struct ClassModel {
    pub rules: Seq<Rule>,
    pub priority: bool,
    pub budget: nat,
}

impl View for RuleClass {
    type V = ClassModel;

    open spec fn view(&self) -> ClassModel {
        ClassModel {
            rules: self.rules@,
            priority: self.scheme == Scheme::Priority,
            budget: self.budget as nat,
        }
    }
}

/// Considerations still allowed when `done` have been spent.
pub open spec fn budget_left(budget: nat, done: nat) -> nat {
    if done < budget {
        (budget - done) as nat
    } else {
        0
    }
}

/// Some consideration in `ev` fired its rule.
pub open spec fn any_fired(ev: Seq<(Rule, bool)>) -> bool {
    exists|j: int| 0 <= j < ev.len() && (#[trigger] ev[j]).1
}

/// The rules of a class tried at one node from rule `i` on, with `done`
/// considerations spent: each consideration is an event (rule, fired).
/// After a firing a sequential class tries the same rule again, a
/// priority class its first rule; it stops past the last rule or when
/// the budget is spent.
pub open spec fn rules_at_spec(node: SPlan, c: ClassModel, i: nat, done: nat) -> (SPlan, Seq<(Rule, bool)>)
    decreases budget_left(c.budget, done),
{
    if i >= c.rules.len() || done >= c.budget {
        (node, Seq::empty())
    } else {
        let r = c.rules[i as int];
        if rule_matches(r, node) {
            let next = rules_at_spec(
                rule_apply(r, node),
                c,
                if c.priority {
                    0
                } else {
                    i
                },
                done + 1,
            );
            (next.0, seq![(r, true)] + next.1)
        } else {
            let next = rules_at_spec(node, c, i + 1, done + 1);
            (next.0, seq![(r, false)] + next.1)
        }
    }
}

/// Without a consideration the node is untouched, and considerations
/// never overrun the budget.
pub proof fn lemma_rules_at(node: SPlan, c: ClassModel, i: nat, done: nat)
    ensures
        rules_at_spec(node, c, i, done).1.len() == 0 ==> rules_at_spec(node, c, i, done).0 == node,
        rules_at_spec(node, c, i, done).1.len() > 0 ==> done + rules_at_spec(node, c, i, done).1.len()
            <= c.budget,
    decreases budget_left(c.budget, done),
{
    if i >= c.rules.len() || done >= c.budget {
    } else {
        let r = c.rules[i as int];
        if rule_matches(r, node) {
            lemma_rules_at(rule_apply(r, node), c, if c.priority { 0 } else { i }, done + 1);
        } else {
            lemma_rules_at(node, c, i + 1, done + 1);
        }
    }
}

/// One sweep: the class's rules at the node, then a sweep of each child
/// of what they left, left before right.
pub open spec fn sweep_spec(node: SPlan, c: ClassModel, done: nat) -> (SPlan, Seq<(Rule, bool)>)
    decreases budget_left(c.budget, done), node,
{
    let first = rules_at_spec(node, c, 0, done);
    let d1 = done + first.1.len();
    proof {
        lemma_rules_at(node, c, 0, done);
    }
    match first.0 {
        SPlan::Filter { input, predicate } => {
            let sub = sweep_spec(*input, c, d1);
            (SPlan::Filter { input: Box::new(sub.0), predicate }, first.1 + sub.1)
        },
        SPlan::Project { input, exprs } => {
            let sub = sweep_spec(*input, c, d1);
            (SPlan::Project { input: Box::new(sub.0), exprs }, first.1 + sub.1)
        },
        SPlan::Sort { input, keys } => {
            let sub = sweep_spec(*input, c, d1);
            (SPlan::Sort { input: Box::new(sub.0), keys }, first.1 + sub.1)
        },
        SPlan::Limit { input, n } => {
            let sub = sweep_spec(*input, c, d1);
            (SPlan::Limit { input: Box::new(sub.0), n }, first.1 + sub.1)
        },
        SPlan::Join { left, right, on, filter } => {
            let l = sweep_spec(*left, c, d1);
            let r = sweep_spec(*right, c, d1 + l.1.len());
            (
                SPlan::Join { left: Box::new(l.0), right: Box::new(r.0), on, filter },
                first.1 + l.1 + r.1,
            )
        },
        _ => first,
    }
}

/// Sweeps until one changes nothing, or until the budget is spent after
/// a sweep that fired.
pub open spec fn run_spec(node: SPlan, c: ClassModel, done: nat) -> (SPlan, Seq<(Rule, bool)>)
    decreases budget_left(c.budget, done),
{
    let s = sweep_spec(node, c, done);
    if !any_fired(s.1) || done + s.1.len() >= c.budget {
        s
    } else {
        let rest = run_spec(s.0, c, done + s.1.len());
        (rest.0, s.1 + rest.1)
    }
}

/// The considerations of rule `r` among the events.
pub open spec fn considered_count(ev: Seq<(Rule, bool)>, r: Rule) -> nat
    decreases ev.len(),
{
    if ev.len() == 0 {
        0
    } else {
        considered_count(ev.drop_last(), r) + if ev.last().0 == r {
            1nat
        } else {
            0nat
        }
    }
}

/// The firings of rule `r` among the events.
pub open spec fn fired_count(ev: Seq<(Rule, bool)>, r: Rule) -> nat
    decreases ev.len(),
{
    if ev.len() == 0 {
        0
    } else {
        fired_count(ev.drop_last(), r) + if ev.last() == (r, true) {
            1nat
        } else {
            0nat
        }
    }
}

/// The rules that fired, in order.
pub open spec fn fired_rules(ev: Seq<(Rule, bool)>) -> Seq<Rule>
    decreases ev.len(),
{
    if ev.len() == 0 {
        Seq::empty()
    } else if ev.last().1 {
        fired_rules(ev.drop_last()).push(ev.last().0)
    } else {
        fired_rules(ev.drop_last())
    }
}

/// The last six firings (all of them when there are fewer).
pub open spec fn last_firings(ev: Seq<(Rule, bool)>) -> Seq<Rule> {
    let f = fired_rules(ev);
    if f.len() > 6 {
        f.skip(f.len() - 6)
    } else {
        f
    }
}

pub proof fn lemma_counts_bounded(ev: Seq<(Rule, bool)>, r: Rule)
    ensures
        fired_count(ev, r) <= considered_count(ev, r) <= ev.len(),
    decreases ev.len(),
{
    if ev.len() > 0 {
        lemma_counts_bounded(ev.drop_last(), r);
    }
}

/// The bookkeeping of a run: the considerations made, per rule the
/// considerations and firings (indexed by `rule_index`), and the last
/// six firings. `trace` is the run's history of events.
pub struct RunState {
    pub considered: usize,
    pub counts: Vec<(usize, usize)>,
    pub log: Vec<Rule>,
    pub trace: Ghost<Seq<(Rule, bool)>>,
}

impl RunState {
    /// The counters agree with the history of events.
    pub open spec fn wf(&self) -> bool {
        &&& self.considered == self.trace@.len()
        &&& self.counts@.len() == rule_count()
        &&& forall|r: Rule|
            (#[trigger] self.counts@[rule_index(r) as int]).0 == considered_count(self.trace@, r)
                && self.counts@[rule_index(r) as int].1 == fired_count(self.trace@, r)
        &&& self.log@ == last_firings(self.trace@)
    }

    /// A run that has considered nothing yet.
    pub fn new() -> (s: Self)
        ensures
            s.wf(),
            s.trace@ == Seq::<(Rule, bool)>::empty(),
    {
        let mut counts: Vec<(usize, usize)> = Vec::new();
        let mut k: usize = 0;
        while k < 12
            invariant
                k <= 12,
                counts@.len() == k,
                forall|j: int| 0 <= j < k ==> #[trigger] counts@[j] == (0usize, 0usize),
            decreases 12 - k,
        {
            counts.push((0, 0));
            k = k + 1;
        }
        let s = RunState { considered: 0, counts, log: Vec::new(), trace: Ghost(Seq::empty()) };
        proof {
            assert forall|r: Rule| (#[trigger] s.counts@[rule_index(r) as int]).0 == considered_count(
                s.trace@,
                r,
            ) && s.counts@[rule_index(r) as int].1 == fired_count(s.trace@, r) by {
                assert(rule_index(r) < 12);
            }
            assert(last_firings(s.trace@) =~= Seq::<Rule>::empty());
        }
        s
    }

    /// Records one consideration of `r`, and whether it fired.
    fn note(&mut self, r: Rule, fired: bool)
        requires
            old(self).wf(),
            old(self).considered < usize::MAX,
        ensures
            final(self).wf(),
            final(self).trace@ == old(self).trace@.push((r, fired)),
    {
        let ghost t0 = self.trace@;
        let ghost t1 = t0.push((r, fired));
        let k = r.index();
        proof {
            lemma_counts_bounded(t0, r);
            assert(self.counts@[rule_index(r) as int].0 == considered_count(t0, r));
            assert(t1.drop_last() =~= t0);
        }
        let (c, f) = self.counts[k];
        let nf: usize = if fired {
            f + 1
        } else {
            f
        };
        self.counts.set(k, (c + 1, nf));
        self.considered = self.considered + 1;
        if fired {
            self.log.push(r);
            if self.log.len() > 6 {
                self.log.remove(0);
            }
        }
        self.trace = Ghost(t1);
        proof {
            assert forall|q: Rule| (#[trigger] self.counts@[rule_index(q) as int]).0
                == considered_count(t1, q) && self.counts@[rule_index(q) as int].1 == fired_count(
                t1,
                q,
            ) by {
                if q != r {
                    assert(rule_index(q) != rule_index(r));
                }
            }
            let f0 = fired_rules(t0);
            if fired {
                assert(fired_rules(t1) =~= f0.push(r));
                if f0.len() > 6 {
                    assert(self.log@ =~= f0.push(r).skip(f0.len() + 1 - 6));
                } else if f0.len() == 6 {
                    assert(self.log@ =~= f0.push(r).skip(1));
                } else {
                    assert(self.log@ =~= f0.push(r));
                }
            } else {
                assert(fired_rules(t1) =~= f0);
            }
        }
    }
}

pub proof fn lemma_any_fired_concat(a: Seq<(Rule, bool)>, b: Seq<(Rule, bool)>)
    ensures
        any_fired(a + b) == (any_fired(a) || any_fired(b)),
{
    if any_fired(a) {
        let j = choose|j: int| 0 <= j < a.len() && (#[trigger] a[j]).1;
        assert((a + b)[j] == a[j]);
    }
    if any_fired(b) {
        let j = choose|j: int| 0 <= j < b.len() && (#[trigger] b[j]).1;
        assert((a + b)[a.len() + j] == b[j]);
    }
    if any_fired(a + b) {
        let j = choose|j: int| 0 <= j < (a + b).len() && (#[trigger] (a + b)[j]).1;
        if j < a.len() {
            assert(a[j] == (a + b)[j]);
        } else {
            assert(b[j - a.len()] == (a + b)[j]);
        }
    }
}

/// Tries the class's rules at one node (see `rules_at_spec`).
fn apply_rules_at(node: Plan, class: &RuleClass, state: &mut RunState) -> (r: (Plan, bool))
    requires
        old(state).wf(),
        old(state).considered <= class.budget,
    ensures
        final(state).wf(),
        final(state).considered <= class.budget,
        ({
            let s = rules_at_spec(node@, class@, 0, old(state).considered as nat);
            &&& r.0@ == s.0
            &&& r.1 == any_fired(s.1)
            &&& final(state).trace@ == old(state).trace@ + s.1
            &&& s.1.len() == 0 ==> r.0 == node
        }),
{
    let ghost c = class@;
    let ghost t0 = state.trace@;
    let ghost node_in = node;
    let ghost target = rules_at_spec(node@, c, 0, state.considered as nat);
    let ghost mut evs: Seq<(Rule, bool)> = Seq::empty();
    let mut node = node;
    let mut i: usize = 0;
    let mut any = false;
    proof {
        assert(t0 + evs =~= t0);
        assert(target.1 =~= evs + target.1);
    }
    while i < class.rules.len() && state.considered < class.budget
        invariant
            state.wf(),
            state.considered <= class.budget,
            c == class@,
            i <= class.rules@.len(),
            state.trace@ == t0 + evs,
            target.0 == rules_at_spec(node@, c, i as nat, state.considered as nat).0,
            target.1 == evs + rules_at_spec(node@, c, i as nat, state.considered as nat).1,
            any == any_fired(evs),
            evs.len() == 0 ==> node == node_in,
        decreases class.budget - state.considered,
    {
        let rule = class.rules[i];
        let m = matches_at(rule, &node);
        let ghost before = node@;
        let ghost rest = rules_at_spec(node@, c, i as nat, state.considered as nat).1;
        state.note(rule, m);
        proof {
            lemma_any_fired_concat(evs, seq![(rule, m)]);
            assert(evs + seq![(rule, m)] =~= evs.push((rule, m)));
            assert(seq![(rule, m)][0] == (rule, m));
            evs = evs.push((rule, m));
        }
        if m {
            node = apply_at(rule, node);
            any = true;
            match class.scheme {
                Scheme::Priority => {
                    i = 0;
                },
                Scheme::Sequential => {},
            }
        } else {
            i = i + 1;
        }
        proof {
            let next = rules_at_spec(node@, c, i as nat, state.considered as nat).1;
            assert(rest == seq![(rule, m)] + next);
            assert(target.1 =~= evs + next);
            assert(state.trace@ =~= t0 + evs);
            assert(evs[evs.len() - 1] == (rule, m));
        }
    }
    proof {
        assert(target.1 =~= evs);
        assert(state.trace@ =~= t0 + target.1);
    }
    (node, any)
}

/// One sweep of the class over the tree (see `sweep_spec`).
fn sweep(node: Plan, class: &RuleClass, state: &mut RunState) -> (r: (Plan, bool))
    requires
        old(state).wf(),
        old(state).considered <= class.budget,
    ensures
        final(state).wf(),
        final(state).considered <= class.budget,
        ({
            let s = sweep_spec(node@, class@, old(state).considered as nat);
            &&& r.0@ == s.0
            &&& r.1 == any_fired(s.1)
            &&& final(state).trace@ == old(state).trace@ + s.1
        }),
    decreases budget_left(class.budget as nat, old(state).considered as nat), node,
{
    let ghost c = class@;
    let ghost t0 = state.trace@;
    let ghost done = state.considered as nat;
    proof {
        lemma_rules_at(node@, c, 0, done);
    }
    let ghost first = rules_at_spec(node@, c, 0, done);
    let (n1, f1) = apply_rules_at(node, class, state);
    let ghost t1 = state.trace@;
    let ghost d1 = state.considered as nat;
    let ghost spec_out = sweep_spec(node@, c, done);
    proof {
        reveal_with_fuel(view_plan, 2);
        assert(d1 == done + first.1.len());
    }
    match n1 {
        Plan::Filter { input, predicate } => {
            let (child, cf) = sweep(*input, class, state);
            proof {
                lemma_any_fired_concat(first.1, sweep_spec(input@, c, d1).1);
                assert(state.trace@ =~= t0 + spec_out.1);
            }
            (Plan::Filter { input: Box::new(child), predicate }, f1 || cf)
        },
        Plan::Project { input, exprs } => {
            let (child, cf) = sweep(*input, class, state);
            proof {
                lemma_any_fired_concat(first.1, sweep_spec(input@, c, d1).1);
                assert(state.trace@ =~= t0 + spec_out.1);
            }
            (Plan::Project { input: Box::new(child), exprs }, f1 || cf)
        },
        Plan::Sort { input, keys } => {
            let (child, cf) = sweep(*input, class, state);
            proof {
                lemma_any_fired_concat(first.1, sweep_spec(input@, c, d1).1);
                assert(state.trace@ =~= t0 + spec_out.1);
            }
            (Plan::Sort { input: Box::new(child), keys }, f1 || cf)
        },
        Plan::Limit { input, n } => {
            let (child, cf) = sweep(*input, class, state);
            proof {
                lemma_any_fired_concat(first.1, sweep_spec(input@, c, d1).1);
                assert(state.trace@ =~= t0 + spec_out.1);
            }
            (Plan::Limit { input: Box::new(child), n }, f1 || cf)
        },
        Plan::Join { left, right, on, filter } => {
            let (l, lf) = sweep(*left, class, state);
            let ghost el = sweep_spec(left@, c, d1).1;
            let (r, rf) = sweep(*right, class, state);
            let ghost er = sweep_spec(right@, c, d1 + el.len()).1;
            proof {
                lemma_any_fired_concat(first.1, el);
                lemma_any_fired_concat(first.1 + el, er);
                assert(state.trace@ =~= t0 + spec_out.1);
            }
            (Plan::Join { left: Box::new(l), right: Box::new(r), on, filter }, f1 || lf || rf)
        },
        other => (other, f1),
    }
}

/// Sweeps the class over the tree until a sweep fires nothing, or the
/// budget is spent (see `run_spec`); also says whether the run stopped on
/// its budget (see `run_tripped`).
pub fn run_class(root: Plan, class: &RuleClass) -> (r: (Plan, RunState, bool))
    ensures
        r.0@ == run_spec(root@, class@, 0).0,
        r.1.wf(),
        r.1.trace@ == run_spec(root@, class@, 0).1,
        r.1.considered <= class.budget,
        r.2 == run_tripped(root@, class@, 0),
{
    let ghost c = class@;
    let ghost target = run_spec(root@, c, 0);
    let ghost target_trip = run_tripped(root@, c, 0);
    let mut state = RunState::new();
    let mut root = root;
    let mut go = true;
    let mut tripped = false;
    proof {
        assert(target.1 =~= state.trace@ + target.1);
    }
    while go
        invariant
            state.wf(),
            state.considered <= class.budget,
            c == class@,
            go ==> target.0 == run_spec(root@, c, state.considered as nat).0,
            go ==> target.1 == state.trace@ + run_spec(root@, c, state.considered as nat).1,
            go ==> target_trip == run_tripped(root@, c, state.considered as nat),
            go ==> !tripped,
            !go ==> target.0 == root@ && target.1 == state.trace@ && target_trip == tripped,
        decreases class.budget - state.considered, if go {
            1nat
        } else {
            0nat
        },
    {
        let ghost done = state.considered as nat;
        let ghost t0 = state.trace@;
        let ghost s = sweep_spec(root@, c, done);
        let ghost whole = run_spec(root@, c, done);
        let (new_root, fired) = sweep(root, class, &mut state);
        root = new_root;
        if !fired {
            go = false;
            proof {
                assert(whole == s);
                assert(target.1 =~= state.trace@);
            }
        } else if state.considered >= class.budget {
            go = false;
            tripped = true;
            proof {
                assert(whole == s);
                assert(target.1 =~= state.trace@);
            }
        } else {
            proof {
                assert(whole.1 == s.1 + run_spec(root@, c, state.considered as nat).1);
                assert(target.1 =~= state.trace@ + run_spec(root@, c, state.considered as nat).1);
            }
        }
    }
    (root, state, tripped)
}

/// The rule at a position of the alphabetical order.
pub open spec fn rule_at_index(k: nat) -> Rule {
    if k == 0 {
        Rule::DedupExprs
    } else if k == 1 {
        Rule::EmptyJoin
    } else if k == 2 {
        Rule::EmptyLimit
    } else if k == 3 {
        Rule::EmptySort
    } else if k == 4 {
        Rule::FalseFilters
    } else if k == 5 {
        Rule::FoldExprs
    } else if k == 6 {
        Rule::MergeFilter
    } else if k == 7 {
        Rule::Pred2JoinKey
    } else if k == 8 {
        Rule::PredPdJoin
    } else if k == 9 {
        Rule::PredPdProj
    } else if k == 10 {
        Rule::PredPdSort
    } else {
        Rule::SplitAnd
    }
}

/// The rule at position `k` (below `rule_count()`).
fn rule_at(k: usize) -> (r: Rule)
    requires
        k < 12,
    ensures
        r == rule_at_index(k as nat),
        rule_index(r) == k,
{
    if k == 0 {
        Rule::DedupExprs
    } else if k == 1 {
        Rule::EmptyJoin
    } else if k == 2 {
        Rule::EmptyLimit
    } else if k == 3 {
        Rule::EmptySort
    } else if k == 4 {
        Rule::FalseFilters
    } else if k == 5 {
        Rule::FoldExprs
    } else if k == 6 {
        Rule::MergeFilter
    } else if k == 7 {
        Rule::Pred2JoinKey
    } else if k == 8 {
        Rule::PredPdJoin
    } else if k == 9 {
        Rule::PredPdProj
    } else if k == 10 {
        Rule::PredPdSort
    } else {
        Rule::SplitAnd
    }
}

pub open spec fn spaces(n: nat) -> Seq<char> {
    Seq::new(n, |i: int| ' ')
}

/// `s` left-aligned in a field of `w` characters.
pub open spec fn pad_right(s: Seq<char>, w: nat) -> Seq<char> {
    if s.len() < w {
        s + spaces((w - s.len()) as nat)
    } else {
        s
    }
}

/// `s` right-aligned in a field of `w` characters.
pub open spec fn pad_left(s: Seq<char>, w: nat) -> Seq<char> {
    if s.len() < w {
        spaces((w - s.len()) as nat) + s
    } else {
        s
    }
}

/// The report line of one rule: its name, considerations and firings.
pub open spec fn row_line(r: Rule, c: nat, f: nat) -> Seq<char> {
    "\n  "@ + pad_right(rule_name(r), 14) + " considered "@ + pad_left(dec_nat(c), 5) + "  fired "@
        + pad_left(dec_nat(f), 5)
}

/// The report line of one rule over a history of events.
pub open spec fn row_text(r: Rule, ev: Seq<(Rule, bool)>) -> Seq<char> {
    row_line(r, considered_count(ev, r), fired_count(ev, r))
}

/// The lines of the rules among the first `k` that were considered, in
/// the alphabetical order of their names.
pub open spec fn rows_text(ev: Seq<(Rule, bool)>, k: nat) -> Seq<char>
    decreases k,
{
    if k == 0 {
        Seq::empty()
    } else {
        rows_text(ev, (k - 1) as nat) + if considered_count(ev, rule_at_index((k - 1) as nat)) > 0 {
            row_text(rule_at_index((k - 1) as nat), ev)
        } else {
            Seq::empty()
        }
    }
}

/// Rule names joined by " -> ".
pub open spec fn names_joined(s: Seq<Rule>) -> Seq<char>
    decreases s.len(),
{
    if s.len() == 0 {
        Seq::empty()
    } else if s.len() == 1 {
        rule_name(s[0])
    } else {
        names_joined(s.drop_last()) + " -> "@ + rule_name(s.last())
    }
}

/// The diagnostic of a class that spent its budget.
pub open spec fn report_text(name: Seq<char>, budget: nat, ev: Seq<(Rule, bool)>) -> Seq<char> {
    "rule class '"@ + name + "' tripped its budget ("@ + dec_nat(budget) + " considerations):"@
        + rows_text(ev, 12) + "\n  last firings: "@ + names_joined(last_firings(ev))
}

/// Appends `n` spaces.
fn push_spaces(out: &mut String, n: usize)
    ensures
        final(out)@ == old(out)@ + spaces(n as nat),
{
    let mut k: usize = 0;
    while k < n
        invariant
            k <= n,
            out@ == old(out)@ + spaces(k as nat),
        decreases n - k,
    {
        out.append(" ");
        proof {
            reveal_strlit(" ");
            assert(old(out)@ + spaces(k as nat) + " "@ =~= old(out)@ + spaces((k + 1) as nat));
        }
        k = k + 1;
    }
}

/// Appends a count right-aligned in five columns.
fn push_count(out: &mut String, n: usize)
    ensures
        final(out)@ == old(out)@ + pad_left(dec_nat(n as nat), 5),
{
    let mut digits = String::new();
    push_dec(&mut digits, n as u64);
    let len = digits.as_str().unicode_len();
    if len < 5 {
        push_spaces(out, 5 - len);
    }
    out.append(digits.as_str());
    proof {
        assert(out@ =~= old(out)@ + pad_left(dec_nat(n as nat), 5));
    }
}

/// Appends the report line of one rule.
fn push_row(out: &mut String, rule: Rule, c: usize, f: usize)
    ensures
        final(out)@ == old(out)@ + row_line(rule, c as nat, f as nat),
{
    out.append("\n  ");
    let name = rule.name();
    out.append(name);
    let len = name.unicode_len();
    if len < 14 {
        push_spaces(out, 14 - len);
    }
    out.append(" considered ");
    push_count(out, c);
    out.append("  fired ");
    push_count(out, f);
    proof {
        reveal_strlit("\n  ");
        reveal_strlit(" considered ");
        reveal_strlit("  fired ");
        assert(out@ =~= old(out)@ + row_line(rule, c as nat, f as nat));
    }
}

/// The diagnostic of a class that spent its budget: a header, one line
/// per rule considered, and the last firings.
pub fn trip_report(class: &RuleClass, state: &RunState) -> (r: String)
    requires
        state.wf(),
    ensures
        r@ == report_text(class.name@, class.budget as nat, state.trace@),
{
    let ghost ev = state.trace@;
    let mut out = String::new();
    out.append("rule class '");
    out.append(class.name);
    out.append("' tripped its budget (");
    push_dec(&mut out, class.budget as u64);
    out.append(" considerations):");
    let ghost head = out@;
    proof {
        reveal_strlit("rule class '");
        reveal_strlit("' tripped its budget (");
        reveal_strlit(" considerations):");
        assert(head =~= "rule class '"@ + class.name@ + "' tripped its budget ("@ + dec_nat(
            class.budget as nat,
        ) + " considerations):"@);
    }
    let mut k: usize = 0;
    while k < 12
        invariant
            k <= 12,
            state.wf(),
            ev == state.trace@,
            out@ == head + rows_text(ev, k as nat),
        decreases 12 - k,
    {
        let rule = rule_at(k);
        let (c, f) = state.counts[k];
        let ghost before = out@;
        proof {
            assert(state.counts@[rule_index(rule) as int].0 == considered_count(ev, rule));
        }
        if c > 0 {
            push_row(&mut out, rule, c, f);
        }
        k = k + 1;
    }
    out.append("\n  last firings: ");
    let ghost mid = out@;
    let mut j: usize = 0;
    while j < state.log.len()
        invariant
            j <= state.log@.len(),
            state.wf(),
            ev == state.trace@,
            out@ == mid + names_joined(state.log@.take(j as int)),
        decreases state.log.len() - j,
    {
        let ghost before = out@;
        if j > 0 {
            out.append(" -> ");
        }
        out.append(state.log[j].name());
        proof {
            reveal_strlit(" -> ");
            let t = state.log@.take(j + 1);
            assert(t.drop_last() =~= state.log@.take(j as int));
            assert(out@ =~= mid + names_joined(t));
        }
        j = j + 1;
    }
    proof {
        reveal_strlit("\n  last firings: ");
        assert(state.log@.take(state.log@.len() as int) =~= state.log@);
        assert(out@ =~= report_text(class.name@, class.budget as nat, ev));
    }
    out
}

/// No rule of `rules` applies at any node of `p`.
pub open spec fn normal_form(p: SPlan, rules: Seq<Rule>) -> bool
    decreases p,
{
    &&& forall|i: int| 0 <= i < rules.len() ==> !rule_matches(#[trigger] rules[i], p)
    &&& match p {
        SPlan::Filter { input, .. } => normal_form(*input, rules),
        SPlan::Project { input, .. } => normal_form(*input, rules),
        SPlan::Sort { input, .. } => normal_form(*input, rules),
        SPlan::Limit { input, .. } => normal_form(*input, rules),
        SPlan::Join { left, right, .. } => normal_form(*left, rules) && normal_form(*right, rules),
        _ => true,
    }
}

/// Considerations that fired nothing and stayed under the budget tried
/// every remaining rule at the node, none of which applied.
proof fn lemma_rules_at_quiet(node: SPlan, c: ClassModel, i: nat, done: nat)
    ensures
        ({
            let s = rules_at_spec(node, c, i, done);
            !any_fired(s.1) && done + s.1.len() < c.budget ==> s.0 == node && forall|j: int|
                i <= j < c.rules.len() ==> !rule_matches(#[trigger] c.rules[j], node)
        }),
    decreases budget_left(c.budget, done),
{
    if i >= c.rules.len() || done >= c.budget {
    } else {
        let r = c.rules[i as int];
        if rule_matches(r, node) {
            let next = rules_at_spec(rule_apply(r, node), c, if c.priority { 0 } else { i }, done + 1);
            assert((seq![(r, true)] + next.1)[0] == (r, true));
        } else {
            let next = rules_at_spec(node, c, i + 1, done + 1);
            lemma_rules_at_quiet(node, c, i + 1, done + 1);
            lemma_any_fired_concat(seq![(r, false)], next.1);
        }
    }
}

/// A sweep that fired nothing and stayed under the budget left the tree
/// as it was, and found it in normal form.
proof fn lemma_sweep_quiet(node: SPlan, c: ClassModel, done: nat)
    ensures
        ({
            let s = sweep_spec(node, c, done);
            !any_fired(s.1) && done + s.1.len() < c.budget ==> s.0 == node && normal_form(node, c.rules)
        }),
    decreases budget_left(c.budget, done), node,
{
    let first = rules_at_spec(node, c, 0, done);
    let d1 = done + first.1.len();
    lemma_rules_at(node, c, 0, done);
    lemma_rules_at_quiet(node, c, 0, done);
    let s = sweep_spec(node, c, done);
    match first.0 {
        SPlan::Filter { input, predicate } => {
            lemma_sweep_quiet(*input, c, d1);
            lemma_any_fired_concat(first.1, sweep_spec(*input, c, d1).1);
        },
        SPlan::Project { input, exprs } => {
            lemma_sweep_quiet(*input, c, d1);
            lemma_any_fired_concat(first.1, sweep_spec(*input, c, d1).1);
        },
        SPlan::Sort { input, keys } => {
            lemma_sweep_quiet(*input, c, d1);
            lemma_any_fired_concat(first.1, sweep_spec(*input, c, d1).1);
        },
        SPlan::Limit { input, n } => {
            lemma_sweep_quiet(*input, c, d1);
            lemma_any_fired_concat(first.1, sweep_spec(*input, c, d1).1);
        },
        SPlan::Join { left, right, on, filter } => {
            let l = sweep_spec(*left, c, d1);
            lemma_sweep_quiet(*left, c, d1);
            lemma_sweep_quiet(*right, c, d1 + l.1.len());
            lemma_any_fired_concat(first.1, l.1);
            lemma_any_fired_concat(first.1 + l.1, sweep_spec(*right, c, d1 + l.1.len()).1);
        },
        _ => {},
    }
}

/// A run of a class that stops under its budget stops at a normal form:
/// no rule of the class applies anywhere in the tree it returns.
pub proof fn lemma_run_reaches_normal_form(node: SPlan, c: ClassModel, done: nat)
    ensures
        done + run_spec(node, c, done).1.len() < c.budget ==> normal_form(
            run_spec(node, c, done).0,
            c.rules,
        ),
    decreases budget_left(c.budget, done),
{
    let s = sweep_spec(node, c, done);
    lemma_sweep_quiet(node, c, done);
    if !any_fired(s.1) || done + s.1.len() >= c.budget {
    } else {
        lemma_run_reaches_normal_form(s.0, c, done + s.1.len());
    }
}

proof fn lemma_stack_scans(input: SPlan, cs: Seq<SExpr>, n: nat)
    ensures
        scans_below(stack_filters(input, cs), n) == scans_below(input, n),
    decreases cs.len(),
{
    if cs.len() > 0 {
        lemma_stack_scans(input, cs.drop_first(), n);
    }
}

/// Rules keep every scan among the query's relations.
proof fn lemma_rule_keeps_scans(r: Rule, p: SPlan, n: nat)
    requires
        scans_below(p, n),
    ensures
        scans_below(rule_apply(r, p), n),
{
    reveal_with_fuel(scans_below, 3);
    match r {
        Rule::SplitAnd => match p {
            SPlan::Filter { input, predicate: SExpr::And(cs) } => {
                lemma_stack_scans(*input, cs, n);
            },
            _ => {},
        },
        _ => {},
    }
}

proof fn lemma_rules_at_scans(node: SPlan, c: ClassModel, i: nat, done: nat, n: nat)
    requires
        scans_below(node, n),
    ensures
        scans_below(rules_at_spec(node, c, i, done).0, n),
    decreases budget_left(c.budget, done),
{
    if i >= c.rules.len() || done >= c.budget {
    } else {
        let r = c.rules[i as int];
        if rule_matches(r, node) {
            lemma_rule_keeps_scans(r, node, n);
            lemma_rules_at_scans(rule_apply(r, node), c, if c.priority { 0 } else { i }, done + 1, n);
        } else {
            lemma_rules_at_scans(node, c, i + 1, done + 1, n);
        }
    }
}

proof fn lemma_sweep_scans(node: SPlan, c: ClassModel, done: nat, n: nat)
    requires
        scans_below(node, n),
    ensures
        scans_below(sweep_spec(node, c, done).0, n),
    decreases budget_left(c.budget, done), node,
{
    let first = rules_at_spec(node, c, 0, done);
    let d1 = done + first.1.len();
    lemma_rules_at(node, c, 0, done);
    lemma_rules_at_scans(node, c, 0, done, n);
    match first.0 {
        SPlan::Filter { input, .. } => lemma_sweep_scans(*input, c, d1, n),
        SPlan::Project { input, .. } => lemma_sweep_scans(*input, c, d1, n),
        SPlan::Sort { input, .. } => lemma_sweep_scans(*input, c, d1, n),
        SPlan::Limit { input, .. } => lemma_sweep_scans(*input, c, d1, n),
        SPlan::Join { left, right, .. } => {
            let l = sweep_spec(*left, c, d1);
            lemma_sweep_scans(*left, c, d1, n);
            lemma_sweep_scans(*right, c, d1 + l.1.len(), n);
        },
        _ => {},
    }
}

/// A run keeps every scan among the query's relations.
pub proof fn lemma_run_keeps_scans(node: SPlan, c: ClassModel, done: nat, n: nat)
    requires
        scans_below(node, n),
    ensures
        scans_below(run_spec(node, c, done).0, n),
    decreases budget_left(c.budget, done),
{
    let s = sweep_spec(node, c, done);
    lemma_sweep_scans(node, c, done, n);
    if !any_fired(s.1) || done + s.1.len() >= c.budget {
    } else {
        lemma_run_keeps_scans(s.0, c, done + s.1.len(), n);
    }
}

/// The run stopped on its budget: its last sweep fired and spent the
/// rest of the budget.
pub open spec fn run_tripped(node: SPlan, c: ClassModel, done: nat) -> bool
    decreases budget_left(c.budget, done),
{
    let s = sweep_spec(node, c, done);
    if !any_fired(s.1) {
        false
    } else if done + s.1.len() >= c.budget {
        true
    } else {
        run_tripped(s.0, c, done + s.1.len())
    }
}

/// Folding: constant folding and the propagation of empty inputs.
pub open spec fn fold_model() -> ClassModel {
    ClassModel {
        rules: seq![Rule::FoldExprs, Rule::FalseFilters, Rule::EmptySort, Rule::EmptyLimit, Rule::EmptyJoin],
        priority: false,
        budget: 10000,
    }
}

/// Predicate migration: filters split and sink towards the scans, and
/// cross-side equalities become join keys.
pub open spec fn migrate_model() -> ClassModel {
    ClassModel {
        rules: seq![Rule::SplitAnd, Rule::PredPdSort, Rule::Pred2JoinKey, Rule::PredPdJoin, Rule::PredPdProj],
        priority: false,
        budget: 10000,
    }
}

/// Clean-up: duplicate conjuncts go, and parked filter stacks merge.
pub open spec fn cleanup_model() -> ClassModel {
    ClassModel { rules: seq![Rule::DedupExprs, Rule::MergeFilter], priority: false, budget: 10000 }
}

fn fold_class() -> (c: RuleClass)
    ensures
        c@ == fold_model(),
        c.name@ == "FOLD"@,
{
    let c = RuleClass {
        name: "FOLD",
        scheme: Scheme::Sequential,
        rules: vec![Rule::FoldExprs, Rule::FalseFilters, Rule::EmptySort, Rule::EmptyLimit, Rule::EmptyJoin],
        budget: 10000,
    };
    proof {
        assert(c@.rules =~= fold_model().rules);
    }
    c
}

fn migrate_class() -> (c: RuleClass)
    ensures
        c@ == migrate_model(),
        c.name@ == "PREDMIGRATE"@,
{
    let c = RuleClass {
        name: "PREDMIGRATE",
        scheme: Scheme::Sequential,
        rules: vec![Rule::SplitAnd, Rule::PredPdSort, Rule::Pred2JoinKey, Rule::PredPdJoin, Rule::PredPdProj],
        budget: 10000,
    };
    proof {
        assert(c@.rules =~= migrate_model().rules);
    }
    c
}

fn cleanup_class() -> (c: RuleClass)
    ensures
        c@ == cleanup_model(),
        c.name@ == "CLEANUP"@,
{
    let c = RuleClass {
        name: "CLEANUP",
        scheme: Scheme::Sequential,
        rules: vec![Rule::DedupExprs, Rule::MergeFilter],
        budget: 10000,
    };
    proof {
        assert(c@.rules =~= cleanup_model().rules);
    }
    c
}

/// The firings among the events of the first `k` rules of the
/// alphabetical order.
pub open spec fn fired_sum(ev: Seq<(Rule, bool)>, k: nat) -> nat
    decreases k,
{
    if k == 0 {
        0
    } else {
        fired_sum(ev, (k - 1) as nat) + fired_count(ev, rule_at_index((k - 1) as nat))
    }
}

proof fn lemma_rule_at_index(k: nat)
    requires
        k < 12,
    ensures
        rule_index(rule_at_index(k)) == k,
{
}

proof fn lemma_fired_sum_push(ev: Seq<(Rule, bool)>, e: (Rule, bool), k: nat)
    requires
        k <= 12,
    ensures
        fired_sum(ev.push(e), k) == fired_sum(ev, k) + if e.1 && rule_index(e.0) < k {
            1nat
        } else {
            0nat
        },
    decreases k,
{
    if k > 0 {
        lemma_fired_sum_push(ev, e, (k - 1) as nat);
        lemma_rule_at_index((k - 1) as nat);
        assert(ev.push(e).drop_last() =~= ev);
    }
}

/// Summed over all rules, the firings are the fired events.
proof fn lemma_fired_sum(ev: Seq<(Rule, bool)>)
    ensures
        fired_sum(ev, 12) == fired_rules(ev).len(),
        fired_rules(ev).len() <= ev.len(),
    decreases ev.len(),
{
    if ev.len() > 0 {
        let init = ev.drop_last();
        lemma_fired_sum(init);
        lemma_fired_sum_push(init, ev.last(), 12);
        assert(init.push(ev.last()) =~= ev);
    } else {
        assert(fired_sum(ev, 12) == 0) by {
            reveal_with_fuel(fired_sum, 13);
        }
    }
}

/// The firings recorded in a run's bookkeeping.
fn total_fired(state: &RunState) -> (n: usize)
    requires
        state.wf(),
    ensures
        n == fired_rules(state.trace@).len(),
{
    let ghost ev = state.trace@;
    proof {
        lemma_fired_sum(ev);
    }
    let mut n: usize = 0;
    let mut k: usize = 0;
    while k < 12
        invariant
            k <= 12,
            state.wf(),
            ev == state.trace@,
            n == fired_sum(ev, k as nat),
            fired_sum(ev, 12) <= ev.len(),
        decreases 12 - k,
    {
        let rule = rule_at(k);
        proof {
            lemma_fired_sum_bound(ev, (k + 1) as nat);
            assert(state.counts@[rule_index(rule) as int].1 == fired_count(ev, rule));
        }
        n = n + state.counts[k].1;
        k = k + 1;
    }
    n
}

proof fn lemma_fired_sum_bound(ev: Seq<(Rule, bool)>, k: nat)
    requires
        k <= 12,
    ensures
        fired_sum(ev, k) <= fired_sum(ev, 12),
    decreases 12 - k,
{
    if k < 12 {
        lemma_fired_sum_bound(ev, k + 1);
    }
}

/// The three classes in turn, with column pruning between predicate
/// migration and clean-up.
pub open spec fn fixpoint_root(root: SPlan, rels: Seq<RelInfo>) -> SPlan {
    let a = run_spec(root, fold_model(), 0).0;
    let b = run_spec(a, migrate_model(), 0).0;
    let w = rel_widths(rels);
    run_spec(narrow_spec(b, all_columns(w), w), cleanup_model(), 0).0
}

/// The rule firings of the three runs of `fixpoint_root`.
pub open spec fn fixpoint_apps(root: SPlan, rels: Seq<RelInfo>) -> nat {
    let a = run_spec(root, fold_model(), 0);
    let b = run_spec(a.0, migrate_model(), 0);
    let w = rel_widths(rels);
    let c = run_spec(narrow_spec(b.0, all_columns(w), w), cleanup_model(), 0);
    fired_rules(a.1).len() + fired_rules(b.1).len() + fired_rules(c.1).len()
}

/// The report of a class run, when the run stopped on its budget.
pub open spec fn report_of(name: Seq<char>, c: ClassModel, root: SPlan) -> Seq<Seq<char>> {
    if run_tripped(root, c, 0) {
        seq![report_text(name, c.budget, run_spec(root, c, 0).1)]
    } else {
        Seq::empty()
    }
}

/// The reports of the classes of `fixpoint_root` that stopped on their
/// budget, in order.
pub open spec fn fixpoint_reports(root: SPlan, rels: Seq<RelInfo>) -> Seq<Seq<char>> {
    let a = run_spec(root, fold_model(), 0).0;
    let b = run_spec(a, migrate_model(), 0).0;
    let w = rel_widths(rels);
    report_of("FOLD"@, fold_model(), root) + report_of("PREDMIGRATE"@, migrate_model(), a)
        + report_of("CLEANUP"@, cleanup_model(), narrow_spec(b, all_columns(w), w))
}

/// One class run, with its firings and its report if it tripped.
fn run_and_report(root: Plan, class: &RuleClass, reports: &mut Vec<String>) -> (r: (Plan, usize))
    ensures
        r.0@ == run_spec(root@, class@, 0).0,
        r.1 == fired_rules(run_spec(root@, class@, 0).1).len(),
        r.1 <= class.budget,
        final(reports)@.map_values(|s: String| s@) == old(reports)@.map_values(|s: String| s@)
            + report_of(class.name@, class@, root@),
{
    let ghost root_v = root@;
    let (out, state, tripped) = run_class(root, class);
    let apps = total_fired(&state);
    proof {
        lemma_fired_sum(state.trace@);
    }
    let ghost before = reports@;
    if tripped {
        let text = trip_report(class, &state);
        reports.push(text);
    }
    proof {
        assert(reports@.map_values(|s: String| s@) =~= before.map_values(|s: String| s@)
            + report_of(class.name@, class@, root_v));
    }
    (out, apps)
}

/// The rewrite pipeline: the three classes, pruning between the second
/// and the third; with the firings and the trip reports.
fn run_pipeline(plan: Ir) -> (r: (Ir, usize, Vec<String>))
    requires
        ir_wf(plan),
    ensures
        r.0.root@ == fixpoint_root(plan.root@, plan.rels@),
        r.0.rels == plan.rels,
        r.1 == fixpoint_apps(plan.root@, plan.rels@),
        r.2@.map_values(|s: String| s@) == fixpoint_reports(plan.root@, plan.rels@),
{
    let ghost root0 = plan.root@;
    let ghost n = plan.rels@.len();
    let mut reports: Vec<String> = Vec::new();
    let fold = fold_class();
    let migrate = migrate_class();
    let cleanup = cleanup_class();
    let Ir { root, rels } = plan;
    let (root, a1) = run_and_report(root, &fold, &mut reports);
    proof {
        lemma_run_keeps_scans(root0, fold_model(), 0, n);
    }
    let ghost a = root@;
    let (root, a2) = run_and_report(root, &migrate, &mut reports);
    proof {
        lemma_run_keeps_scans(a, migrate_model(), 0, n);
    }
    let pruned = prune(Ir { root, rels });
    let ghost p = pruned.root@;
    let Ir { root, rels } = pruned;
    let (root, a3) = run_and_report(root, &cleanup, &mut reports);
    proof {
        reveal_strlit("FOLD");
        reveal_strlit("PREDMIGRATE");
        reveal_strlit("CLEANUP");
        assert(Seq::<String>::empty().map_values(|s: String| s@) =~= Seq::<Seq<char>>::empty());
        assert(reports@.map_values(|s: String| s@) =~= fixpoint_reports(root0, rels@));
    }
    (Ir { root, rels }, a1 + a2 + a3, reports)
}

/// The rule-engine rewrite of a bound query: folding, predicate migration,
/// column pruning, clean-up (see `fixpoint_root`).
pub fn rewrite_fixpoint(plan: Ir) -> (r: Ir)
    requires
        ir_wf(plan),
    ensures
        r.root@ == fixpoint_root(plan.root@, plan.rels@),
        r.rels == plan.rels,
{
    run_pipeline(plan).0
}

/// `rewrite_fixpoint`, with the number of rule firings it took.
pub fn rewrite_fixpoint_counted(plan: Ir) -> (r: (Ir, usize))
    requires
        ir_wf(plan),
    ensures
        r.0.root@ == fixpoint_root(plan.root@, plan.rels@),
        r.0.rels == plan.rels,
        r.1 == fixpoint_apps(plan.root@, plan.rels@),
{
    let (ir, apps, _) = run_pipeline(plan);
    (ir, apps)
}

/// `rewrite_fixpoint`, with the report of each class that stopped on its
/// budget.
pub fn rewrite_fixpoint_reported(plan: Ir) -> (r: (Ir, Vec<String>))
    requires
        ir_wf(plan),
    ensures
        r.0.root@ == fixpoint_root(plan.root@, plan.rels@),
        r.0.rels == plan.rels,
        r.1@.map_values(|s: String| s@) == fixpoint_reports(plan.root@, plan.rels@),
{
    let (ir, _, reports) = run_pipeline(plan);
    (ir, reports)
}

proof fn lemma_sweep_bound(node: SPlan, c: ClassModel, done: nat)
    ensures
        sweep_spec(node, c, done).1.len() > 0 ==> done + sweep_spec(node, c, done).1.len() <= c.budget,
    decreases budget_left(c.budget, done), node,
{
    let first = rules_at_spec(node, c, 0, done);
    let d1 = done + first.1.len();
    lemma_rules_at(node, c, 0, done);
    match first.0 {
        SPlan::Filter { input, .. } => lemma_sweep_bound(*input, c, d1),
        SPlan::Project { input, .. } => lemma_sweep_bound(*input, c, d1),
        SPlan::Sort { input, .. } => lemma_sweep_bound(*input, c, d1),
        SPlan::Limit { input, .. } => lemma_sweep_bound(*input, c, d1),
        SPlan::Join { left, right, .. } => {
            let l = sweep_spec(*left, c, d1);
            lemma_sweep_bound(*left, c, d1);
            lemma_sweep_bound(*right, c, d1 + l.1.len());
        },
        _ => {},
    }
}

/// A run never considers more rules than its budget allows.
pub proof fn lemma_run_bound(node: SPlan, c: ClassModel, done: nat)
    ensures
        run_spec(node, c, done).1.len() > 0 ==> done + run_spec(node, c, done).1.len() <= c.budget,
    decreases budget_left(c.budget, done),
{
    let s = sweep_spec(node, c, done);
    lemma_sweep_bound(node, c, done);
    if !any_fired(s.1) || done + s.1.len() >= c.budget {
    } else {
        lemma_run_bound(s.0, c, done + s.1.len());
    }
}

/// `col 0 of relation 0 > n`.
pub open spec fn above(n: i64) -> SExpr {
    SExpr::Cmp {
        op: CmpOp::Gt,
        l: Box::new(SExpr::Col(ColRef { rel: 0, col: 0 })),
        r: Box::new(SExpr::Int(n)),
    }
}

/// The seed of the ping-pong: one filter holding `above(1) AND above(2)`.
pub open spec fn packed_seed() -> SPlan {
    SPlan::Filter {
        input: Box::new(SPlan::Scan { rel: 0 }),
        predicate: SExpr::And(seq![above(1), above(2)]),
    }
}

/// The same conjuncts as a stack of two filters, `above(1)` outermost.
pub open spec fn split_seed() -> SPlan {
    SPlan::Filter {
        input: Box::new(SPlan::Filter { input: Box::new(SPlan::Scan { rel: 0 }), predicate: above(2) }),
        predicate: above(1),
    }
}

/// A class holding two inverse rules, the merge first, by priority.
pub open spec fn ping_pong_model(budget: nat) -> ClassModel {
    ClassModel { rules: seq![Rule::MergeFilter, Rule::SplitAnd], priority: true, budget }
}

proof fn lemma_seed_steps()
    ensures
        rule_matches(Rule::SplitAnd, packed_seed()),
        !rule_matches(Rule::MergeFilter, packed_seed()),
        rule_apply(Rule::SplitAnd, packed_seed()) == split_seed(),
        rule_matches(Rule::MergeFilter, split_seed()),
        rule_apply(Rule::MergeFilter, split_seed()) == packed_seed(),
{
    let cs = seq![above(1), above(2)];
    let scan = SPlan::Scan { rel: 0 };
    assert(cs.drop_first() =~= seq![above(2)]);
    assert(cs.drop_first().drop_first() =~= Seq::<SExpr>::empty());
    assert(stack_filters(scan, cs.drop_first().drop_first()) == scan);
    assert(stack_filters(scan, cs.drop_first()) == SPlan::Filter {
        input: Box::new(scan),
        predicate: above(2),
    });
    assert(split_conj(above(1)) + split_conj(above(2)) =~= cs);
}

/// Where no rule of the class applies, trying the rules changes nothing.
proof fn lemma_rules_at_stuck(node: SPlan, c: ClassModel, i: nat, done: nat)
    requires
        forall|j: int| 0 <= j < c.rules.len() ==> !rule_matches(#[trigger] c.rules[j], node),
    ensures
        rules_at_spec(node, c, i, done).0 == node,
    decreases budget_left(c.budget, done),
{
    if i >= c.rules.len() || done >= c.budget {
    } else {
        assert(!rule_matches(c.rules[i as int], node));
        lemma_rules_at_stuck(node, c, i + 1, done + 1);
    }
}

proof fn lemma_ping_pong_rules_at(node: SPlan, budget: nat, i: nat, done: nat)
    requires
        node == packed_seed() || node == split_seed(),
    ensures
        rules_at_spec(node, ping_pong_model(budget), i, done).0 == packed_seed()
            || rules_at_spec(node, ping_pong_model(budget), i, done).0 == split_seed(),
    decreases budget_left(budget, done),
{
    let c = ping_pong_model(budget);
    lemma_seed_steps();
    if i >= c.rules.len() || done >= c.budget {
    } else {
        let r = c.rules[i as int];
        if rule_matches(r, node) {
            assert(r == Rule::MergeFilter || r == Rule::SplitAnd);
            if node == split_seed() && r == Rule::SplitAnd {
                assert(!(split_seed()->predicate is And));
            }
            lemma_ping_pong_rules_at(rule_apply(r, node), budget, 0, done + 1);
        } else {
            lemma_ping_pong_rules_at(node, budget, i + 1, done + 1);
        }
    }
}

proof fn lemma_ping_pong_sweep(node: SPlan, budget: nat, done: nat)
    requires
        node == packed_seed() || node == split_seed(),
    ensures
        sweep_spec(node, ping_pong_model(budget), done).0 == packed_seed() || sweep_spec(
            node,
            ping_pong_model(budget),
            done,
        ).0 == split_seed(),
{
    let c = ping_pong_model(budget);
    let scan = SPlan::Scan { rel: 0 };
    let inner = SPlan::Filter { input: Box::new(scan), predicate: above(2) };
    lemma_ping_pong_rules_at(node, budget, 0, done);
    let first = rules_at_spec(node, c, 0, done);
    let d1 = done + first.1.len();
    assert forall|j: int| 0 <= j < c.rules.len() implies !rule_matches(#[trigger] c.rules[j], scan) by {
    }
    assert forall|j: int| 0 <= j < c.rules.len() implies !rule_matches(#[trigger] c.rules[j], inner) by {
    }
    lemma_rules_at_stuck(scan, c, 0, d1);
    if first.0 == packed_seed() {
        assert(sweep_spec(scan, c, d1).0 == scan);
    } else {
        lemma_rules_at_stuck(inner, c, 0, d1);
        let e = rules_at_spec(inner, c, 0, d1).1;
        lemma_rules_at_stuck(scan, c, 0, d1 + e.len());
        assert(sweep_spec(scan, c, d1 + e.len()).0 == scan);
        assert(sweep_spec(inner, c, d1).0 == inner);
    }
}

proof fn lemma_ping_pong_run(node: SPlan, budget: nat, done: nat)
    requires
        node == packed_seed() || node == split_seed(),
    ensures
        run_spec(node, ping_pong_model(budget), done).0 == packed_seed() || run_spec(
            node,
            ping_pong_model(budget),
            done,
        ).0 == split_seed(),
    decreases budget_left(budget, done),
{
    let c = ping_pong_model(budget);
    let s = sweep_spec(node, c, done);
    lemma_ping_pong_sweep(node, budget, done);
    if !any_fired(s.1) || done + s.1.len() >= c.budget {
    } else {
        lemma_ping_pong_run(s.0, budget, done + s.1.len());
    }
}

/// Two inverse rules in one class never reach a fixpoint: whatever the
/// budget, the run spends all of it, and stops on one of the two whole
/// forms of the predicate (packed, or split into a stack), never on a
/// mixture of them.
pub proof fn lemma_ping_pong_exhausts_budget(budget: nat)
    ensures
        run_spec(packed_seed(), ping_pong_model(budget), 0).1.len() == budget,
        run_spec(packed_seed(), ping_pong_model(budget), 0).0 == packed_seed() || run_spec(
            packed_seed(),
            ping_pong_model(budget),
            0,
        ).0 == split_seed(),
{
    let c = ping_pong_model(budget);
    let out = run_spec(packed_seed(), c, 0);
    lemma_ping_pong_run(packed_seed(), budget, 0);
    lemma_run_bound(packed_seed(), c, 0);
    lemma_run_reaches_normal_form(packed_seed(), c, 0);
    lemma_seed_steps();
    if out.1.len() < budget {
        assert(normal_form(out.0, c.rules));
        if out.0 == packed_seed() {
            assert(c.rules[1] == Rule::SplitAnd);
        } else {
            assert(c.rules[0] == Rule::MergeFilter);
        }
    }
}

/// Where the ping-pong stands after `k` more considerations, from the
/// packed seed about to try rule `i`, or from the split seed.
pub open spec fn ping_pong_after(split: bool, i: nat, k: nat) -> SPlan {
    let turns_split = if split {
        k % 3 == 0
    } else if i == 0 {
        k % 3 == 2
    } else {
        k % 3 == 1
    };
    if turns_split {
        split_seed()
    } else {
        packed_seed()
    }
}

proof fn lemma_ping_pong_exact(split: bool, budget: nat, i: nat, done: nat)
    requires
        done <= budget,
        i <= 1,
        split ==> i == 0,
    ensures
        rules_at_spec(if split { split_seed() } else { packed_seed() }, ping_pong_model(budget), i, done).0
            == ping_pong_after(split, i, (budget - done) as nat),
        rules_at_spec(if split { split_seed() } else { packed_seed() }, ping_pong_model(budget), i, done).1.len()
            == budget - done,
    decreases budget - done,
{
    lemma_seed_steps();
    let c = ping_pong_model(budget);
    if done < budget {
        if split {
            lemma_ping_pong_exact(false, budget, 0, done + 1);
        } else if i == 0 {
            lemma_ping_pong_exact(false, budget, 1, done + 1);
        } else {
            lemma_ping_pong_exact(true, budget, 0, done + 1);
        }
    }
}

proof fn lemma_sweep_spent(node: SPlan, c: ClassModel, done: nat)
    requires
        done >= c.budget,
    ensures
        sweep_spec(node, c, done) == (node, Seq::<(Rule, bool)>::empty()),
    decreases node,
{
    match node {
        SPlan::Filter { input, .. } => lemma_sweep_spent(*input, c, done),
        SPlan::Project { input, .. } => lemma_sweep_spent(*input, c, done),
        SPlan::Sort { input, .. } => lemma_sweep_spent(*input, c, done),
        SPlan::Limit { input, .. } => lemma_sweep_spent(*input, c, done),
        SPlan::Join { left, right, .. } => {
            lemma_sweep_spent(*left, c, done);
            lemma_sweep_spent(*right, c, done);
        },
        _ => {},
    }
    let r = sweep_spec(node, c, done);
    assert(r.1 =~= Seq::<(Rule, bool)>::empty());
}

/// Which whole form the ping-pong stops on: the split stack exactly when
/// the budget leaves remainder 2 on division by 3 (each round trip spends
/// three considerations: a failed merge, a split, a merge); and every
/// consideration of the budget is spent.
pub proof fn lemma_ping_pong_final_form(budget: nat)
    ensures
        run_spec(packed_seed(), ping_pong_model(budget), 0).0 == if budget % 3 == 2 {
            split_seed()
        } else {
            packed_seed()
        },
        run_spec(packed_seed(), ping_pong_model(budget), 0).1.len() == budget,
{
    let c = ping_pong_model(budget);
    lemma_ping_pong_exact(false, budget, 0, 0);
    let first = rules_at_spec(packed_seed(), c, 0, 0);
    let scan = SPlan::Scan { rel: 0 };
    let inner = SPlan::Filter { input: Box::new(scan), predicate: above(2) };
    lemma_sweep_spent(scan, c, budget);
    lemma_sweep_spent(inner, c, budget);
    let s = sweep_spec(packed_seed(), c, 0);
    assert(s.0 == first.0);
    assert(s.1.len() == budget);
}

fn above_expr(n: i64) -> (e: Expr)
    ensures
        e@ == above(n),
{
    proof {
        reveal_with_fuel(view_expr, 2);
    }
    Expr::Cmp {
        op: CmpOp::Gt,
        l: Box::new(Expr::Col(ColRef { rel: 0, col: 0 })),
        r: Box::new(Expr::Int(n)),
    }
}

/// Runs the two inverse rules MERGEFILTER and SPLITAND in one priority
/// class named BROKEN over the packed seed, under `budget`: the rendered
/// tree, whether the budget was spent, and the class's report. The budget
/// is always spent, and the tree ends as the split stack exactly when the
/// budget leaves remainder 2 on division by 3.
pub fn seeded_ping_pong(budget: usize) -> (r: (String, bool, String))
    ensures
        r.0@ == plan_text(run_spec(packed_seed(), ping_pong_model(budget as nat), 0).0, Seq::empty(), Seq::empty()),
        r.1 == (run_spec(packed_seed(), ping_pong_model(budget as nat), 0).1.len() >= budget),
        r.2@ == report_text("BROKEN"@, budget as nat, run_spec(packed_seed(), ping_pong_model(budget as nat), 0).1),
        r.0@ == plan_text(
            if budget % 3 == 2 {
                split_seed()
            } else {
                packed_seed()
            },
            Seq::empty(),
            Seq::empty(),
        ),
        r.1,
{
    proof {
        lemma_ping_pong_final_form(budget as nat);
    }
    let class = RuleClass {
        name: "BROKEN",
        scheme: Scheme::Priority,
        rules: vec![Rule::MergeFilter, Rule::SplitAnd],
        budget,
    };
    let cs = vec![above_expr(1), above_expr(2)];
    proof {
        lemma_view_exprs(cs@);
        assert(view_exprs(cs@) =~= seq![above(1), above(2)]);
    }
    let tree = Plan::Filter { input: Box::new(Plan::Scan { rel: 0 }), predicate: Expr::And(cs) };
    proof {
        assert(class@.rules =~= ping_pong_model(budget as nat).rules);
        assert(class@ == ping_pong_model(budget as nat));
        reveal_with_fuel(view_plan, 2);
        assert(tree@ == packed_seed());
    }
    let (root, state, _) = run_class(tree, &class);
    let tripped = state.considered >= class.budget;
    let rendered = Ir { root, rels: Vec::new() }.to_string();
    let report = trip_report(&class, &state);
    proof {
        reveal_strlit("BROKEN");
    }
    (rendered, tripped, report)
}

/// The rule-engine optimizer: the fixpoint rewrite, then join ordering.
pub struct StarburstOptimizer;

impl StarburstOptimizer {
    pub fn name(&self) -> (r: &'static str)
        ensures
            r@ == "starburst"@,
    {
        proof {
            reveal_strlit("starburst");
        }
        "starburst"
    }
}

} // verus!
