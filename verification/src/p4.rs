//! The Volcano-style search: a physical algebra beside the logical one,
//! and a memo of groups of equivalent join expressions.

use vstd::prelude::*;
use crate::ir::{
    ColRef, Expr, Plan, SExpr, SPlan, view_expr, view_exprs, view_keys, view_opt, view_plan,
    clone_exprs, clone_keys, clone_opt, copy_vec, lemma_view_exprs, clone_plan,
};
use crate::p1::{plan_rels, rels_of, contains_usize, split_conj, all_in, all_cols_in, split_conjunctions, free_cols};
use crate::canon::{canon, canon_expr};
use crate::ir::expr_cols;
use crate::sorting::{
    Key, pair_le, colref_le, sorted_keys, sorted_set, sort_keys, sort_dedup,
    lemma_sorted_set_concat_commutes,
};
use crate::order::{plan_equal, opt_equal};
use crate::sorting::keys_equal;
use crate::render::{
    dec_nat, expr_text, exprs_text, rels_text, pairs_text, keys_text, table_view, push_dec,
    push_lit, push_rels, push_pairs, push_keys, push_expr, push_exprs, deeper,
};

verus! {

/// Physical plans: the logical operators' twins, with two algorithms for
/// a join. A hash join hashes its build side in full and streams the
/// probe side.
#[derive(Debug, PartialEq, Eq)]
pub enum PhysPlan {
    ScanPhys { rel: usize },
    EmptyScanPhys { rels: Vec<usize> },
    FilterPhys { input: Box<PhysPlan>, predicate: Expr },
    ProjectPhys { input: Box<PhysPlan>, exprs: Vec<Expr> },
    HashJoinPhys { build: Box<PhysPlan>, probe: Box<PhysPlan>, on: Vec<(ColRef, ColRef)> },
    NestedLoopPhys {
        left: Box<PhysPlan>,
        right: Box<PhysPlan>,
        on: Vec<(ColRef, ColRef)>,
        filter: Option<Expr>,
    },
    SortPhys { input: Box<PhysPlan>, keys: Vec<(Expr, bool)> },
    LimitPhys { input: Box<PhysPlan>, n: u64 },
}

/// The model of a physical plan.
pub enum SPhys {
    ScanPhys { rel: usize },
    EmptyScanPhys { rels: Seq<usize> },
    FilterPhys { input: Box<SPhys>, predicate: SExpr },
    ProjectPhys { input: Box<SPhys>, exprs: Seq<SExpr> },
    HashJoinPhys { build: Box<SPhys>, probe: Box<SPhys>, on: Seq<(ColRef, ColRef)> },
    NestedLoopPhys {
        left: Box<SPhys>,
        right: Box<SPhys>,
        on: Seq<(ColRef, ColRef)>,
        filter: Option<SExpr>,
    },
    SortPhys { input: Box<SPhys>, keys: Seq<(SExpr, bool)> },
    LimitPhys { input: Box<SPhys>, n: u64 },
}

pub open spec fn view_phys(p: PhysPlan) -> SPhys
    decreases p,
{
    match p {
        PhysPlan::ScanPhys { rel } => SPhys::ScanPhys { rel },
        PhysPlan::EmptyScanPhys { rels } => SPhys::EmptyScanPhys { rels: rels@ },
        PhysPlan::FilterPhys { input, predicate } => SPhys::FilterPhys {
            input: Box::new(view_phys(*input)),
            predicate: view_expr(predicate),
        },
        PhysPlan::ProjectPhys { input, exprs } => SPhys::ProjectPhys {
            input: Box::new(view_phys(*input)),
            exprs: view_exprs(exprs@),
        },
        PhysPlan::HashJoinPhys { build, probe, on } => SPhys::HashJoinPhys {
            build: Box::new(view_phys(*build)),
            probe: Box::new(view_phys(*probe)),
            on: on@,
        },
        PhysPlan::NestedLoopPhys { left, right, on, filter } => SPhys::NestedLoopPhys {
            left: Box::new(view_phys(*left)),
            right: Box::new(view_phys(*right)),
            on: on@,
            filter: view_opt(filter),
        },
        PhysPlan::SortPhys { input, keys } => SPhys::SortPhys {
            input: Box::new(view_phys(*input)),
            keys: view_keys(keys@),
        },
        PhysPlan::LimitPhys { input, n } => SPhys::LimitPhys { input: Box::new(view_phys(*input)), n },
    }
}

impl View for PhysPlan {
    type V = SPhys;

    open spec fn view(&self) -> SPhys {
        view_phys(*self)
    }
}

/// The base relations under a physical plan, ascending, each once.
pub open spec fn phys_rels_spec(p: SPhys) -> Seq<usize>
    decreases p,
{
    match p {
        SPhys::ScanPhys { rel } => seq![rel],
        SPhys::EmptyScanPhys { rels } => sorted_set(rels),
        SPhys::FilterPhys { input, .. } => phys_rels_spec(*input),
        SPhys::ProjectPhys { input, .. } => phys_rels_spec(*input),
        SPhys::SortPhys { input, .. } => phys_rels_spec(*input),
        SPhys::LimitPhys { input, .. } => phys_rels_spec(*input),
        SPhys::HashJoinPhys { build, probe, .. } => sorted_set(
            phys_rels_spec(*build) + phys_rels_spec(*probe),
        ),
        SPhys::NestedLoopPhys { left, right, .. } => sorted_set(
            phys_rels_spec(*left) + phys_rels_spec(*right),
        ),
    }
}

/// The base relations under a physical plan (see `phys_rels_spec`).
pub fn phys_rels(p: &PhysPlan) -> (r: Vec<usize>)
    ensures
        r@ == phys_rels_spec(p@),
    decreases p,
{
    match p {
        PhysPlan::ScanPhys { rel } => {
            let mut v: Vec<usize> = Vec::new();
            v.push(*rel);
            proof {
                assert(v@ =~= seq![*rel]);
            }
            v
        },
        PhysPlan::EmptyScanPhys { rels } => sort_dedup(copy_vec(rels)),
        PhysPlan::FilterPhys { input, .. } => phys_rels(input),
        PhysPlan::ProjectPhys { input, .. } => phys_rels(input),
        PhysPlan::SortPhys { input, .. } => phys_rels(input),
        PhysPlan::LimitPhys { input, .. } => phys_rels(input),
        PhysPlan::HashJoinPhys { build, probe, .. } => {
            let mut a = phys_rels(build);
            let mut b = phys_rels(probe);
            a.append(&mut b);
            sort_dedup(a)
        },
        PhysPlan::NestedLoopPhys { left, right, .. } => {
            let mut a = phys_rels(left);
            let mut b = phys_rels(right);
            a.append(&mut b);
            sort_dedup(a)
        },
    }
}

/// A key pair read (left column, right column) for a join whose left
/// input holds `lrels`.
pub open spec fn orient_pair(p: (ColRef, ColRef), lrels: Seq<usize>) -> (ColRef, ColRef) {
    if lrels.contains(p.0.rel) {
        p
    } else {
        (p.1, p.0)
    }
}

/// A logical join over `left` and `right`, its key pairs oriented by the
/// left input's relations.
pub open spec fn rebuild_join_spec(
    left: SPlan,
    right: SPlan,
    on: Seq<(ColRef, ColRef)>,
    filter: Option<SExpr>,
) -> SPlan {
    SPlan::Join {
        left: Box::new(left),
        right: Box::new(right),
        on: on.map_values(|p: (ColRef, ColRef)| orient_pair(p, rels_of(left))),
        filter,
    }
}

/// A logical join rebuilt from sideless key pairs (see
/// `rebuild_join_spec`).
pub fn rebuild_join(left: Plan, right: Plan, on: &Vec<(ColRef, ColRef)>, filter: &Option<Expr>) -> (r: Plan)
    ensures
        r@ == rebuild_join_spec(left@, right@, on@, view_opt(*filter)),
{
    let lrels = plan_rels(&left);
    let mut out: Vec<(ColRef, ColRef)> = Vec::new();
    let mut i: usize = 0;
    while i < on.len()
        invariant
            i <= on@.len(),
            lrels@ == rels_of(left@),
            out@ == on@.take(i as int).map_values(|p: (ColRef, ColRef)| orient_pair(p, lrels@)),
        decreases on.len() - i,
    {
        let (a, b) = on[i];
        if contains_usize(&lrels, a.rel) {
            out.push((a, b));
        } else {
            out.push((b, a));
        }
        i = i + 1;
        proof {
            assert(out@ =~= on@.take(i as int).map_values(|p: (ColRef, ColRef)| orient_pair(p, lrels@)));
        }
    }
    proof {
        assert(on@.take(i as int) =~= on@);
    }
    let filter = clone_opt(filter);
    Plan::Join { left: Box::new(left), right: Box::new(right), on: out, filter }
}

/// The logical twin of a physical plan: both join algorithms become a
/// logical join, a hash join's probe side on the left.
pub open spec fn phys_to_ir_spec(p: SPhys) -> SPlan
    decreases p,
{
    match p {
        SPhys::ScanPhys { rel } => SPlan::Scan { rel },
        SPhys::EmptyScanPhys { rels } => SPlan::EmptyScan { rels },
        SPhys::FilterPhys { input, predicate } => SPlan::Filter {
            input: Box::new(phys_to_ir_spec(*input)),
            predicate,
        },
        SPhys::ProjectPhys { input, exprs } => SPlan::Project {
            input: Box::new(phys_to_ir_spec(*input)),
            exprs,
        },
        SPhys::SortPhys { input, keys } => SPlan::Sort { input: Box::new(phys_to_ir_spec(*input)), keys },
        SPhys::LimitPhys { input, n } => SPlan::Limit { input: Box::new(phys_to_ir_spec(*input)), n },
        SPhys::HashJoinPhys { build, probe, on } => rebuild_join_spec(
            phys_to_ir_spec(*probe),
            phys_to_ir_spec(*build),
            on,
            None,
        ),
        SPhys::NestedLoopPhys { left, right, on, filter } => rebuild_join_spec(
            phys_to_ir_spec(*left),
            phys_to_ir_spec(*right),
            on,
            filter,
        ),
    }
}

/// The logical twin of a physical plan (see `phys_to_ir_spec`).
pub fn phys_to_ir(p: &PhysPlan) -> (r: Plan)
    ensures
        r@ == phys_to_ir_spec(p@),
    decreases p,
{
    match p {
        PhysPlan::ScanPhys { rel } => Plan::Scan { rel: *rel },
        PhysPlan::EmptyScanPhys { rels } => Plan::EmptyScan { rels: copy_vec(rels) },
        PhysPlan::FilterPhys { input, predicate } => Plan::Filter {
            input: Box::new(phys_to_ir(input)),
            predicate: predicate.clone(),
        },
        PhysPlan::ProjectPhys { input, exprs } => Plan::Project {
            input: Box::new(phys_to_ir(input)),
            exprs: clone_exprs(exprs),
        },
        PhysPlan::SortPhys { input, keys } => Plan::Sort {
            input: Box::new(phys_to_ir(input)),
            keys: clone_keys(keys),
        },
        PhysPlan::LimitPhys { input, n } => Plan::Limit { input: Box::new(phys_to_ir(input)), n: *n },
        PhysPlan::HashJoinPhys { build, probe, on } => {
            let l = phys_to_ir(probe);
            let r = phys_to_ir(build);
            rebuild_join(l, r, on, &None)
        },
        PhysPlan::NestedLoopPhys { left, right, on, filter } => {
            let l = phys_to_ir(left);
            let r = phys_to_ir(right);
            rebuild_join(l, r, on, filter)
        },
    }
}

/// The plan holds no join.
pub open spec fn join_free(p: SPlan) -> bool
    decreases p,
{
    match p {
        SPlan::Scan { .. } => true,
        SPlan::EmptyScan { .. } => true,
        SPlan::Filter { input, .. } => join_free(*input),
        SPlan::Project { input, .. } => join_free(*input),
        SPlan::Sort { input, .. } => join_free(*input),
        SPlan::Limit { input, .. } => join_free(*input),
        SPlan::Join { .. } => false,
    }
}

impl Clone for PhysPlan {
    fn clone(&self) -> (r: Self)
        ensures
            r@ == self@,
        decreases self,
    {
        match self {
            PhysPlan::ScanPhys { rel } => PhysPlan::ScanPhys { rel: *rel },
            PhysPlan::EmptyScanPhys { rels } => PhysPlan::EmptyScanPhys { rels: copy_vec(rels) },
            PhysPlan::FilterPhys { input, predicate } => PhysPlan::FilterPhys {
                input: Box::new((**input).clone()),
                predicate: predicate.clone(),
            },
            PhysPlan::ProjectPhys { input, exprs } => PhysPlan::ProjectPhys {
                input: Box::new((**input).clone()),
                exprs: clone_exprs(exprs),
            },
            PhysPlan::HashJoinPhys { build, probe, on } => PhysPlan::HashJoinPhys {
                build: Box::new((**build).clone()),
                probe: Box::new((**probe).clone()),
                on: copy_vec(on),
            },
            PhysPlan::NestedLoopPhys { left, right, on, filter } => PhysPlan::NestedLoopPhys {
                left: Box::new((**left).clone()),
                right: Box::new((**right).clone()),
                on: copy_vec(on),
                filter: clone_opt(filter),
            },
            PhysPlan::SortPhys { input, keys } => PhysPlan::SortPhys {
                input: Box::new((**input).clone()),
                keys: clone_keys(keys),
            },
            PhysPlan::LimitPhys { input, n } => PhysPlan::LimitPhys { input: Box::new((**input).clone()), n: *n },
        }
    }
}

/// The physical twin of a join-free logical plan, operator for operator.
pub open spec fn lower_leaf_spec(p: SPlan) -> SPhys
    decreases p,
{
    match p {
        SPlan::Scan { rel } => SPhys::ScanPhys { rel },
        SPlan::EmptyScan { rels } => SPhys::EmptyScanPhys { rels },
        SPlan::Filter { input, predicate } => SPhys::FilterPhys {
            input: Box::new(lower_leaf_spec(*input)),
            predicate,
        },
        SPlan::Project { input, exprs } => SPhys::ProjectPhys {
            input: Box::new(lower_leaf_spec(*input)),
            exprs,
        },
        SPlan::Sort { input, keys } => SPhys::SortPhys { input: Box::new(lower_leaf_spec(*input)), keys },
        SPlan::Limit { input, n } => SPhys::LimitPhys { input: Box::new(lower_leaf_spec(*input)), n },
        SPlan::Join { .. } => SPhys::EmptyScanPhys { rels: Seq::empty() },
    }
}

/// The physical twin of a join-free logical plan (joins are implemented
/// through the memo, never here).
pub fn lower_leaf(p: &Plan) -> (r: PhysPlan)
    requires
        join_free(p@),
    ensures
        r@ == lower_leaf_spec(p@),
    decreases p,
{
    match p {
        Plan::Scan { rel } => PhysPlan::ScanPhys { rel: *rel },
        Plan::EmptyScan { rels } => PhysPlan::EmptyScanPhys { rels: copy_vec(rels) },
        Plan::Filter { input, predicate } => PhysPlan::FilterPhys {
            input: Box::new(lower_leaf(input)),
            predicate: predicate.clone(),
        },
        Plan::Project { input, exprs } => PhysPlan::ProjectPhys {
            input: Box::new(lower_leaf(input)),
            exprs: clone_exprs(exprs),
        },
        Plan::Sort { input, keys } => PhysPlan::SortPhys {
            input: Box::new(lower_leaf(input)),
            keys: clone_keys(keys),
        },
        Plan::Limit { input, n } => PhysPlan::LimitPhys { input: Box::new(lower_leaf(input)), n: *n },
        Plan::Join { .. } => PhysPlan::EmptyScanPhys { rels: Vec::new() },
    }
}

/// A key pair with its smaller column first.
pub open spec fn orient_min(p: (ColRef, ColRef)) -> (ColRef, ColRef) {
    if colref_le(p.1, p.0) && p.1 != p.0 {
        (p.1, p.0)
    } else {
        p
    }
}

/// Key pairs in canonical form: each with its smaller column first, the
/// list sorted. Two joins with the same keys then compare equal whatever
/// their sides.
pub open spec fn canon_on_spec(on: Seq<(ColRef, ColRef)>) -> Seq<(ColRef, ColRef)> {
    sorted_keys(on.map_values(|p: (ColRef, ColRef)| orient_min(p)))
}

/// Key pairs in canonical form (see `canon_on_spec`).
pub fn canon_on(on: Vec<(ColRef, ColRef)>) -> (r: Vec<(ColRef, ColRef)>)
    ensures
        r@ == canon_on_spec(on@),
{
    let mut v: Vec<(ColRef, ColRef)> = Vec::new();
    let mut i: usize = 0;
    while i < on.len()
        invariant
            i <= on@.len(),
            v@ == on@.take(i as int).map_values(|p: (ColRef, ColRef)| orient_min(p)),
        decreases on.len() - i,
    {
        let (a, b) = on[i];
        if ColRef::le_exec(b, a) && !ColRef::eq_exec(b, a) {
            v.push((b, a));
        } else {
            v.push((a, b));
        }
        i = i + 1;
        proof {
            assert(v@ =~= on@.take(i as int).map_values(|p: (ColRef, ColRef)| orient_min(p)));
        }
    }
    proof {
        assert(on@.take(i as int) =~= on@);
    }
    sort_keys(v)
}

/// The text of a physical plan whose lines start with `prefix`, two more
/// spaces per level below, one node per line.
pub open spec fn phys_text(p: SPhys, prefix: Seq<char>, ft: Seq<(u64, Seq<char>)>) -> Seq<char>
    decreases p,
{
    match p {
        SPhys::ScanPhys { rel } => prefix + "ScanPhys #"@ + dec_nat(rel as nat) + "\n"@,
        SPhys::EmptyScanPhys { rels } => prefix + "EmptyScanPhys ["@ + rels_text(rels) + "]\n"@,
        SPhys::FilterPhys { input, predicate } => prefix + "FilterPhys "@ + expr_text(predicate, ft)
            + "\n"@ + phys_text(*input, prefix + "  "@, ft),
        SPhys::ProjectPhys { input, exprs } => prefix + "ProjectPhys ["@ + exprs_text(
            exprs,
            ", "@,
            ft,
        ) + "]\n"@ + phys_text(*input, prefix + "  "@, ft),
        SPhys::HashJoinPhys { build, probe, on } => prefix + "HashJoinPhys on=["@ + pairs_text(on)
            + "] (build, probe)\n"@ + phys_text(*build, prefix + "  "@, ft) + phys_text(
            *probe,
            prefix + "  "@,
            ft,
        ),
        SPhys::NestedLoopPhys { left, right, on, filter } => prefix + "NestedLoopPhys on=["@
            + pairs_text(on) + "]"@ + match filter {
            Some(f) => " filter="@ + expr_text(f, ft),
            None => Seq::empty(),
        } + "\n"@ + phys_text(*left, prefix + "  "@, ft) + phys_text(*right, prefix + "  "@, ft),
        SPhys::SortPhys { input, keys } => prefix + "SortPhys ["@ + keys_text(keys, ft) + "]\n"@
            + phys_text(*input, prefix + "  "@, ft),
        SPhys::LimitPhys { input, n } => prefix + "LimitPhys "@ + dec_nat(n as nat) + "\n"@
            + phys_text(*input, prefix + "  "@, ft),
    }
}

/// Appends the text of a physical plan whose lines start with `prefix`.
#[verifier::spinoff_prover]
#[verifier::rlimit(60)]
fn push_phys(out: &mut String, p: &PhysPlan, prefix: &str, table: &Vec<(u64, String)>)
    ensures
        final(out)@ == old(out)@ + phys_text(p@, prefix@, table_view(table@)),
    decreases p,
{
    let ghost ft = table_view(table@);
    let ghost start = out@;
    out.append(prefix);
    match p {
        PhysPlan::ScanPhys { rel } => {
            push_lit(out, "ScanPhys #");
            push_dec(out, *rel as u64);
            push_lit(out, "\n");
        },
        PhysPlan::EmptyScanPhys { rels } => {
            push_lit(out, "EmptyScanPhys [");
            push_rels(out, rels);
            push_lit(out, "]\n");
        },
        PhysPlan::FilterPhys { input, predicate } => {
            push_lit(out, "FilterPhys ");
            push_expr(out, predicate, table);
            push_lit(out, "\n");
            let child = deeper(prefix);
            push_phys(out, input, child.as_str(), table);
        },
        PhysPlan::ProjectPhys { input, exprs } => {
            push_lit(out, "ProjectPhys [");
            push_exprs(out, exprs, ", ", table);
            push_lit(out, "]\n");
            let child = deeper(prefix);
            push_phys(out, input, child.as_str(), table);
        },
        PhysPlan::HashJoinPhys { build, probe, on } => {
            push_lit(out, "HashJoinPhys on=[");
            push_pairs(out, on);
            push_lit(out, "] (build, probe)\n");
            let child = deeper(prefix);
            push_phys(out, build, child.as_str(), table);
            push_phys(out, probe, child.as_str(), table);
        },
        PhysPlan::NestedLoopPhys { left, right, on, filter } => {
            push_lit(out, "NestedLoopPhys on=[");
            push_pairs(out, on);
            push_lit(out, "]");
            match filter {
                Some(f) => {
                    push_lit(out, " filter=");
                    push_expr(out, f, table);
                },
                None => {},
            }
            push_lit(out, "\n");
            let child = deeper(prefix);
            push_phys(out, left, child.as_str(), table);
            push_phys(out, right, child.as_str(), table);
        },
        PhysPlan::SortPhys { input, keys } => {
            push_lit(out, "SortPhys [");
            push_keys(out, keys, table);
            push_lit(out, "]\n");
            let child = deeper(prefix);
            push_phys(out, input, child.as_str(), table);
        },
        PhysPlan::LimitPhys { input, n } => {
            push_lit(out, "LimitPhys ");
            push_dec(out, *n);
            push_lit(out, "\n");
            let child = deeper(prefix);
            push_phys(out, input, child.as_str(), table);
        },
    }
    proof {
        assert(out@ =~= start + phys_text(p@, prefix@, ft));
    }
}

impl PhysPlan {
    /// The text of this plan, spelling double literals by `table`.
    pub fn render(&self, table: &Vec<(u64, String)>) -> (r: String)
        ensures
            r@ == phys_text(self@, Seq::empty(), table_view(table@)),
    {
        let mut out = String::new();
        proof {
            reveal_strlit("");
        }
        push_phys(&mut out, self, "", table);
        proof {
            assert(out@ =~= phys_text(self@, Seq::empty(), table_view(table@)));
        }
        out
    }

    /// The text of this plan with no double spellings supplied.
    pub fn to_string(&self) -> (r: String)
        ensures
            r@ == phys_text(self@, Seq::empty(), Seq::empty()),
    {
        let table: Vec<(u64, String)> = Vec::new();
        proof {
            assert(table_view(table@) =~= Seq::empty());
        }
        self.render(&table)
    }
}

/// A memo expression: a join-free leaf plan, or a join of two groups
/// carrying its own key pairs (in `canon_on` form) and residual filter.
#[derive(Debug)]
pub enum MExpr {
    Leaf(Plan),
    Join { l: usize, r: usize, on: Vec<(ColRef, ColRef)>, filter: Option<Expr> },
}

pub enum SMExpr {
    Leaf(SPlan),
    Join { l: usize, r: usize, on: Seq<(ColRef, ColRef)>, filter: Option<SExpr> },
}

impl View for MExpr {
    type V = SMExpr;

    open spec fn view(&self) -> SMExpr {
        match *self {
            MExpr::Leaf(p) => SMExpr::Leaf(p@),
            MExpr::Join { l, r, on, filter } => SMExpr::Join { l, r, on: on@, filter: view_opt(filter) },
        }
    }
}

/// A group of equivalent expressions over one set of base relations.
#[derive(Debug)]
pub struct Group {
    pub rels: Vec<usize>,
    pub exprs: Vec<MExpr>,
}

pub struct SGroup {
    pub rels: Seq<usize>,
    pub exprs: Seq<SMExpr>,
}

pub open spec fn view_group(g: Group) -> SGroup {
    SGroup { rels: g.rels@, exprs: g.exprs@.map_values(|e: MExpr| e@) }
}

/// The memo: groups, each identified by its index.
#[derive(Debug)]
pub struct Memo {
    pub groups: Vec<Group>,
}

impl View for Memo {
    type V = Seq<SGroup>;

    open spec fn view(&self) -> Seq<SGroup> {
        self.groups@.map_values(|g: Group| view_group(g))
    }
}

/// Every join of the memo joins two of its groups.
pub open spec fn joins_valid(m: Seq<SGroup>) -> bool {
    forall|g: int, i: int|
        0 <= g < m.len() && 0 <= i < m[g].exprs.len() ==> (#[trigger] m[g].exprs[i] matches SMExpr::Join {
            l,
            r,
            ..
        } ==> l < m.len() && r < m.len())
}

/// The expression joins groups of the memo (a leaf always does).
pub open spec fn expr_valid(m: Seq<SGroup>, e: SMExpr) -> bool {
    e matches SMExpr::Join { l, r, .. } ==> l < m.len() && r < m.len()
}

/// The base relations of an expression, ascending, each once.
pub open spec fn mexpr_rels(m: Seq<SGroup>, e: SMExpr) -> Seq<usize> {
    match e {
        SMExpr::Leaf(p) => sorted_set(rels_of(p)),
        SMExpr::Join { l, r, .. } => sorted_set(m[l as int].rels + m[r as int].rels),
    }
}

/// The first group from `i` on over exactly `rels`.
pub open spec fn find_group(m: Seq<SGroup>, rels: Seq<usize>, i: nat) -> Option<nat>
    decreases m.len() - i,
{
    if i >= m.len() {
        None
    } else if m[i as int].rels == rels {
        Some(i)
    } else {
        find_group(m, rels, i + 1)
    }
}

proof fn lemma_find_group(m: Seq<SGroup>, rels: Seq<usize>, i: nat)
    ensures
        find_group(m, rels, i) matches Some(g) ==> i <= g < m.len() && m[g as int].rels == rels
            && forall|j: int| i <= j < g ==> m[j].rels != rels,
        find_group(m, rels, i) is None ==> forall|j: int| i <= j < m.len() ==> m[j].rels != rels,
    decreases m.len() - i,
{
    if i < m.len() {
        lemma_find_group(m, rels, i + 1);
    }
}

/// Interning: the expression goes to the group over its relations (a new
/// group when there is none), unless that group holds it already; the
/// group, and whether the expression was new.
pub open spec fn intern_spec(m: Seq<SGroup>, e: SMExpr) -> (Seq<SGroup>, nat, bool) {
    let rels = mexpr_rels(m, e);
    match find_group(m, rels, 0) {
        Some(g) => if m[g as int].exprs.contains(e) {
            (m, g, false)
        } else {
            (m.update(g as int, SGroup { rels: m[g as int].rels, exprs: m[g as int].exprs.push(e) }), g, true)
        },
        None => (m.push(SGroup { rels, exprs: seq![e] }), m.len(), true),
    }
}

/// Whether two memo expressions have the same model.
fn mexpr_equal(a: &MExpr, b: &MExpr) -> (r: bool)
    ensures
        r == (a@ == b@),
{
    match (a, b) {
        (MExpr::Leaf(p), MExpr::Leaf(q)) => plan_equal(p, q),
        (
            MExpr::Join { l: l1, r: r1, on: o1, filter: f1 },
            MExpr::Join { l: l2, r: r2, on: o2, filter: f2 },
        ) => *l1 == *l2 && *r1 == *r2 && keys_equal(o1, o2) && opt_equal(f1, f2),
        _ => false,
    }
}

/// Whether a vector of usizes is the sequence `rels`.
fn find_group_exec(memo: &Memo, rels: &Vec<usize>) -> (r: Option<usize>)
    ensures
        match r {
            Some(g) => find_group(memo@, rels@, 0) == Some(g as nat),
            None => find_group(memo@, rels@, 0) is None,
        },
{
    let ghost m = memo@;
    let mut i: usize = 0;
    while i < memo.groups.len()
        invariant
            i <= memo.groups@.len(),
            m == memo@,
            find_group(m, rels@, 0) == find_group(m, rels@, i as nat),
        decreases memo.groups.len() - i,
    {
        if keys_equal(&memo.groups[i].rels, rels) {
            return Some(i);
        }
        i = i + 1;
    }
    None
}

/// Whether the group holds an expression with the model of `e`.
fn group_holds(g: &Group, e: &MExpr) -> (r: bool)
    ensures
        r == view_group(*g).exprs.contains(e@),
{
    let ghost es = view_group(*g).exprs;
    let mut i: usize = 0;
    while i < g.exprs.len()
        invariant
            i <= g.exprs@.len(),
            es == view_group(*g).exprs,
            forall|j: int| 0 <= j < i ==> es[j] != e@,
        decreases g.exprs.len() - i,
    {
        if mexpr_equal(&g.exprs[i], e) {
            proof {
                assert(es[i as int] == e@);
            }
            return true;
        }
        i = i + 1;
    }
    false
}

impl Memo {
    /// The base relations of an expression (see `mexpr_rels`).
    pub fn rels_of(&self, e: &MExpr) -> (r: Vec<usize>)
        requires
            expr_valid(self@, e@),
        ensures
            r@ == mexpr_rels(self@, e@),
    {
        match e {
            MExpr::Leaf(p) => sort_dedup(plan_rels(p)),
            MExpr::Join { l, r, .. } => {
                let mut a = copy_vec(&self.groups[*l].rels);
                let mut b = copy_vec(&self.groups[*r].rels);
                a.append(&mut b);
                sort_dedup(a)
            },
        }
    }

    /// Interns an expression (see `intern_spec`): its group, and whether
    /// it was new.
    pub fn intern(&mut self, e: MExpr) -> (r: (usize, bool))
        requires
            expr_valid(old(self)@, e@),
        ensures
            final(self)@ == intern_spec(old(self)@, e@).0,
            r.0 == intern_spec(old(self)@, e@).1,
            r.1 == intern_spec(old(self)@, e@).2,
    {
        let ghost m = self@;
        let rels = self.rels_of(&e);
        proof {
            lemma_find_group(m, rels@, 0);
        }
        match find_group_exec(self, &rels) {
            Some(g) => {
                if group_holds(&self.groups[g], &e) {
                    (g, false)
                } else {
                    let ghost ev = e@;
                    let mut group = self.groups.remove(g);
                    let ghost before = group;
                    group.exprs.push(e);
                    self.groups.insert(g, group);
                    proof {
                        assert(view_group(group).exprs =~= view_group(before).exprs.push(ev));
                        assert(self@ =~= intern_spec(m, ev).0);
                    }
                    (g, true)
                }
            },
            None => {
                let ghost ev = e@;
                let mut exprs: Vec<MExpr> = Vec::new();
                exprs.push(e);
                let n = self.groups.len();
                self.groups.push(Group { rels, exprs });
                proof {
                    assert(view_group(self.groups@[n as int]).exprs =~= seq![ev]);
                    assert(self@ =~= intern_spec(m, ev).0);
                }
                (n, true)
            },
        }
    }
}

/// The commuted twin of a join (nothing for a leaf).
pub open spec fn flip(e: SMExpr) -> Seq<SMExpr> {
    match e {
        SMExpr::Join { l, r, on, filter } => seq![SMExpr::Join { l: r, r: l, on, filter }],
        SMExpr::Leaf(_) => Seq::empty(),
    }
}

/// The commuted twins of the joins among `es`, in order.
pub open spec fn flips_of(es: Seq<SMExpr>) -> Seq<SMExpr>
    decreases es.len(),
{
    if es.len() == 0 {
        Seq::empty()
    } else {
        flips_of(es.drop_last()) + flip(es.last())
    }
}

/// The commuted twins of the joins of the first `k` groups, group by
/// group.
pub open spec fn t1_pending(m: Seq<SGroup>, k: nat) -> Seq<SMExpr>
    decreases k,
{
    if k == 0 {
        Seq::empty()
    } else {
        t1_pending(m, (k - 1) as nat) + flips_of(m[k - 1].exprs)
    }
}

/// Interns the expressions in order; the memo, and how many were new.
pub open spec fn intern_all(m: Seq<SGroup>, es: Seq<SMExpr>) -> (Seq<SGroup>, nat)
    decreases es.len(),
{
    if es.len() == 0 {
        (m, 0)
    } else {
        let p = intern_all(m, es.drop_last());
        let q = intern_spec(p.0, es.last());
        (q.0, p.1 + if q.2 {
            1nat
        } else {
            0nat
        })
    }
}

/// Interning keeps the existing groups' relations and joins valid, and
/// never removes a group.
pub proof fn lemma_intern_keeps(m: Seq<SGroup>, e: SMExpr)
    requires
        joins_valid(m),
        expr_valid(m, e),
    ensures
        intern_spec(m, e).0.len() >= m.len(),
        intern_spec(m, e).1 < intern_spec(m, e).0.len(),
        joins_valid(intern_spec(m, e).0),
        forall|g: int| 0 <= g < m.len() ==> #[trigger] intern_spec(m, e).0[g].rels == m[g].rels,
        forall|g: int, i: int|
            0 <= g < m.len() && 0 <= i < m[g].exprs.len() ==> #[trigger] intern_spec(m, e).0[g].exprs[i]
                == m[g].exprs[i],
        forall|g: int| 0 <= g < m.len() ==> #[trigger] intern_spec(m, e).0[g].exprs.len() >= m[g].exprs.len(),
{
    let rels = mexpr_rels(m, e);
    lemma_find_group(m, rels, 0);
    let m2 = intern_spec(m, e).0;
    assert forall|g: int, i: int|
        0 <= g < m2.len() && 0 <= i < m2[g].exprs.len() implies (#[trigger] m2[g].exprs[i] matches SMExpr::Join {
        l,
        r,
        ..
    } ==> l < m2.len() && r < m2.len()) by {
        if g < m.len() && i < m[g].exprs.len() {
            assert(m2[g].exprs[i] == m[g].exprs[i]);
        } else {
            assert(m2[g].exprs[i] == e);
        }
    }
}

proof fn lemma_intern_all_keeps(m: Seq<SGroup>, es: Seq<SMExpr>)
    requires
        joins_valid(m),
        forall|i: int| 0 <= i < es.len() ==> expr_valid(m, #[trigger] es[i]),
    ensures
        intern_all(m, es).0.len() >= m.len(),
        joins_valid(intern_all(m, es).0),
        intern_all(m, es).1 <= es.len(),
        forall|g: int| 0 <= g < m.len() ==> #[trigger] intern_all(m, es).0[g].rels == m[g].rels,
    decreases es.len(),
{
    if es.len() > 0 {
        let init = es.drop_last();
        assert forall|i: int| 0 <= i < init.len() implies expr_valid(m, #[trigger] init[i]) by {
            assert(init[i] == es[i]);
        }
        lemma_intern_all_keeps(m, init);
        let p = intern_all(m, init);
        assert(expr_valid(m, es[es.len() - 1]));
        lemma_intern_keeps(p.0, es.last());
    }
}

proof fn lemma_flips_valid(m: Seq<SGroup>, es: Seq<SMExpr>)
    requires
        forall|i: int| 0 <= i < es.len() ==> expr_valid(m, #[trigger] es[i]),
    ensures
        forall|i: int| 0 <= i < flips_of(es).len() ==> expr_valid(m, #[trigger] flips_of(es)[i]),
    decreases es.len(),
{
    if es.len() > 0 {
        let init = es.drop_last();
        assert forall|i: int| 0 <= i < init.len() implies expr_valid(m, #[trigger] init[i]) by {
            assert(init[i] == es[i]);
        }
        lemma_flips_valid(m, init);
        assert(expr_valid(m, es[es.len() - 1]));
        let a = flips_of(init);
        let b = flip(es.last());
        assert(flips_of(es) == a + b);
        assert forall|i: int| 0 <= i < (a + b).len() implies expr_valid(m, #[trigger] (a + b)[i]) by {
            if i < a.len() {
                assert((a + b)[i] == a[i]);
            } else {
                assert((a + b)[i] == b[i - a.len()]);
            }
        }
    }
}

proof fn lemma_t1_valid(m: Seq<SGroup>, k: nat)
    requires
        joins_valid(m),
        k <= m.len(),
    ensures
        forall|i: int| 0 <= i < t1_pending(m, k).len() ==> expr_valid(m, #[trigger] t1_pending(m, k)[i]),
    decreases k,
{
    if k > 0 {
        lemma_t1_valid(m, (k - 1) as nat);
        let es = m[k - 1].exprs;
        assert forall|i: int| 0 <= i < es.len() implies expr_valid(m, #[trigger] es[i]) by {
            assert(m[k - 1].exprs[i] == es[i]);
        }
        lemma_flips_valid(m, es);
        let a = t1_pending(m, (k - 1) as nat);
        let b = flips_of(es);
        assert(t1_pending(m, k) == a + b);
        assert forall|i: int| 0 <= i < (a + b).len() implies expr_valid(m, #[trigger] (a + b)[i]) by {
            if i < a.len() {
                assert((a + b)[i] == a[i]);
            } else {
                assert((a + b)[i] == b[i - a.len()]);
            }
        }
    }
}

/// A copy of a join's key pairs and filter, commuted.
fn flipped(e: &MExpr) -> (r: Option<MExpr>)
    ensures
        match r {
            Some(f) => flip(e@) == seq![f@],
            None => flip(e@) == Seq::<SMExpr>::empty(),
        },
{
    match e {
        MExpr::Join { l, r, on, filter } => Some(
            MExpr::Join { l: *r, r: *l, on: copy_vec(on), filter: clone_opt(filter) },
        ),
        MExpr::Leaf(_) => None,
    }
}

impl Memo {
    /// Every join of the memo joins two of its groups, and every
    /// expression is found where interning looks for it.
    pub open spec fn wf(&self) -> bool {
        joins_valid(self@) && all_present(self@) && rels_distinct(self@)
    }

    /// Interns the expressions in order (see `intern_all`); how many
    /// were new.
    fn intern_each(&mut self, pending: Vec<MExpr>) -> (r: usize)
        requires
            old(self).wf(),
            forall|i: int| 0 <= i < pending@.len() ==> expr_valid(old(self)@, #[trigger] pending@[i]@),
        ensures
            final(self).wf(),
            final(self)@ == intern_all(old(self)@, pending@.map_values(|e: MExpr| e@)).0,
            r == intern_all(old(self)@, pending@.map_values(|e: MExpr| e@)).1,
    {
        let ghost m0 = self@;
        let ghost pv = pending@.map_values(|e: MExpr| e@);
        proof {
            assert forall|i: int| 0 <= i < pv.len() implies expr_valid(m0, #[trigger] pv[i]) by {
                assert(pv[i] == pending@[i]@);
            }
        }
        let n = pending.len();
        let mut rest = pending;
        let mut todo: Vec<MExpr> = Vec::new();
        // reversed, so that popping yields the input order
        while rest.len() > 0
            invariant
                rest@.len() + todo@.len() == n,
                forall|i: int| 0 <= i < rest@.len() ==> #[trigger] rest@[i]@ == pv[i],
                forall|i: int| 0 <= i < todo@.len() ==> #[trigger] todo@[i]@ == pv[n - 1 - i],
            decreases rest.len(),
        {
            let e = rest.pop().unwrap();
            todo.push(e);
        }
        let mut count: usize = 0;
        let mut k: usize = 0;
        while todo.len() > 0
            invariant
                k + todo@.len() == n,
                n == pv.len(),
                forall|i: int| 0 <= i < todo@.len() ==> #[trigger] todo@[i]@ == pv[n - 1 - i],
                forall|i: int| 0 <= i < pv.len() ==> expr_valid(m0, #[trigger] pv[i]),
                joins_valid(m0),
                self.wf(),
                self@ == intern_all(m0, pv.take(k as int)).0,
                count == intern_all(m0, pv.take(k as int)).1,
                count <= k,
            decreases todo.len(),
        {
            let e = todo.pop().unwrap();
            proof {
                let t = pv.take(k as int);
                assert forall|i: int| 0 <= i < t.len() implies expr_valid(m0, #[trigger] t[i]) by {
                    assert(t[i] == pv[i]);
                }
                lemma_intern_all_keeps(m0, t);
                assert(e@ == pv[k as int]);
                assert(expr_valid(m0, pv[k as int]));
                assert(pv.take(k + 1).drop_last() =~= t);
                lemma_intern_keeps_present(intern_all(m0, t).0, pv[k as int]);
                lemma_intern_keeps_rels_distinct(intern_all(m0, t).0, pv[k as int]);
            }
            let (_, new) = self.intern(e);
            proof {
                lemma_intern_keeps(intern_all(m0, pv.take(k as int)).0, pv[k as int]);
            }
            if new {
                count = count + 1;
            }
            k = k + 1;
        }
        proof {
            assert(pv.take(n as int) =~= pv);
        }
        count
    }

    /// Join commutativity: interns the commuted twin of every join; how
    /// many were new (see `t1_pending`).
    pub fn apply_commutativity(&mut self) -> (r: usize)
        requires
            old(self).wf(),
        ensures
            final(self).wf(),
            final(self)@ == intern_all(old(self)@, t1_pending(old(self)@, old(self)@.len())).0,
            r == intern_all(old(self)@, t1_pending(old(self)@, old(self)@.len())).1,
    {
        let ghost m = self@;
        let mut pending: Vec<MExpr> = Vec::new();
        let mut g: usize = 0;
        while g < self.groups.len()
            invariant
                g <= self.groups@.len(),
                m == self@,
                pending@.map_values(|e: MExpr| e@) == t1_pending(m, g as nat),
            decreases self.groups.len() - g,
        {
            let ghost es = m[g as int].exprs;
            let ghost before = pending@.map_values(|e: MExpr| e@);
            let mut i: usize = 0;
            while i < self.groups[g].exprs.len()
                invariant
                    g < self.groups@.len(),
                    i <= self.groups@[g as int].exprs@.len(),
                    m == self@,
                    es == m[g as int].exprs,
                    es.len() == self.groups@[g as int].exprs@.len(),
                    pending@.map_values(|e: MExpr| e@) == before + flips_of(es.take(i as int)),
                decreases self.groups@[g as int].exprs@.len() - i,
            {
                let f = flipped(&self.groups[g].exprs[i]);
                proof {
                    assert(es[i as int] == self.groups@[g as int].exprs@[i as int]@);
                    assert(es.take(i + 1).drop_last() =~= es.take(i as int));
                }
                let ghost pb = pending@;
                match f {
                    Some(x) => {
                        pending.push(x);
                        proof {
                            assert(pending@.map_values(|e: MExpr| e@) =~= pb.map_values(|e: MExpr| e@)
                                + flip(es[i as int]));
                        }
                    },
                    None => {},
                }
                i = i + 1;
                proof {
                    assert(pending@.map_values(|e: MExpr| e@) =~= before + flips_of(es.take(i as int)));
                }
            }
            proof {
                assert(es.take(i as int) =~= es);
            }
            g = g + 1;
        }
        proof {
            lemma_t1_valid(m, m.len());
            assert forall|i: int| 0 <= i < pending@.len() implies expr_valid(m, #[trigger] pending@[i]@) by {
                assert(pending@.map_values(|e: MExpr| e@)[i] == pending@[i]@);
            }
        }
        self.intern_each(pending)
    }
}

/// The conjuncts of an optional filter.
pub open spec fn conjuncts_of(f: Option<SExpr>) -> Seq<SExpr> {
    match f {
        Some(e) => split_conj(e),
        None => Seq::empty(),
    }
}

/// A pending re-association `(x ⋈ y) ⋈ z` into `x ⋈ (y ⋈ z)`: the three
/// groups, and the pools of key pairs and conjuncts of both joins.
pub type Reassoc = (usize, usize, usize, Seq<(ColRef, ColRef)>, Seq<SExpr>);

/// The re-associations of the outer join `l ⋈ z` (keys `on`, filter `f`)
/// through each join among `inner`, the expressions of group `l`.
pub open spec fn reassoc_through(
    z: usize,
    on: Seq<(ColRef, ColRef)>,
    f: Option<SExpr>,
    inner: Seq<SMExpr>,
) -> Seq<Reassoc>
    decreases inner.len(),
{
    if inner.len() == 0 {
        Seq::empty()
    } else {
        reassoc_through(z, on, f, inner.drop_last()) + match inner.last() {
            SMExpr::Join { l: x, r: y, on: on_i, filter: f_i } => seq![
                (x, y, z, on + on_i, conjuncts_of(f) + conjuncts_of(f_i)),
            ],
            SMExpr::Leaf(_) => Seq::empty(),
        }
    }
}

/// The re-associations of the joins among `es`.
pub open spec fn reassoc_of(m: Seq<SGroup>, es: Seq<SMExpr>) -> Seq<Reassoc>
    decreases es.len(),
{
    if es.len() == 0 {
        Seq::empty()
    } else {
        reassoc_of(m, es.drop_last()) + match es.last() {
            SMExpr::Join { l, r, on, filter } => reassoc_through(r, on, filter, m[l as int].exprs),
            SMExpr::Leaf(_) => Seq::empty(),
        }
    }
}

/// The re-associations of the joins of the first `k` groups.
pub open spec fn t2_pending(m: Seq<SGroup>, k: nat) -> Seq<Reassoc>
    decreases k,
{
    if k == 0 {
        Seq::empty()
    } else {
        t2_pending(m, (k - 1) as nat) + reassoc_of(m, m[k - 1].exprs)
    }
}

/// The key pair joins a column of `yr` with one of `zr`.
pub open spec fn spans(p: (ColRef, ColRef), yr: Seq<usize>, zr: Seq<usize>) -> bool {
    (yr.contains(p.0.rel) && zr.contains(p.1.rel)) || (yr.contains(p.1.rel) && zr.contains(p.0.rel))
}

/// The key pairs of `s` that span `yr` and `zr` (`inside`), or the others,
/// in order.
pub open spec fn keys_spanning(
    s: Seq<(ColRef, ColRef)>,
    yr: Seq<usize>,
    zr: Seq<usize>,
    inside: bool,
) -> Seq<(ColRef, ColRef)>
    decreases s.len(),
{
    if s.len() == 0 {
        s
    } else if spans(s.last(), yr, zr) == inside {
        keys_spanning(s.drop_last(), yr, zr, inside).push(s.last())
    } else {
        keys_spanning(s.drop_last(), yr, zr, inside)
    }
}

/// The conjuncts of `s` whose columns all lie in `rels` (`inside`), or the
/// others, in order.
pub open spec fn conjuncts_within(s: Seq<SExpr>, rels: Seq<usize>, inside: bool) -> Seq<SExpr>
    decreases s.len(),
{
    if s.len() == 0 {
        s
    } else if all_in(expr_cols(s.last()), rels) == inside {
        conjuncts_within(s.drop_last(), rels, inside).push(s.last())
    } else {
        conjuncts_within(s.drop_last(), rels, inside)
    }
}

/// The conjunction of `v` in canonical form, or no filter when empty.
pub open spec fn rebuild_filter(v: Seq<SExpr>) -> Option<SExpr> {
    if v.len() == 0 {
        None
    } else {
        Some(canon(SExpr::And(v)))
    }
}

/// One re-association: the keys and conjuncts that lie within `y ⋈ z`
/// go to a new inner join of `y` and `z`, the others to the outer join
/// of `x` with it; both are interned. The memo, and how many of the two
/// were new.
pub open spec fn reassoc_step(m: Seq<SGroup>, t: Reassoc) -> (Seq<SGroup>, nat) {
    let (x, y, z, on_pool, fpool) = t;
    let yr = m[y as int].rels;
    let zr = m[z as int].rels;
    let on_in = keys_spanning(on_pool, yr, zr, true);
    let on_out = keys_spanning(on_pool, yr, zr, false);
    let f_in = conjuncts_within(fpool, yr + zr, true);
    let f_out = conjuncts_within(fpool, yr + zr, false);
    let inner = intern_spec(
        m,
        SMExpr::Join { l: y, r: z, on: canon_on_spec(on_in), filter: rebuild_filter(f_in) },
    );
    let outer = intern_spec(
        inner.0,
        SMExpr::Join { l: x, r: inner.1 as usize, on: canon_on_spec(on_out), filter: rebuild_filter(f_out) },
    );
    (outer.0, (if inner.2 {
        1nat
    } else {
        0nat
    }) + if outer.2 {
        1nat
    } else {
        0nat
    })
}

/// The re-associations in order; the memo, and how many expressions
/// were new.
pub open spec fn reassoc_all(m: Seq<SGroup>, ts: Seq<Reassoc>) -> (Seq<SGroup>, nat)
    decreases ts.len(),
{
    if ts.len() == 0 {
        (m, 0)
    } else {
        let p = reassoc_all(m, ts.drop_last());
        let q = reassoc_step(p.0, ts.last());
        (q.0, p.1 + q.1)
    }
}

/// A count, saturated at the largest `usize`.
pub open spec fn capped(n: nat) -> nat {
    if n <= usize::MAX {
        n
    } else {
        usize::MAX as nat
    }
}

/// The groups of a re-association belong to the memo.
pub open spec fn reassoc_valid(m: Seq<SGroup>, t: Reassoc) -> bool {
    t.0 < m.len() && t.1 < m.len() && t.2 < m.len()
}

proof fn lemma_reassoc_step_keeps(m: Seq<SGroup>, t: Reassoc)
    requires
        joins_valid(m),
        reassoc_valid(m, t),
    ensures
        joins_valid(reassoc_step(m, t).0),
        reassoc_step(m, t).0.len() >= m.len(),
        reassoc_step(m, t).1 <= 2,
{
    let (x, y, z, on_pool, fpool) = t;
    let yr = m[y as int].rels;
    let zr = m[z as int].rels;
    let e1 = SMExpr::Join {
        l: y,
        r: z,
        on: canon_on_spec(keys_spanning(on_pool, yr, zr, true)),
        filter: rebuild_filter(conjuncts_within(fpool, yr + zr, true)),
    };
    lemma_intern_keeps(m, e1);
    let inner = intern_spec(m, e1);
    let e2 = SMExpr::Join {
        l: x,
        r: inner.1 as usize,
        on: canon_on_spec(keys_spanning(on_pool, yr, zr, false)),
        filter: rebuild_filter(conjuncts_within(fpool, yr + zr, false)),
    };
    lemma_intern_keeps(inner.0, e2);
}

proof fn lemma_reassoc_all_keeps(m: Seq<SGroup>, ts: Seq<Reassoc>)
    requires
        joins_valid(m),
        forall|i: int| 0 <= i < ts.len() ==> reassoc_valid(m, #[trigger] ts[i]),
    ensures
        joins_valid(reassoc_all(m, ts).0),
        reassoc_all(m, ts).0.len() >= m.len(),
        reassoc_all(m, ts).1 <= 2 * ts.len(),
    decreases ts.len(),
{
    if ts.len() > 0 {
        let init = ts.drop_last();
        assert forall|i: int| 0 <= i < init.len() implies reassoc_valid(m, #[trigger] init[i]) by {
            assert(init[i] == ts[i]);
        }
        lemma_reassoc_all_keeps(m, init);
        assert(reassoc_valid(m, ts[ts.len() - 1]));
        lemma_reassoc_step_keeps(reassoc_all(m, init).0, ts.last());
    }
}

proof fn lemma_reassoc_through_valid(
    m: Seq<SGroup>,
    z: usize,
    on: Seq<(ColRef, ColRef)>,
    f: Option<SExpr>,
    inner: Seq<SMExpr>,
)
    requires
        z < m.len(),
        forall|i: int| 0 <= i < inner.len() ==> expr_valid(m, #[trigger] inner[i]),
    ensures
        forall|i: int| 0 <= i < reassoc_through(z, on, f, inner).len() ==> reassoc_valid(
            m,
            #[trigger] reassoc_through(z, on, f, inner)[i],
        ),
    decreases inner.len(),
{
    if inner.len() > 0 {
        let init = inner.drop_last();
        assert forall|i: int| 0 <= i < init.len() implies expr_valid(m, #[trigger] init[i]) by {
            assert(init[i] == inner[i]);
        }
        lemma_reassoc_through_valid(m, z, on, f, init);
        assert(expr_valid(m, inner[inner.len() - 1]));
        let a = reassoc_through(z, on, f, init);
        let all = reassoc_through(z, on, f, inner);
        assert forall|i: int| 0 <= i < all.len() implies reassoc_valid(m, #[trigger] all[i]) by {
            if i < a.len() {
                assert(all[i] == a[i]);
            }
        }
    }
}

proof fn lemma_reassoc_of_valid(m: Seq<SGroup>, es: Seq<SMExpr>)
    requires
        joins_valid(m),
        forall|i: int| 0 <= i < es.len() ==> expr_valid(m, #[trigger] es[i]),
    ensures
        forall|i: int| 0 <= i < reassoc_of(m, es).len() ==> reassoc_valid(m, #[trigger] reassoc_of(m, es)[i]),
    decreases es.len(),
{
    if es.len() > 0 {
        let init = es.drop_last();
        assert forall|i: int| 0 <= i < init.len() implies expr_valid(m, #[trigger] init[i]) by {
            assert(init[i] == es[i]);
        }
        lemma_reassoc_of_valid(m, init);
        assert(expr_valid(m, es[es.len() - 1]));
        let a = reassoc_of(m, init);
        let all = reassoc_of(m, es);
        match es.last() {
            SMExpr::Join { l, r, on, filter } => {
                let inner = m[l as int].exprs;
                assert forall|i: int| 0 <= i < inner.len() implies expr_valid(m, #[trigger] inner[i]) by {
                    assert(m[l as int].exprs[i] == inner[i]);
                }
                lemma_reassoc_through_valid(m, r, on, filter, inner);
                let b = reassoc_through(r, on, filter, inner);
                assert forall|i: int| 0 <= i < all.len() implies reassoc_valid(m, #[trigger] all[i]) by {
                    if i < a.len() {
                        assert(all[i] == a[i]);
                    } else {
                        assert(all[i] == b[i - a.len()]);
                    }
                }
            },
            SMExpr::Leaf(_) => {
                assert(all == a);
            },
        }
    }
}

proof fn lemma_t2_valid(m: Seq<SGroup>, k: nat)
    requires
        joins_valid(m),
        k <= m.len(),
    ensures
        forall|i: int| 0 <= i < t2_pending(m, k).len() ==> reassoc_valid(m, #[trigger] t2_pending(m, k)[i]),
    decreases k,
{
    if k > 0 {
        lemma_t2_valid(m, (k - 1) as nat);
        let es = m[k - 1].exprs;
        assert forall|i: int| 0 <= i < es.len() implies expr_valid(m, #[trigger] es[i]) by {
            assert(m[k - 1].exprs[i] == es[i]);
        }
        lemma_reassoc_of_valid(m, es);
        let a = t2_pending(m, (k - 1) as nat);
        let b = reassoc_of(m, es);
        assert forall|i: int| 0 <= i < (a + b).len() implies reassoc_valid(m, #[trigger] (a + b)[i]) by {
            if i < a.len() {
                assert((a + b)[i] == a[i]);
            } else {
                assert((a + b)[i] == b[i - a.len()]);
            }
        }
    }
}

/// An executable re-association (see `Reassoc`).
pub type ReassocExec = (usize, usize, usize, Vec<(ColRef, ColRef)>, Vec<Expr>);

pub open spec fn view_reassoc(t: ReassocExec) -> Reassoc {
    (t.0, t.1, t.2, t.3@, view_exprs(t.4@))
}

/// The conjuncts of an optional filter (see `conjuncts_of`).
fn filter_conjuncts(f: &Option<Expr>) -> (r: Vec<Expr>)
    ensures
        view_exprs(r@) == conjuncts_of(view_opt(*f)),
{
    match f {
        Some(e) => split_conjunctions(e.clone()),
        None => {
            let v: Vec<Expr> = Vec::new();
            proof {
                assert(view_exprs(v@) =~= Seq::<SExpr>::empty());
            }
            v
        },
    }
}

/// Concatenates two expression lists.
fn concat_exprs(a: Vec<Expr>, b: Vec<Expr>) -> (r: Vec<Expr>)
    ensures
        view_exprs(r@) == view_exprs(a@) + view_exprs(b@),
{
    let mut a = a;
    let mut b = b;
    proof {
        lemma_view_exprs(a@);
        lemma_view_exprs(b@);
    }
    let ghost (va, vb) = (view_exprs(a@), view_exprs(b@));
    a.append(&mut b);
    proof {
        lemma_view_exprs(a@);
        assert(view_exprs(a@) =~= va + vb);
    }
    a
}

/// Partitions key pairs by whether they span `yr` and `zr`.
fn partition_keys(pool: &Vec<(ColRef, ColRef)>, yr: &Vec<usize>, zr: &Vec<usize>) -> (r: (
    Vec<(ColRef, ColRef)>,
    Vec<(ColRef, ColRef)>,
))
    ensures
        r.0@ == keys_spanning(pool@, yr@, zr@, true),
        r.1@ == keys_spanning(pool@, yr@, zr@, false),
{
    let mut ins: Vec<(ColRef, ColRef)> = Vec::new();
    let mut outs: Vec<(ColRef, ColRef)> = Vec::new();
    let mut i: usize = 0;
    while i < pool.len()
        invariant
            i <= pool@.len(),
            ins@ == keys_spanning(pool@.take(i as int), yr@, zr@, true),
            outs@ == keys_spanning(pool@.take(i as int), yr@, zr@, false),
        decreases pool.len() - i,
    {
        let (a, b) = pool[i];
        let span = (contains_usize(yr, a.rel) && contains_usize(zr, b.rel)) || (contains_usize(yr, b.rel)
            && contains_usize(zr, a.rel));
        proof {
            assert(pool@.take(i + 1).drop_last() =~= pool@.take(i as int));
        }
        if span {
            ins.push((a, b));
        } else {
            outs.push((a, b));
        }
        i = i + 1;
    }
    proof {
        assert(pool@.take(i as int) =~= pool@);
    }
    (ins, outs)
}

/// Partitions conjuncts by whether their columns all lie in `rels`.
fn partition_conjuncts(pool: Vec<Expr>, rels: &Vec<usize>) -> (r: (Vec<Expr>, Vec<Expr>))
    ensures
        view_exprs(r.0@) == conjuncts_within(view_exprs(pool@), rels@, true),
        view_exprs(r.1@) == conjuncts_within(view_exprs(pool@), rels@, false),
{
    let ghost pv = view_exprs(pool@);
    proof {
        lemma_view_exprs(pool@);
    }
    let n = pool.len();
    let mut rest = pool;
    let mut rev: Vec<Expr> = Vec::new();
    while rest.len() > 0
        invariant
            rest@.len() + rev@.len() == n,
            pv.len() == n,
            forall|i: int| 0 <= i < rest@.len() ==> #[trigger] view_expr(rest@[i]) == pv[i],
            forall|i: int| 0 <= i < rev@.len() ==> #[trigger] view_expr(rev@[i]) == pv[n - 1 - i],
        decreases rest.len(),
    {
        let e = rest.pop().unwrap();
        rev.push(e);
    }
    let mut ins: Vec<Expr> = Vec::new();
    let mut outs: Vec<Expr> = Vec::new();
    let mut k: usize = 0;
    while rev.len() > 0
        invariant
            k + rev@.len() == n,
            pv.len() == n,
            forall|i: int| 0 <= i < rev@.len() ==> #[trigger] view_expr(rev@[i]) == pv[n - 1 - i],
            view_exprs(ins@) == conjuncts_within(pv.take(k as int), rels@, true),
            view_exprs(outs@) == conjuncts_within(pv.take(k as int), rels@, false),
        decreases rev.len(),
    {
        let e = rev.pop().unwrap();
        proof {
            assert(view_expr(e) == pv[k as int]);
            assert(pv.take(k + 1).drop_last() =~= pv.take(k as int));
            assert(pv.take(k + 1).last() == pv[k as int]);
        }
        let cols = free_cols(&e);
        let ghost (bi, bo) = (ins@, outs@);
        if all_cols_in(&cols, rels) {
            ins.push(e);
            proof {
                assert(ins@.drop_last() =~= bi);
                assert(view_exprs(ins@) == view_exprs(bi).push(view_expr(e)));
            }
        } else {
            outs.push(e);
            proof {
                assert(outs@.drop_last() =~= bo);
                assert(view_exprs(outs@) == view_exprs(bo).push(view_expr(e)));
            }
        }
        k = k + 1;
    }
    proof {
        assert(pv.take(n as int) =~= pv);
    }
    (ins, outs)
}

/// The conjunction in canonical form, or nothing when empty (see
/// `rebuild_filter`).
fn rebuild_filter_exec(v: Vec<Expr>) -> (r: Option<Expr>)
    ensures
        view_opt(r) == rebuild_filter(view_exprs(v@)),
{
    proof {
        lemma_view_exprs(v@);
    }
    if v.len() == 0 {
        None
    } else {
        Some(canon_expr(Expr::And(v)))
    }
}

impl Memo {
    /// The re-associations of the joins of group `g`'s expression `i`
    /// through group `l`'s joins, appended to `pending`.
    fn collect_reassoc(&self, g: usize, i: usize, pending: &mut Vec<ReassocExec>)
        requires
            self.wf(),
            g < self.groups@.len(),
            i < self.groups@[g as int].exprs@.len(),
        ensures
            final(pending)@.map_values(|t: ReassocExec| view_reassoc(t)) == old(pending)@.map_values(
                |t: ReassocExec| view_reassoc(t),
            ) + match self@[g as int].exprs[i as int] {
                SMExpr::Join { l, r, on, filter } => reassoc_through(r, on, filter, self@[l as int].exprs),
                SMExpr::Leaf(_) => Seq::empty(),
            },
    {
        let ghost m = self@;
        let ghost start = pending@.map_values(|t: ReassocExec| view_reassoc(t));
        proof {
            assert(m[g as int].exprs[i as int] == self.groups@[g as int].exprs@[i as int]@);
        }
        match &self.groups[g].exprs[i] {
            MExpr::Join { l, r, on, filter } => {
                proof {
                    assert(joins_valid(m));
                    assert(m[g as int].exprs[i as int] matches SMExpr::Join { l, .. } && l < m.len());
                }
                let ghost inner = m[*l as int].exprs;
                let mut k: usize = 0;
                while k < self.groups[*l].exprs.len()
                    invariant
                        *l < self.groups@.len(),
                        k <= self.groups@[*l as int].exprs@.len(),
                        m == self@,
                        inner == m[*l as int].exprs,
                        inner.len() == self.groups@[*l as int].exprs@.len(),
                        pending@.map_values(|t: ReassocExec| view_reassoc(t)) == start + reassoc_through(
                            *r,
                            on@,
                            view_opt(*filter),
                            inner.take(k as int),
                        ),
                    decreases self.groups@[*l as int].exprs@.len() - k,
                {
                    proof {
                        assert(inner[k as int] == self.groups@[*l as int].exprs@[k as int]@);
                        assert(inner.take(k + 1).drop_last() =~= inner.take(k as int));
                    }
                    let ghost before = pending@;
                    match &self.groups[*l].exprs[k] {
                        MExpr::Join { l: x, r: y, on: on_i, filter: filter_i } => {
                            let mut pool = copy_vec(on);
                            let mut more = copy_vec(on_i);
                            pool.append(&mut more);
                            let fpool = concat_exprs(filter_conjuncts(filter), filter_conjuncts(filter_i));
                            let t: ReassocExec = (*x, *y, *r, pool, fpool);
                            pending.push(t);
                            proof {
                                assert(pending@.map_values(|t: ReassocExec| view_reassoc(t)) =~= before.map_values(
                                    |t: ReassocExec| view_reassoc(t),
                                ).push(view_reassoc(t)));
                            }
                        },
                        MExpr::Leaf(_) => {},
                    }
                    k = k + 1;
                    proof {
                        assert(pending@.map_values(|t: ReassocExec| view_reassoc(t)) =~= start
                            + reassoc_through(*r, on@, view_opt(*filter), inner.take(k as int)));
                    }
                }
                proof {
                    assert(inner.take(k as int) =~= inner);
                }
            },
            MExpr::Leaf(_) => {
                proof {
                    assert(pending@.map_values(|t: ReassocExec| view_reassoc(t)) =~= start);
                }
            },
        }
    }

    /// Every pending re-association of the memo (see `t2_pending`).
    fn reassoc_pending(&self) -> (r: Vec<ReassocExec>)
        requires
            self.wf(),
        ensures
            r@.map_values(|t: ReassocExec| view_reassoc(t)) == t2_pending(self@, self@.len()),
    {
        let ghost m = self@;
        let mut pending: Vec<ReassocExec> = Vec::new();
        let mut g: usize = 0;
        proof {
            assert(pending@.map_values(|t: ReassocExec| view_reassoc(t)) =~= Seq::<Reassoc>::empty());
        }
        while g < self.groups.len()
            invariant
                g <= self.groups@.len(),
                m == self@,
                self.wf(),
                pending@.map_values(|t: ReassocExec| view_reassoc(t)) == t2_pending(m, g as nat),
            decreases self.groups.len() - g,
        {
            let ghost es = m[g as int].exprs;
            let ghost before = pending@.map_values(|t: ReassocExec| view_reassoc(t));
            let mut i: usize = 0;
            while i < self.groups[g].exprs.len()
                invariant
                    g < self.groups@.len(),
                    i <= self.groups@[g as int].exprs@.len(),
                    m == self@,
                    self.wf(),
                    es == m[g as int].exprs,
                    es.len() == self.groups@[g as int].exprs@.len(),
                    pending@.map_values(|t: ReassocExec| view_reassoc(t)) == before + reassoc_of(
                        m,
                        es.take(i as int),
                    ),
                decreases self.groups@[g as int].exprs@.len() - i,
            {
                proof {
                    assert(es.take(i + 1).drop_last() =~= es.take(i as int));
                    assert(es.take(i + 1).last() == es[i as int]);
                }
                self.collect_reassoc(g, i, &mut pending);
                i = i + 1;
                proof {
                    assert(pending@.map_values(|t: ReassocExec| view_reassoc(t)) =~= before + reassoc_of(
                        m,
                        es.take(i as int),
                    ));
                }
            }
            proof {
                assert(es.take(i as int) =~= es);
            }
            g = g + 1;
        }
        pending
    }

    /// Carries out one re-association (see `reassoc_step`); how many of
    /// the two joins were new.
    fn reassoc_one(&mut self, t: ReassocExec) -> (r: usize)
        requires
            old(self).wf(),
            reassoc_valid(old(self)@, view_reassoc(t)),
        ensures
            final(self).wf(),
            final(self)@ == reassoc_step(old(self)@, view_reassoc(t)).0,
            r == reassoc_step(old(self)@, view_reassoc(t)).1,
    {
        let ghost m = self@;
        let ghost tv = view_reassoc(t);
        let (x, y, z, on_pool, fpool) = t;
        let yr = copy_vec(&self.groups[y].rels);
        let zr = copy_vec(&self.groups[z].rels);
        let (on_in, on_out) = partition_keys(&on_pool, &yr, &zr);
        let mut yz = copy_vec(&yr);
        let mut zc = copy_vec(&zr);
        yz.append(&mut zc);
        let (f_in, f_out) = partition_conjuncts(fpool, &yz);
        let inner_expr = MExpr::Join { l: y, r: z, on: canon_on(on_in), filter: rebuild_filter_exec(f_in) };
        let ghost e1 = inner_expr@;
        proof {
            lemma_intern_keeps(m, e1);
            lemma_intern_keeps_present(m, e1);
            lemma_intern_keeps_rels_distinct(m, e1);
        }
        let (inner, new_inner) = self.intern(inner_expr);
        let outer_expr = MExpr::Join {
            l: x,
            r: inner,
            on: canon_on(on_out),
            filter: rebuild_filter_exec(f_out),
        };
        let ghost m1 = self@;
        let ghost e2 = outer_expr@;
        proof {
            lemma_intern_keeps(m1, e2);
            lemma_intern_keeps_present(m1, e2);
            lemma_intern_keeps_rels_distinct(m1, e2);
        }
        let (_, new_outer) = self.intern(outer_expr);
        let a: usize = if new_inner {
            1
        } else {
            0
        };
        let b: usize = if new_outer {
            1
        } else {
            0
        };
        a + b
    }

    /// Join associativity: re-associates every `(x ⋈ y) ⋈ z` into
    /// `x ⋈ (y ⋈ z)` (see `t2_pending` and `reassoc_step`); how many
    /// expressions were new.
    pub fn apply_associativity(&mut self) -> (r: usize)
        requires
            old(self).wf(),
        ensures
            final(self).wf(),
            final(self)@ == reassoc_all(old(self)@, t2_pending(old(self)@, old(self)@.len())).0,
            r == capped(reassoc_all(old(self)@, t2_pending(old(self)@, old(self)@.len())).1),
    {
        let ghost m0 = self@;
        let pending = self.reassoc_pending();
        let ghost pv = pending@.map_values(|t: ReassocExec| view_reassoc(t));
        proof {
            lemma_t2_valid(m0, m0.len());
        }
        let n = pending.len();
        let mut rest = pending;
        let mut todo: Vec<ReassocExec> = Vec::new();
        while rest.len() > 0
            invariant
                rest@.len() + todo@.len() == n,
                pv.len() == n,
                forall|i: int| 0 <= i < rest@.len() ==> #[trigger] view_reassoc(rest@[i]) == pv[i],
                forall|i: int| 0 <= i < todo@.len() ==> #[trigger] view_reassoc(todo@[i]) == pv[n - 1 - i],
            decreases rest.len(),
        {
            let t = rest.pop().unwrap();
            todo.push(t);
        }
        let mut count: usize = 0;
        let mut k: usize = 0;
        while todo.len() > 0
            invariant
                k + todo@.len() == n,
                n == pv.len(),
                forall|i: int| 0 <= i < todo@.len() ==> #[trigger] view_reassoc(todo@[i]) == pv[n - 1 - i],
                forall|i: int| 0 <= i < pv.len() ==> reassoc_valid(m0, #[trigger] pv[i]),
                joins_valid(m0),
                self.wf(),
                self@ == reassoc_all(m0, pv.take(k as int)).0,
                count == capped(reassoc_all(m0, pv.take(k as int)).1),
            decreases todo.len(),
        {
            let t = todo.pop().unwrap();
            proof {
                let tk = pv.take(k as int);
                assert forall|i: int| 0 <= i < tk.len() implies reassoc_valid(m0, #[trigger] tk[i]) by {
                    assert(tk[i] == pv[i]);
                }
                lemma_reassoc_all_keeps(m0, tk);
                assert(view_reassoc(t) == pv[k as int]);
                assert(reassoc_valid(m0, pv[k as int]));
                assert(pv.take(k + 1).drop_last() =~= tk);
                lemma_reassoc_step_keeps(reassoc_all(m0, tk).0, pv[k as int]);
            }
            let added = self.reassoc_one(t);
            count = count.saturating_add(added);
            k = k + 1;
        }
        proof {
            assert(pv.take(n as int) =~= pv);
        }
        count
    }
}

/// Harvest: a normalized join tree into the memo, with its key pairs and
/// filters. Operators above a join (over more than one relation) are
/// stepped through; the maximal join-free subtrees become leaves. The
/// memo, and the group of the tree.
pub open spec fn build_spec(m: Seq<SGroup>, p: SPlan) -> (Seq<SGroup>, nat)
    decreases p,
{
    match p {
        SPlan::Join { left, right, on, filter } => {
            let l = build_spec(m, *left);
            let r = build_spec(l.0, *right);
            let i = intern_spec(
                r.0,
                SMExpr::Join { l: l.1 as usize, r: r.1 as usize, on: canon_on_spec(on), filter },
            );
            (i.0, i.1)
        },
        SPlan::Project { input, .. } => if rels_of(p).len() > 1 {
            build_spec(m, *input)
        } else {
            let i = intern_spec(m, SMExpr::Leaf(p));
            (i.0, i.1)
        },
        SPlan::Filter { input, .. } => if rels_of(p).len() > 1 {
            build_spec(m, *input)
        } else {
            let i = intern_spec(m, SMExpr::Leaf(p));
            (i.0, i.1)
        },
        SPlan::Sort { input, .. } => if rels_of(p).len() > 1 {
            build_spec(m, *input)
        } else {
            let i = intern_spec(m, SMExpr::Leaf(p));
            (i.0, i.1)
        },
        SPlan::Limit { input, .. } => if rels_of(p).len() > 1 {
            build_spec(m, *input)
        } else {
            let i = intern_spec(m, SMExpr::Leaf(p));
            (i.0, i.1)
        },
        _ => {
            let i = intern_spec(m, SMExpr::Leaf(p));
            (i.0, i.1)
        },
    }
}

proof fn lemma_build_keeps(m: Seq<SGroup>, p: SPlan)
    requires
        joins_valid(m),
    ensures
        joins_valid(build_spec(m, p).0),
        build_spec(m, p).0.len() >= m.len(),
        build_spec(m, p).1 < build_spec(m, p).0.len(),
    decreases p,
{
    match p {
        SPlan::Join { left, right, on, filter } => {
            lemma_build_keeps(m, *left);
            let l = build_spec(m, *left);
            lemma_build_keeps(l.0, *right);
            let r = build_spec(l.0, *right);
            lemma_intern_keeps(
                r.0,
                SMExpr::Join { l: l.1 as usize, r: r.1 as usize, on: canon_on_spec(on), filter },
            );
        },
        SPlan::Project { input, .. } => {
            lemma_build_keeps(m, *input);
            lemma_intern_keeps(m, SMExpr::Leaf(p));
        },
        SPlan::Filter { input, .. } => {
            lemma_build_keeps(m, *input);
            lemma_intern_keeps(m, SMExpr::Leaf(p));
        },
        SPlan::Sort { input, .. } => {
            lemma_build_keeps(m, *input);
            lemma_intern_keeps(m, SMExpr::Leaf(p));
        },
        SPlan::Limit { input, .. } => {
            lemma_build_keeps(m, *input);
            lemma_intern_keeps(m, SMExpr::Leaf(p));
        },
        _ => {
            lemma_intern_keeps(m, SMExpr::Leaf(p));
        },
    }
}

/// Harvests a normalized plan into the memo (see `build_spec`); the
/// group of the plan.
pub fn build_memo(p: &Plan, memo: &mut Memo) -> (g: usize)
    requires
        old(memo).wf(),
    ensures
        final(memo).wf(),
        final(memo)@ == build_spec(old(memo)@, p@).0,
        g == build_spec(old(memo)@, p@).1,
    decreases p,
{
    proof {
        lemma_build_keeps(memo@, p@);
        reveal_with_fuel(view_plan, 2);
    }
    match p {
        Plan::Join { left, right, on, filter } => {
            let ghost m0 = memo@;
            let l = build_memo(left, memo);
            proof {
                lemma_build_keeps(m0, left@);
            }
            let ghost m1 = memo@;
            let r = build_memo(right, memo);
            proof {
                lemma_build_keeps(m1, right@);
            }
            let e = MExpr::Join { l, r, on: canon_on(copy_vec(on)), filter: clone_opt(filter) };
            proof {
                lemma_intern_keeps(memo@, e@);
                lemma_intern_keeps_present(memo@, e@);
                lemma_intern_keeps_rels_distinct(memo@, e@);
            }
            memo.intern(e).0
        },
        Plan::Project { input, .. } | Plan::Filter { input, .. } | Plan::Sort { input, .. } | Plan::Limit {
            input,
            ..
        } => {
            let rels = plan_rels(p);
            if rels.len() > 1 {
                build_memo(input, memo)
            } else {
                proof {
                    lemma_intern_keeps(memo@, SMExpr::Leaf(p@));
                    lemma_intern_keeps_present(memo@, SMExpr::Leaf(p@));
                    lemma_intern_keeps_rels_distinct(memo@, SMExpr::Leaf(p@));
                }
                memo.intern(MExpr::Leaf(clone_plan(p))).0
            }
        },
        _ => {
            proof {
                lemma_intern_keeps(memo@, SMExpr::Leaf(p@));
                lemma_intern_keeps_present(memo@, SMExpr::Leaf(p@));
                lemma_intern_keeps_rels_distinct(memo@, SMExpr::Leaf(p@));
            }
            memo.intern(MExpr::Leaf(clone_plan(p))).0
        },
    }
}

/// An operator above the join search, put back on top of its winner.
#[derive(Debug)]
pub enum Wrap {
    Project(Vec<Expr>),
    Filter(Expr),
    Limit(u64),
}

pub enum SWrap {
    Project(Seq<SExpr>),
    Filter(SExpr),
    Limit(u64),
}

impl View for Wrap {
    type V = SWrap;

    open spec fn view(&self) -> SWrap {
        match *self {
            Wrap::Project(v) => SWrap::Project(view_exprs(v@)),
            Wrap::Filter(e) => SWrap::Filter(view_expr(e)),
            Wrap::Limit(n) => SWrap::Limit(n),
        }
    }
}

/// Steps through the operators over more than one relation at the top of
/// a plan: Projects, Filters and Limits are collected outermost first, and
/// the keys of the innermost Sort become the demanded order. The wraps,
/// the order, and the plan below.
pub open spec fn peel_spec(p: SPlan) -> (Seq<SWrap>, Option<Seq<(SExpr, bool)>>, SPlan)
    decreases p,
{
    if rels_of(p).len() > 1 {
        match p {
            SPlan::Sort { input, keys } => {
                let (w, o, c) = peel_spec(*input);
                (w, if o is Some { o } else { Some(keys) }, c)
            },
            SPlan::Project { input, exprs } => {
                let (w, o, c) = peel_spec(*input);
                (seq![SWrap::Project(exprs)] + w, o, c)
            },
            SPlan::Filter { input, predicate } => {
                let (w, o, c) = peel_spec(*input);
                (seq![SWrap::Filter(predicate)] + w, o, c)
            },
            SPlan::Limit { input, n } => {
                let (w, o, c) = peel_spec(*input);
                (seq![SWrap::Limit(n)] + w, o, c)
            },
            _ => (Seq::empty(), None, p),
        }
    } else {
        (Seq::empty(), None, p)
    }
}

/// Steps through the top of a plan (see `peel_spec`).
pub fn peel(p: &Plan) -> (r: (Vec<Wrap>, Option<Vec<(Expr, bool)>>, Plan))
    ensures
        r.0@.map_values(|w: Wrap| w@) == peel_spec(p@).0,
        (match r.1 {
            Some(k) => Some(view_keys(k@)),
            None => None,
        }) == peel_spec(p@).1,
        r.2@ == peel_spec(p@).2,
    decreases p,
{
    proof {
        reveal_with_fuel(view_plan, 2);
    }
    let rels = plan_rels(p);
    if rels.len() > 1 {
        match p {
            Plan::Sort { input, keys } => {
                let (w, o, c) = peel(input);
                let o2 = match o {
                    Some(k) => Some(k),
                    None => Some(clone_keys(keys)),
                };
                (w, o2, c)
            },
            Plan::Project { input, exprs } => {
                let (w, o, c) = peel(input);
                let mut v: Vec<Wrap> = Vec::new();
                v.push(Wrap::Project(clone_exprs(exprs)));
                let ghost wv = w@.map_values(|x: Wrap| x@);
                let mut w = w;
                v.append(&mut w);
                proof {
                    assert(v@.map_values(|x: Wrap| x@) =~= seq![SWrap::Project(view_exprs(exprs@))] + wv);
                }
                (v, o, c)
            },
            Plan::Filter { input, predicate } => {
                let (w, o, c) = peel(input);
                let mut v: Vec<Wrap> = Vec::new();
                v.push(Wrap::Filter(predicate.clone()));
                let ghost wv = w@.map_values(|x: Wrap| x@);
                let mut w = w;
                v.append(&mut w);
                proof {
                    assert(v@.map_values(|x: Wrap| x@) =~= seq![SWrap::Filter(view_expr(*predicate))] + wv);
                }
                (v, o, c)
            },
            Plan::Limit { input, n } => {
                let (w, o, c) = peel(input);
                let mut v: Vec<Wrap> = Vec::new();
                v.push(Wrap::Limit(*n));
                let ghost wv = w@.map_values(|x: Wrap| x@);
                let mut w = w;
                v.append(&mut w);
                proof {
                    assert(v@.map_values(|x: Wrap| x@) =~= seq![SWrap::Limit(*n)] + wv);
                }
                (v, o, c)
            },
            _ => {
                let v: Vec<Wrap> = Vec::new();
                proof {
                    assert(v@.map_values(|x: Wrap| x@) =~= Seq::<SWrap>::empty());
                }
                (v, None, clone_plan(p))
            },
        }
    } else {
        let v: Vec<Wrap> = Vec::new();
        proof {
            assert(v@.map_values(|x: Wrap| x@) =~= Seq::<SWrap>::empty());
        }
        (v, None, clone_plan(p))
    }
}

/// The wraps put back around a physical plan, the first outermost.
pub open spec fn wrap_phys_spec(p: SPhys, w: Seq<SWrap>) -> SPhys
    decreases w.len(),
{
    if w.len() == 0 {
        p
    } else {
        let inner = wrap_phys_spec(p, w.drop_first());
        match w[0] {
            SWrap::Project(exprs) => SPhys::ProjectPhys { input: Box::new(inner), exprs },
            SWrap::Filter(predicate) => SPhys::FilterPhys { input: Box::new(inner), predicate },
            SWrap::Limit(n) => SPhys::LimitPhys { input: Box::new(inner), n },
        }
    }
}

/// The wraps put back around a logical plan, the first outermost.
pub open spec fn wrap_plan_spec(p: SPlan, w: Seq<SWrap>) -> SPlan
    decreases w.len(),
{
    if w.len() == 0 {
        p
    } else {
        let inner = wrap_plan_spec(p, w.drop_first());
        match w[0] {
            SWrap::Project(exprs) => SPlan::Project { input: Box::new(inner), exprs },
            SWrap::Filter(predicate) => SPlan::Filter { input: Box::new(inner), predicate },
            SWrap::Limit(n) => SPlan::Limit { input: Box::new(inner), n },
        }
    }
}

/// Puts the wraps back around a physical plan, innermost first (see
/// `wrap_phys_spec`).
pub fn wrap_phys(p: PhysPlan, wraps: Vec<Wrap>) -> (r: PhysPlan)
    ensures
        r@ == wrap_phys_spec(p@, wraps@.map_values(|w: Wrap| w@)),
{
    let ghost wv = wraps@.map_values(|w: Wrap| w@);
    let mut out = p;
    let mut rest = wraps;
    proof {
        assert(wv.skip(wv.len() as int) =~= Seq::<SWrap>::empty());
    }
    while rest.len() > 0
        invariant
            rest@.len() <= wv.len(),
            forall|i: int| 0 <= i < rest@.len() ==> #[trigger] rest@[i]@ == wv[i],
            out@ == wrap_phys_spec(p@, wv.skip(rest@.len() as int)),
        decreases rest.len(),
    {
        let w = rest.pop().unwrap();
        let ghost k = rest@.len() as int;
        proof {
            assert(w@ == wv[k]);
            assert(wv.skip(k).drop_first() =~= wv.skip(k + 1));
            assert(wv.skip(k)[0] == wv[k]);
        }
        out = match w {
            Wrap::Project(exprs) => PhysPlan::ProjectPhys { input: Box::new(out), exprs },
            Wrap::Filter(predicate) => PhysPlan::FilterPhys { input: Box::new(out), predicate },
            Wrap::Limit(n) => PhysPlan::LimitPhys { input: Box::new(out), n },
        };
    }
    proof {
        assert(wv.skip(0) =~= wv);
    }
    out
}

/// Peeling loses nothing but the Sorts: with no Sort peeled, putting the
/// wraps back around the plan below gives the plan again.
pub proof fn lemma_peel_round_trip(p: SPlan)
    requires
        peel_spec(p).1 is None,
    ensures
        wrap_plan_spec(peel_spec(p).2, peel_spec(p).0) == p,
    decreases p,
{
    if rels_of(p).len() > 1 {
        match p {
            SPlan::Sort { input, .. } => {
                assert(peel_spec(*input).1 is None ==> peel_spec(p).1 is Some);
            },
            SPlan::Project { input, exprs } => {
                lemma_peel_round_trip(*input);
                let w = peel_spec(p).0;
                assert(w.drop_first() =~= peel_spec(*input).0);
            },
            SPlan::Filter { input, predicate } => {
                lemma_peel_round_trip(*input);
                let w = peel_spec(p).0;
                assert(w.drop_first() =~= peel_spec(*input).0);
            },
            SPlan::Limit { input, n } => {
                lemma_peel_round_trip(*input);
                let w = peel_spec(p).0;
                assert(w.drop_first() =~= peel_spec(*input).0);
            },
            _ => {},
        }
    }
}

/// Re-wrapping commutes with reading a physical plan back as a logical
/// one.
pub proof fn lemma_wrap_phys_to_ir(x: SPhys, w: Seq<SWrap>)
    ensures
        phys_to_ir_spec(wrap_phys_spec(x, w)) == wrap_plan_spec(phys_to_ir_spec(x), w),
    decreases w.len(),
{
    if w.len() > 0 {
        lemma_wrap_phys_to_ir(x, w.drop_first());
    }
}

/// What an exhaustive search did: groups and expressions in the memo, and
/// the rule firings that produced a new expression.
pub struct SearchReport {
    pub groups: usize,
    pub exprs: usize,
    pub rule_apps: usize,
}

/// The memo-based optimizer.
pub struct VolcanoOptimizer;

impl VolcanoOptimizer {
    pub fn name(&self) -> (r: &'static str)
        ensures
            r@ == "volcano"@,
    {
        proof {
            reveal_strlit("volcano");
        }
        "volcano"
    }
}

/// No two groups are over the same relations.
pub open spec fn rels_distinct(m: Seq<SGroup>) -> bool {
    forall|i: int, j: int| 0 <= i < m.len() && 0 <= j < m.len() && i != j ==> m[i].rels != m[j].rels
}

proof fn lemma_find_group_first(m: Seq<SGroup>, rels: Seq<usize>, g: nat, i: nat)
    requires
        i <= g < m.len(),
        m[g as int].rels == rels,
        forall|j: int| i <= j < g ==> m[j].rels != rels,
    ensures
        find_group(m, rels, i) == Some(g),
    decreases g - i,
{
    if i < g {
        lemma_find_group_first(m, rels, g, i + 1);
    }
}

/// Interning keeps groups over distinct relations.
pub proof fn lemma_intern_keeps_rels_distinct(m: Seq<SGroup>, e: SMExpr)
    requires
        joins_valid(m),
        expr_valid(m, e),
        rels_distinct(m),
    ensures
        rels_distinct(intern_spec(m, e).0),
{
    lemma_find_group(m, mexpr_rels(m, e), 0);
    lemma_intern_keeps(m, e);
}

/// Interning an expression a second time changes nothing: it is found in
/// the same group, and reported as not new.
pub proof fn lemma_intern_twice(m: Seq<SGroup>, e: SMExpr)
    requires
        joins_valid(m),
        expr_valid(m, e),
    ensures
        intern_spec(intern_spec(m, e).0, e) == (intern_spec(m, e).0, intern_spec(m, e).1, false),
{
    let rels = mexpr_rels(m, e);
    let r = intern_spec(m, e);
    lemma_find_group(m, rels, 0);
    lemma_intern_keeps(m, e);
    assert(mexpr_rels(r.0, e) == rels);
    match find_group(m, rels, 0) {
        Some(g) => {
            lemma_find_group_first(r.0, rels, g, 0);
            if !m[g as int].exprs.contains(e) {
                assert(r.0[g as int].exprs.last() == e);
            }
        },
        None => {
            lemma_find_group_first(r.0, rels, m.len(), 0);
            assert(r.0[m.len() as int].exprs[0] == e);
        },
    }
}

/// A join and its commutation are over the same relations, so the
/// commuted join is interned into the group of the join it commutes.
pub proof fn lemma_commuted_join_same_group(
    m: Seq<SGroup>,
    l: usize,
    r: usize,
    on: Seq<(ColRef, ColRef)>,
    f: Option<SExpr>,
    on2: Seq<(ColRef, ColRef)>,
    f2: Option<SExpr>,
)
    requires
        joins_valid(m),
        l < m.len(),
        r < m.len(),
    ensures
        intern_spec(
            intern_spec(m, SMExpr::Join { l, r, on, filter: f }).0,
            SMExpr::Join { l: r, r: l, on: on2, filter: f2 },
        ).1 == intern_spec(m, SMExpr::Join { l, r, on, filter: f }).1,
{
    let e = SMExpr::Join { l, r, on, filter: f };
    let c = SMExpr::Join { l: r, r: l, on: on2, filter: f2 };
    let m1 = intern_spec(m, e).0;
    let g = intern_spec(m, e).1;
    lemma_intern_keeps(m, e);
    lemma_sorted_set_concat_commutes(m[l as int].rels, m[r as int].rels);
    assert(mexpr_rels(m1, c) == mexpr_rels(m, e));
    lemma_find_group(m, mexpr_rels(m, e), 0);
    lemma_find_group(m1, mexpr_rels(m, e), 0);
    match find_group(m, mexpr_rels(m, e), 0) {
        Some(g0) => {
            lemma_find_group_first(m1, mexpr_rels(m, e), g0, 0);
        },
        None => {
            lemma_find_group_first(m1, mexpr_rels(m, e), m.len(), 0);
        },
    }
}


/// The group interning would look in for `e` holds it.
pub open spec fn present(m: Seq<SGroup>, e: SMExpr) -> bool {
    match find_group(m, mexpr_rels(m, e), 0) {
        Some(g) => m[g as int].exprs.contains(e),
        None => false,
    }
}

/// Every expression of the memo is found where interning would look for it.
pub open spec fn all_present(m: Seq<SGroup>) -> bool {
    forall|g: int, i: int|
        0 <= g < m.len() && 0 <= i < m[g].exprs.len() ==> present(m, #[trigger] m[g].exprs[i])
}

/// `m2` keeps every group of `m`, with its relations and its expressions in
/// place.
pub open spec fn extends(m: Seq<SGroup>, m2: Seq<SGroup>) -> bool {
    &&& m2.len() >= m.len()
    &&& forall|g: int| 0 <= g < m.len() ==> #[trigger] m2[g].rels == m[g].rels
    &&& forall|g: int| 0 <= g < m.len() ==> #[trigger] m2[g].exprs.len() >= m[g].exprs.len()
    &&& forall|g: int, i: int|
        0 <= g < m.len() && 0 <= i < m[g].exprs.len() ==> #[trigger] m2[g].exprs[i] == m[g].exprs[i]
}

proof fn lemma_extends_trans(a: Seq<SGroup>, b: Seq<SGroup>, c: Seq<SGroup>)
    requires
        extends(a, b),
        extends(b, c),
    ensures
        extends(a, c),
{
    assert forall|g: int, i: int| 0 <= g < a.len() && 0 <= i < a[g].exprs.len() implies #[trigger] c[g].exprs[i]
        == a[g].exprs[i] by {
        assert(b[g].exprs[i] == a[g].exprs[i]);
    }
    assert forall|g: int| 0 <= g < a.len() implies #[trigger] c[g].rels == a[g].rels by {
        assert(b[g].rels == a[g].rels);
    }
    assert forall|g: int| 0 <= g < a.len() implies #[trigger] c[g].exprs.len() >= a[g].exprs.len() by {
        assert(b[g].exprs.len() >= a[g].exprs.len());
    }
}

/// Interning extends the memo, and the interned expression is then present.
proof fn lemma_intern_extends(m: Seq<SGroup>, e: SMExpr)
    requires
        joins_valid(m),
        expr_valid(m, e),
    ensures
        extends(m, intern_spec(m, e).0),
        present(intern_spec(m, e).0, e),
        forall|g: int, i: int|
            0 <= g < intern_spec(m, e).0.len() && 0 <= i < intern_spec(m, e).0[g].exprs.len() ==> (g < m.len()
                && i < m[g].exprs.len()) || #[trigger] intern_spec(m, e).0[g].exprs[i] == e,
{
    lemma_intern_keeps(m, e);
    let m2 = intern_spec(m, e).0;
    let rels = mexpr_rels(m, e);
    lemma_find_group(m, rels, 0);
    assert(mexpr_rels(m2, e) == rels);
    match find_group(m, rels, 0) {
        Some(g) => {
            lemma_find_group_first(m2, rels, g, 0);
            if !m[g as int].exprs.contains(e) {
                assert(m2[g as int].exprs.last() == e);
            }
        },
        None => {
            lemma_find_group_first(m2, rels, m.len(), 0);
            assert(m2[m.len() as int].exprs[0] == e);
        },
    }
}

/// A present expression stays present in any extension of the memo.
proof fn lemma_present_mono(m: Seq<SGroup>, m2: Seq<SGroup>, x: SMExpr)
    requires
        expr_valid(m, x),
        extends(m, m2),
        present(m, x),
    ensures
        present(m2, x),
{
    let rels = mexpr_rels(m, x);
    if let SMExpr::Join { l, r, .. } = x {
        assert(m2[l as int].rels == m[l as int].rels);
        assert(m2[r as int].rels == m[r as int].rels);
    }
    assert(mexpr_rels(m2, x) == rels);
    lemma_find_group(m, rels, 0);
    let g = find_group(m, rels, 0)->0;
    lemma_find_group_first(m2, rels, g, 0);
    let k = choose|k: int| 0 <= k < m[g as int].exprs.len() && m[g as int].exprs[k] == x;
    assert(m2[g as int].exprs[k] == x);
}

/// Interning a sequence extends the memo; afterwards every interned
/// expression is present, and every expression of the memo was there
/// before or is one of those interned.
proof fn lemma_intern_all_extends(m: Seq<SGroup>, es: Seq<SMExpr>)
    requires
        joins_valid(m),
        forall|i: int| 0 <= i < es.len() ==> expr_valid(m, #[trigger] es[i]),
    ensures
        extends(m, intern_all(m, es).0),
        forall|i: int| 0 <= i < es.len() ==> present(intern_all(m, es).0, #[trigger] es[i]),
        forall|g: int, i: int|
            0 <= g < intern_all(m, es).0.len() && 0 <= i < intern_all(m, es).0[g].exprs.len() ==> (g < m.len()
                && i < m[g].exprs.len()) || es.contains(#[trigger] intern_all(m, es).0[g].exprs[i]),
    decreases es.len(),
{
    let m2 = intern_all(m, es).0;
    if es.len() == 0 {
        assert(extends(m, m2));
    } else {
        let init = es.drop_last();
        assert forall|i: int| 0 <= i < init.len() implies expr_valid(m, #[trigger] init[i]) by {
            assert(init[i] == es[i]);
        }
        lemma_intern_all_extends(m, init);
        lemma_intern_all_keeps(m, init);
        let p = intern_all(m, init).0;
        let e = es.last();
        assert(expr_valid(m, es[es.len() - 1]));
        lemma_intern_extends(p, e);
        lemma_extends_trans(m, p, m2);
        assert forall|i: int| 0 <= i < es.len() implies present(m2, #[trigger] es[i]) by {
            if i < es.len() - 1 {
                assert(init[i] == es[i]);
                lemma_present_mono(p, m2, es[i]);
            }
        }
        assert forall|g: int, i: int|
            0 <= g < m2.len() && 0 <= i < m2[g].exprs.len() implies (g < m.len() && i < m[g].exprs.len())
            || es.contains(#[trigger] m2[g].exprs[i]) by {
            if m2[g].exprs[i] == e {
                assert(es[es.len() - 1] == e);
            } else {
                assert(g < p.len() && i < p[g].exprs.len());
                assert(m2[g].exprs[i] == p[g].exprs[i]);
                if !(g < m.len() && i < m[g].exprs.len()) {
                    let k = choose|k: int| 0 <= k < init.len() && init[k] == p[g].exprs[i];
                    assert(es[k] == init[k]);
                }
            }
        }
    }
}

/// Interning expressions that are all present changes nothing and finds
/// none new.
proof fn lemma_intern_all_present(m: Seq<SGroup>, es: Seq<SMExpr>)
    requires
        forall|i: int| 0 <= i < es.len() ==> present(m, #[trigger] es[i]),
    ensures
        intern_all(m, es) == (m, 0nat),
    decreases es.len(),
{
    if es.len() > 0 {
        let init = es.drop_last();
        assert forall|i: int| 0 <= i < init.len() implies present(m, #[trigger] init[i]) by {
            assert(init[i] == es[i]);
        }
        lemma_intern_all_present(m, init);
        assert(present(m, es[es.len() - 1]));
    }
}

/// Every commuted twin comes from a join of the groups looked at.
proof fn lemma_flips_origin(es: Seq<SMExpr>, t: int)
    requires
        0 <= t < flips_of(es).len(),
    ensures
        exists|i: int| 0 <= i < es.len() && flip(es[i]) == seq![#[trigger] flips_of(es)[t]],
    decreases es.len(),
{
    let init = es.drop_last();
    let a = flips_of(init);
    assert(flips_of(es) == a + flip(es.last()));
    if t < a.len() {
        lemma_flips_origin(init, t);
        let i = choose|i: int| 0 <= i < init.len() && flip(init[i]) == seq![#[trigger] flips_of(init)[t]];
        assert(init[i] == es[i]);
        assert(flips_of(es)[t] == a[t]);
    } else {
        assert(flip(es.last()).len() == 1);
        assert(flips_of(es)[t] == flip(es.last())[0]);
        assert(es[es.len() - 1] == es.last());
    }
}

proof fn lemma_t1_origin(m: Seq<SGroup>, k: nat, t: int)
    requires
        k <= m.len(),
        0 <= t < t1_pending(m, k).len(),
    ensures
        exists|g: int, i: int|
            0 <= g < k && 0 <= i < m[g].exprs.len() && flip(#[trigger] m[g].exprs[i]) == seq![t1_pending(m, k)[t]],
    decreases k,
{
    let a = t1_pending(m, (k - 1) as nat);
    let es = m[k - 1].exprs;
    assert(t1_pending(m, k) == a + flips_of(es));
    if t < a.len() {
        lemma_t1_origin(m, (k - 1) as nat, t);
        assert(t1_pending(m, k)[t] == a[t]);
        let (g, i) = choose|g: int, i: int|
            0 <= g < k - 1 && 0 <= i < m[g].exprs.len() && flip(#[trigger] m[g].exprs[i]) == seq![a[t]];
        assert(flip(m[g].exprs[i]) == seq![t1_pending(m, k)[t]]);
    } else {
        lemma_flips_origin(es, t - a.len());
        let i = choose|i: int| 0 <= i < es.len() && flip(es[i]) == seq![#[trigger] flips_of(es)[t - a.len()]];
        assert(t1_pending(m, k)[t] == flips_of(es)[t - a.len()]);
        assert(m[k - 1].exprs[i] == es[i]);
    }
}

/// The commuted twin of every join among the first `k` groups is pending.
proof fn lemma_flips_cover(es: Seq<SMExpr>, i: int)
    requires
        0 <= i < es.len(),
        es[i] is Join,
    ensures
        flips_of(es).contains(flip(es[i])[0]),
    decreases es.len(),
{
    let init = es.drop_last();
    let a = flips_of(init);
    assert(flips_of(es) == a + flip(es.last()));
    if i < es.len() - 1 {
        assert(init[i] == es[i]);
        lemma_flips_cover(init, i);
        let t = choose|t: int| 0 <= t < a.len() && a[t] == flip(init[i])[0];
        assert(flips_of(es)[t] == a[t]);
    } else {
        assert(flips_of(es)[a.len() as int] == flip(es.last())[0]);
    }
}

proof fn lemma_t1_cover(m: Seq<SGroup>, k: nat, g: int, i: int)
    requires
        k <= m.len(),
        0 <= g < k,
        0 <= i < m[g].exprs.len(),
        m[g].exprs[i] is Join,
    ensures
        t1_pending(m, k).contains(flip(m[g].exprs[i])[0]),
    decreases k,
{
    let a = t1_pending(m, (k - 1) as nat);
    let es = m[k - 1].exprs;
    assert(t1_pending(m, k) == a + flips_of(es));
    if g < k - 1 {
        lemma_t1_cover(m, (k - 1) as nat, g, i);
        let t = choose|t: int| 0 <= t < a.len() && a[t] == flip(m[g].exprs[i])[0];
        assert(t1_pending(m, k)[t] == a[t]);
    } else {
        assert(es[i] == m[g].exprs[i]);
        lemma_flips_cover(es, i);
        let t = choose|t: int| 0 <= t < flips_of(es).len() && flips_of(es)[t] == flip(es[i])[0];
        assert(t1_pending(m, k)[a.len() + t] == flips_of(es)[t]);
    }
}

/// Interning keeps every expression of the memo present.
#[verifier::spinoff_prover]
pub proof fn lemma_intern_keeps_present(m: Seq<SGroup>, e: SMExpr)
    requires
        joins_valid(m),
        expr_valid(m, e),
        all_present(m),
    ensures
        all_present(intern_spec(m, e).0),
{
    let m2 = intern_spec(m, e).0;
    lemma_intern_extends(m, e);
    lemma_intern_keeps(m, e);
    assert forall|g: int, i: int| 0 <= g < m2.len() && 0 <= i < m2[g].exprs.len() implies present(
        m2,
        #[trigger] m2[g].exprs[i],
    ) by {
        if m2[g].exprs[i] != e {
            assert((g < m.len() && i < m[g].exprs.len()) || intern_spec(m, e).0[g].exprs[i] == e);
            assert(g < m.len() && i < m[g].exprs.len());
            assert(m2[g].exprs[i] == m[g].exprs[i]);
            assert(present(m, m[g].exprs[i]));
            assert(expr_valid(m, m[g].exprs[i]));
            lemma_present_mono(m, m2, m[g].exprs[i]);
        }
    }
}

/// Commutation settles in one pass: on a memo whose expressions are all
/// present, a second pass of commutation adds nothing and changes nothing.
pub proof fn lemma_commutation_settles(m: Seq<SGroup>)
    requires
        joins_valid(m),
        all_present(m),
    ensures
        intern_all(
            intern_all(m, t1_pending(m, m.len())).0,
            t1_pending(intern_all(m, t1_pending(m, m.len())).0, intern_all(m, t1_pending(m, m.len())).0.len()),
        ) == (intern_all(m, t1_pending(m, m.len())).0, 0nat),
{
    let p = t1_pending(m, m.len());
    lemma_t1_valid(m, m.len());
    lemma_intern_all_extends(m, p);
    lemma_intern_all_keeps(m, p);
    let m1 = intern_all(m, p).0;
    let p1 = t1_pending(m1, m1.len());
    assert forall|t: int| 0 <= t < p1.len() implies present(m1, #[trigger] p1[t]) by {
        lemma_t1_origin(m1, m1.len(), t);
        let (g, i) = choose|g: int, i: int|
            0 <= g < m1.len() && 0 <= i < m1[g].exprs.len() && flip(#[trigger] m1[g].exprs[i]) == seq![p1[t]];
        let j = m1[g].exprs[i];
        assert(flip(j).len() == 1);
        assert(flip(j)[0] == p1[t]);
        if g < m.len() && i < m[g].exprs.len() {
            assert(j == m[g].exprs[i]);
            lemma_t1_cover(m, m.len(), g, i);
            let u = choose|u: int| 0 <= u < p.len() && p[u] == flip(m[g].exprs[i])[0];
            assert(present(m1, p[u]));
        } else {
            assert(p.contains(j));
            let u = choose|u: int| 0 <= u < p.len() && p[u] == j;
            lemma_t1_origin(m, m.len(), u);
            let (g0, i0) = choose|g0: int, i0: int|
                0 <= g0 < m.len() && 0 <= i0 < m[g0].exprs.len() && flip(#[trigger] m[g0].exprs[i0]) == seq![p[u]];
            let j0 = m[g0].exprs[i0];
            assert(flip(j0)[0] == j);
            assert(flip(j)[0] == j0);
            assert(present(m, j0));
            assert(expr_valid(m, j0));
            lemma_present_mono(m, m1, j0);
        }
    }
    lemma_intern_all_present(m1, p1);
}


proof fn lemma_reassoc_step_extends(m: Seq<SGroup>, t: Reassoc)
    requires
        joins_valid(m),
        reassoc_valid(m, t),
    ensures
        extends(m, reassoc_step(m, t).0),
        reassoc_step(m, t).1 == 0 ==> reassoc_step(m, t).0 == m,
{
    let (x, y, z, on_pool, fpool) = t;
    let yr = m[y as int].rels;
    let zr = m[z as int].rels;
    let e1 = SMExpr::Join {
        l: y,
        r: z,
        on: canon_on_spec(keys_spanning(on_pool, yr, zr, true)),
        filter: rebuild_filter(conjuncts_within(fpool, yr + zr, true)),
    };
    lemma_intern_keeps(m, e1);
    lemma_intern_extends(m, e1);
    let inner = intern_spec(m, e1);
    let e2 = SMExpr::Join {
        l: x,
        r: inner.1 as usize,
        on: canon_on_spec(keys_spanning(on_pool, yr, zr, false)),
        filter: rebuild_filter(conjuncts_within(fpool, yr + zr, false)),
    };
    lemma_intern_keeps(inner.0, e2);
    lemma_intern_extends(inner.0, e2);
    lemma_extends_trans(m, inner.0, intern_spec(inner.0, e2).0);
}

proof fn lemma_reassoc_all_extends(m: Seq<SGroup>, ts: Seq<Reassoc>)
    requires
        joins_valid(m),
        forall|i: int| 0 <= i < ts.len() ==> reassoc_valid(m, #[trigger] ts[i]),
    ensures
        extends(m, reassoc_all(m, ts).0),
        reassoc_all(m, ts).1 == 0 ==> reassoc_all(m, ts).0 == m,
    decreases ts.len(),
{
    if ts.len() == 0 {
        assert(extends(m, m));
    } else {
        let init = ts.drop_last();
        assert forall|i: int| 0 <= i < init.len() implies reassoc_valid(m, #[trigger] init[i]) by {
            assert(init[i] == ts[i]);
        }
        lemma_reassoc_all_extends(m, init);
        lemma_reassoc_all_keeps(m, init);
        let p = reassoc_all(m, init).0;
        assert(reassoc_valid(m, ts[ts.len() - 1]));
        lemma_reassoc_step_extends(p, ts.last());
        lemma_extends_trans(m, p, reassoc_all(m, ts).0);
    }
}

proof fn lemma_intern_all_unchanged(m: Seq<SGroup>, es: Seq<SMExpr>)
    ensures
        intern_all(m, es).1 == 0 ==> intern_all(m, es).0 == m,
    decreases es.len(),
{
    if es.len() > 0 {
        lemma_intern_all_unchanged(m, es.drop_last());
    }
}

impl Memo {
    /// One round of expansion: every join commuted, then every join
    /// re-associated; how many expressions were new (saturated at the
    /// largest `usize`). A round that adds nothing leaves the memo as it
    /// was, and the memo is then closed under both rules: neither finds
    /// anything new in it.
    pub fn expand_round(&mut self) -> (r: usize)
        requires
            old(self).wf(),
        ensures
            final(self).wf(),
            extends(old(self)@, final(self)@),
            final(self)@ == reassoc_all(
                intern_all(old(self)@, t1_pending(old(self)@, old(self)@.len())).0,
                t2_pending(
                    intern_all(old(self)@, t1_pending(old(self)@, old(self)@.len())).0,
                    intern_all(old(self)@, t1_pending(old(self)@, old(self)@.len())).0.len(),
                ),
            ).0,
            r == capped(
                intern_all(old(self)@, t1_pending(old(self)@, old(self)@.len())).1 + reassoc_all(
                    intern_all(old(self)@, t1_pending(old(self)@, old(self)@.len())).0,
                    t2_pending(
                        intern_all(old(self)@, t1_pending(old(self)@, old(self)@.len())).0,
                        intern_all(old(self)@, t1_pending(old(self)@, old(self)@.len())).0.len(),
                    ),
                ).1,
            ),
            r == 0 ==> final(self)@ == old(self)@,
            r == 0 ==> intern_all(final(self)@, t1_pending(final(self)@, final(self)@.len())).1 == 0,
            r == 0 ==> reassoc_all(final(self)@, t2_pending(final(self)@, final(self)@.len())).1 == 0,
    {
        let ghost m0 = self@;
        proof {
            lemma_t1_valid(m0, m0.len());
            lemma_intern_all_extends(m0, t1_pending(m0, m0.len()));
            lemma_intern_all_unchanged(m0, t1_pending(m0, m0.len()));
        }
        let a = self.apply_commutativity();
        let ghost m1 = self@;
        proof {
            lemma_t2_valid(m1, m1.len());
            lemma_reassoc_all_extends(m1, t2_pending(m1, m1.len()));
            lemma_extends_trans(m0, m1, reassoc_all(m1, t2_pending(m1, m1.len())).0);
        }
        let b = self.apply_associativity();
        a.saturating_add(b)
    }
}

/// One expansion round on the model: every join commuted, then every join
/// re-associated; the memo, and how many expressions were new.
pub open spec fn round_spec(m: Seq<SGroup>) -> (Seq<SGroup>, nat) {
    let c = intern_all(m, t1_pending(m, m.len()));
    let a = reassoc_all(c.0, t2_pending(c.0, c.0.len()));
    (a.0, c.1 + a.1)
}

/// The memo after `n` expansion rounds.
pub open spec fn rounds(m: Seq<SGroup>, n: nat) -> Seq<SGroup>
    decreases n,
{
    if n == 0 {
        m
    } else {
        round_spec(rounds(m, (n - 1) as nat)).0
    }
}

/// How many expressions the first `n` expansion rounds added.
pub open spec fn added_by_rounds(m: Seq<SGroup>, n: nat) -> nat
    decreases n,
{
    if n == 0 {
        0
    } else {
        added_by_rounds(m, (n - 1) as nat) + round_spec(rounds(m, (n - 1) as nat)).1
    }
}

/// After `n` rounds, a further round adds nothing: the expansion has
/// reached its fixpoint.
pub open spec fn settles_within(m: Seq<SGroup>, n: nat) -> bool {
    round_spec(rounds(m, n)).1 == 0
}

/// Expansion of the memo reaches a fixpoint after finitely many rounds.
pub open spec fn expansion_settles(m: Seq<SGroup>) -> bool {
    exists|n: nat| settles_within(m, n)
}

proof fn lemma_reassoc_all_unchanged(m: Seq<SGroup>, ts: Seq<Reassoc>)
    ensures
        reassoc_all(m, ts).1 == 0 ==> reassoc_all(m, ts).0 == m,
    decreases ts.len(),
{
    if ts.len() > 0 {
        lemma_reassoc_all_unchanged(m, ts.drop_last());
    }
}

/// Once a round adds nothing, every later round leaves the memo as it is
/// and adds nothing.
pub proof fn lemma_settled_stays(m: Seq<SGroup>, k: nat, j: nat)
    requires
        settles_within(m, k),
        k <= j,
    ensures
        rounds(m, j) == rounds(m, k),
        added_by_rounds(m, j) == added_by_rounds(m, k),
        settles_within(m, j),
    decreases j - k,
{
    if j > k {
        lemma_settled_stays(m, k, (j - 1) as nat);
        let p = rounds(m, (j - 1) as nat);
        let c = intern_all(p, t1_pending(p, p.len()));
        lemma_intern_all_unchanged(p, t1_pending(p, p.len()));
        lemma_reassoc_all_unchanged(c.0, t2_pending(c.0, c.0.len()));
    }
}

/// How many expressions the memo holds, over all its groups.
pub open spec fn expr_count(m: Seq<SGroup>) -> nat
    decreases m.len(),
{
    if m.len() == 0 {
        0
    } else {
        expr_count(m.drop_last()) + m.last().exprs.len()
    }
}

proof fn lemma_expr_count_grow(m: Seq<SGroup>, g: int, x: SGroup)
    requires
        0 <= g < m.len(),
        x.exprs.len() == m[g].exprs.len() + 1,
    ensures
        expr_count(m.update(g, x)) == expr_count(m) + 1,
    decreases m.len(),
{
    let u = m.update(g, x);
    if g == m.len() - 1 {
        assert(u.drop_last() =~= m.drop_last());
    } else {
        lemma_expr_count_grow(m.drop_last(), g, x);
        assert(u.drop_last() =~= m.drop_last().update(g, x));
    }
}

proof fn lemma_intern_count(m: Seq<SGroup>, e: SMExpr)
    ensures
        expr_count(intern_spec(m, e).0) == expr_count(m) + if intern_spec(m, e).2 {
            1nat
        } else {
            0nat
        },
{
    let rels = mexpr_rels(m, e);
    lemma_find_group(m, rels, 0);
    match find_group(m, rels, 0) {
        Some(g) => {
            if !m[g as int].exprs.contains(e) {
                lemma_expr_count_grow(
                    m,
                    g as int,
                    SGroup { rels: m[g as int].rels, exprs: m[g as int].exprs.push(e) },
                );
            }
        },
        None => {
            let m2 = m.push(SGroup { rels, exprs: seq![e] });
            assert(m2.drop_last() =~= m);
        },
    }
}

proof fn lemma_intern_all_count(m: Seq<SGroup>, es: Seq<SMExpr>)
    ensures
        expr_count(intern_all(m, es).0) == expr_count(m) + intern_all(m, es).1,
    decreases es.len(),
{
    if es.len() > 0 {
        lemma_intern_all_count(m, es.drop_last());
        lemma_intern_count(intern_all(m, es.drop_last()).0, es.last());
    }
}

proof fn lemma_reassoc_all_count(m: Seq<SGroup>, ts: Seq<Reassoc>)
    ensures
        expr_count(reassoc_all(m, ts).0) == expr_count(m) + reassoc_all(m, ts).1,
    decreases ts.len(),
{
    if ts.len() > 0 {
        lemma_reassoc_all_count(m, ts.drop_last());
        let p = reassoc_all(m, ts.drop_last()).0;
        let (x, y, z, on_pool, fpool) = ts.last();
        let yr = p[y as int].rels;
        let zr = p[z as int].rels;
        let e1 = SMExpr::Join {
            l: y,
            r: z,
            on: canon_on_spec(keys_spanning(on_pool, yr, zr, true)),
            filter: rebuild_filter(conjuncts_within(fpool, yr + zr, true)),
        };
        let inner = intern_spec(p, e1);
        let e2 = SMExpr::Join {
            l: x,
            r: inner.1 as usize,
            on: canon_on_spec(keys_spanning(on_pool, yr, zr, false)),
            filter: rebuild_filter(conjuncts_within(fpool, yr + zr, false)),
        };
        lemma_intern_count(p, e1);
        lemma_intern_count(inner.0, e2);
    }
}

/// Each expansion round adds to the memo exactly as many expressions as it
/// reports.
pub proof fn lemma_round_count(m: Seq<SGroup>)
    ensures
        expr_count(round_spec(m).0) == expr_count(m) + round_spec(m).1,
{
    let c = intern_all(m, t1_pending(m, m.len()));
    lemma_intern_all_count(m, t1_pending(m, m.len()));
    lemma_reassoc_all_count(c.0, t2_pending(c.0, c.0.len()));
}

proof fn lemma_rounds_grow(m: Seq<SGroup>, k: nat)
    ensures
        expr_count(rounds(m, k)) == expr_count(m) + added_by_rounds(m, k),
        (forall|j: nat| j < k ==> !#[trigger] settles_within(m, j)) ==> added_by_rounds(m, k) >= k,
    decreases k,
{
    if k > 0 {
        lemma_rounds_grow(m, (k - 1) as nat);
        lemma_round_count(rounds(m, (k - 1) as nat));
        if forall|j: nat| j < k ==> !#[trigger] settles_within(m, j) {
            assert(!settles_within(m, (k - 1) as nat));
            assert forall|j: nat| j < k - 1 implies !#[trigger] settles_within(m, j) by {
                assert(j < k);
            }
        }
    }
}

/// No number of expansion rounds takes the memo past `b` expressions.
pub open spec fn stays_within(m: Seq<SGroup>, b: nat) -> bool {
    forall|k: nat| #[trigger] expr_count(rounds(m, k)) <= b
}

/// Expansion settles exactly when the memo stays bounded: some size that
/// no number of rounds takes it past. Every round that adds nothing ends
/// the expansion, and every other round adds at least one expression.
pub proof fn lemma_settles_iff_bounded(m: Seq<SGroup>)
    ensures
        expansion_settles(m) <==> exists|b: nat| #[trigger] stays_within(m, b),
{
    if expansion_settles(m) {
        let n = choose|n: nat| settles_within(m, n);
        let b = expr_count(rounds(m, n));
        assert forall|k: nat| #[trigger] expr_count(rounds(m, k)) <= b by {
            if k >= n {
                lemma_settled_stays(m, n, k);
            } else {
                lemma_rounds_grow(m, k);
                lemma_rounds_grow(m, n);
                lemma_added_monotone(m, k, n);
            }
        }
        assert(stays_within(m, b));
    }
    if exists|b: nat| #[trigger] stays_within(m, b) {
        let b = choose|b: nat| #[trigger] stays_within(m, b);
        if !expansion_settles(m) {
            let k = b + 1;
            assert forall|j: nat| j < k implies !#[trigger] settles_within(m, j) by {}
            lemma_rounds_grow(m, k);
            assert(expr_count(rounds(m, k)) <= b);
        }
    }
}

proof fn lemma_added_monotone(m: Seq<SGroup>, k: nat, n: nat)
    requires
        k <= n,
    ensures
        added_by_rounds(m, k) <= added_by_rounds(m, n),
    decreases n - k,
{
    if k < n {
        lemma_added_monotone(m, k, (n - 1) as nat);
    }
}

impl Memo {
    /// Expansion to a fixpoint: rounds until one adds nothing; how many
    /// expressions they added in all (saturated at the largest `usize`).
    /// The memo ends closed under both rules.
    pub fn expand(&mut self) -> (r: usize)
        requires
            old(self).wf(),
            expansion_settles(old(self)@),
        ensures
            final(self).wf(),
            extends(old(self)@, final(self)@),
            exists|k: nat|
                #![trigger rounds(old(self)@, k)]
                settles_within(old(self)@, k) && final(self)@ == rounds(old(self)@, k) && r == capped(
                    added_by_rounds(old(self)@, k),
                ),
            intern_all(final(self)@, t1_pending(final(self)@, final(self)@.len())).1 == 0,
            reassoc_all(final(self)@, t2_pending(final(self)@, final(self)@.len())).1 == 0,
    {
        let ghost m0 = self@;
        let ghost n: nat = choose|n: nat| settles_within(m0, n);
        let ghost mut k: nat = 0;
        let mut total: usize = 0;
        proof {
            assert(extends(m0, m0));
        }
        loop
            invariant
                self.wf(),
                extends(m0, self@),
                self@ == rounds(m0, k),
                k <= n,
                settles_within(m0, n),
                total == capped(added_by_rounds(m0, k)),
            ensures
                self.wf(),
                extends(m0, self@),
                self@ == rounds(m0, k),
                settles_within(m0, k),
                total == capped(added_by_rounds(m0, k)),
                intern_all(self@, t1_pending(self@, self@.len())).1 == 0,
                reassoc_all(self@, t2_pending(self@, self@.len())).1 == 0,
            decreases n - k,
        {
            let ghost before = self@;
            let added = self.expand_round();
            proof {
                lemma_extends_trans(m0, before, self@);
            }
            if added == 0 {
                break;
            }
            total = total.saturating_add(added);
            proof {
                k = k + 1;
            }
        }
        total
    }
}


/// Interning places an expression in the one group over its relations: a
/// group born for it only when no group has those relations; it is new
/// exactly when no group held it; every other group is left as it was; and
/// groups stay over distinct relations.
pub proof fn lemma_intern_places(m: Seq<SGroup>, e: SMExpr)
    requires
        joins_valid(m),
        all_present(m),
        rels_distinct(m),
        expr_valid(m, e),
    ensures
        ({
            let (m2, g, new) = intern_spec(m, e);
            &&& g < m2.len()
            &&& m2[g as int].rels == mexpr_rels(m, e)
            &&& m2[g as int].exprs.contains(e)
            &&& new == !(exists|i: int| 0 <= i < m.len() && #[trigger] m[i].exprs.contains(e))
            &&& m2.len() == m.len() + if (exists|i: int| 0 <= i < m.len() && #[trigger] m[i].rels
                == mexpr_rels(m, e)) {
                0int
            } else {
                1int
            }
            &&& forall|j: int| 0 <= j < m.len() && j != g ==> #[trigger] m2[j] == m[j]
            &&& rels_distinct(m2)
        }),
{
    let rels = mexpr_rels(m, e);
    lemma_find_group(m, rels, 0);
    lemma_intern_keeps(m, e);
    lemma_intern_keeps_rels_distinct(m, e);
    lemma_intern_extends(m, e);
    let (m2, g, new) = intern_spec(m, e);
    if exists|i: int| 0 <= i < m.len() && #[trigger] m[i].exprs.contains(e) {
        let i = choose|i: int| 0 <= i < m.len() && #[trigger] m[i].exprs.contains(e);
        let k = choose|k: int| 0 <= k < m[i].exprs.len() && m[i].exprs[k] == e;
        assert(present(m, m[i].exprs[k]));
        assert(!new);
    }
    if exists|i: int| 0 <= i < m.len() && #[trigger] m[i].rels == rels {
        let i = choose|i: int| 0 <= i < m.len() && #[trigger] m[i].rels == rels;
        assert(find_group(m, rels, 0) is Some);
    }
    assert(g < m2.len());
    assert(m2[g as int].rels == rels);
    assert(present(m2, e));
    assert(mexpr_rels(m2, e) == rels);
    lemma_find_group(m2, rels, 0);
    assert(m2[g as int].exprs.contains(e));
    assert(forall|j: int| 0 <= j < m.len() && j != g ==> #[trigger] m2[j] == m[j]);
}

} // verus!
