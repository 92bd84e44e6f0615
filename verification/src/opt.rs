//! The optimizer interface, and the two optimizers that need no search:
//! the identity, and the stand-in for the cost-directed task search.

use vstd::prelude::*;
use crate::ir::Ir;
use crate::error::{OptError, todo_err};
use crate::p1::ir_wf;
use crate::stats::OptContext;

verus! {

/// An optimizer: a bound query in, an equivalent query out.
pub trait Optimizer {
    fn name(&self) -> &'static str;

    fn optimize(&self, plan: Ir, ctx: &OptContext) -> Result<Ir, OptError>
        requires
            ir_wf(plan),
    ;
}

/// Hands the query back unchanged.
pub struct IdentityOptimizer;

impl Optimizer for IdentityOptimizer {
    fn name(&self) -> (r: &'static str)
        ensures
            r@ == "identity"@,
    {
        proof {
            reveal_strlit("identity");
        }
        "identity"
    }

    fn optimize(&self, plan: Ir, ctx: &OptContext) -> (r: Result<Ir, OptError>)
        ensures
            r matches Ok(o) && o == plan,
    {
        Ok(plan)
    }
}

/// The task-stack search over the memo; not written yet.
pub struct CascadesOptimizer;

impl Optimizer for CascadesOptimizer {
    fn name(&self) -> (r: &'static str)
        ensures
            r@ == "cascades"@,
    {
        proof {
            reveal_strlit("cascades");
        }
        "cascades"
    }

    fn optimize(&self, plan: Ir, ctx: &OptContext) -> (r: Result<Ir, OptError>)
        ensures
            r matches Err(OptError::Todo(t)) && t.0@ == "p5 cascades"@,
    {
        proof {
            reveal_strlit("p5 cascades");
        }
        Err(todo_err("p5 cascades"))
    }
}

/// The dynamic-programming join orderer (its search prices plans in
/// floating point, outside this library).
pub struct SelingerOptimizer;

impl SelingerOptimizer {
    pub fn name(&self) -> (r: &'static str)
        ensures
            r@ == "selinger"@,
    {
        proof {
            reveal_strlit("selinger");
        }
        "selinger"
    }
}

} // verus!
