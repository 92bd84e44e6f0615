use optimize::ir::{CmpOp, ColRef, Expr, Plan};
use optimize::p4::{peel, phys_to_ir, wrap_phys, PhysPlan, Wrap};

fn col(rel: usize, col: usize) -> Expr {
    Expr::Col(ColRef { rel, col })
}

fn two_way() -> Plan {
    Plan::Join {
        left: Box::new(Plan::Scan { rel: 0 }),
        right: Box::new(Plan::Scan { rel: 1 }),
        on: vec![(ColRef { rel: 0, col: 0 }, ColRef { rel: 1, col: 1 })],
        filter: None,
    }
}

#[test]
fn peel_collects_wraps_and_the_demanded_order() {
    let pred = Expr::Cmp { op: CmpOp::Gt, l: Box::new(col(0, 2)), r: Box::new(Expr::Int(5)) };
    let plan = Plan::Project {
        input: Box::new(Plan::Limit {
            input: Box::new(Plan::Sort {
                input: Box::new(Plan::Filter { input: Box::new(two_way()), predicate: pred.clone() }),
                keys: vec![(col(1, 0), true)],
            }),
            n: 10,
        }),
        exprs: vec![col(0, 0), col(1, 0)],
    };
    let (wraps, order, core) = peel(&plan);
    assert_eq!(wraps.len(), 3);
    assert!(matches!(&wraps[0], Wrap::Project(v) if v == &vec![col(0, 0), col(1, 0)]));
    assert!(matches!(&wraps[1], Wrap::Limit(10)));
    assert!(matches!(&wraps[2], Wrap::Filter(p) if p == &pred));
    assert_eq!(order, Some(vec![(col(1, 0), true)]));
    assert_eq!(core, two_way());
}

#[test]
fn peel_stops_at_single_relation_operators() {
    let plan = Plan::Project { input: Box::new(Plan::Scan { rel: 0 }), exprs: vec![col(0, 1)] };
    let (wraps, order, core) = peel(&plan);
    assert!(wraps.is_empty());
    assert_eq!(order, None);
    assert_eq!(core, plan);
}

#[test]
fn wrap_phys_puts_the_first_wrap_outermost() {
    let base = PhysPlan::ScanPhys { rel: 0 };
    let out = wrap_phys(base, vec![Wrap::Limit(3), Wrap::Project(vec![col(0, 1)])]);
    assert_eq!(
        out,
        PhysPlan::LimitPhys {
            input: Box::new(PhysPlan::ProjectPhys {
                input: Box::new(PhysPlan::ScanPhys { rel: 0 }),
                exprs: vec![col(0, 1)],
            }),
            n: 3,
        }
    );
}

#[test]
fn peel_then_rewrap_gives_the_plan_back_without_sorts() {
    let plan = Plan::Limit {
        input: Box::new(Plan::Project { input: Box::new(two_way()), exprs: vec![col(1, 1)] }),
        n: 7,
    };
    let (wraps, order, core) = peel(&plan);
    assert_eq!(order, None);
    let phys = PhysPlan::NestedLoopPhys {
        left: Box::new(PhysPlan::ScanPhys { rel: 0 }),
        right: Box::new(PhysPlan::ScanPhys { rel: 1 }),
        on: vec![(ColRef { rel: 0, col: 0 }, ColRef { rel: 1, col: 1 })],
        filter: None,
    };
    assert_eq!(phys_to_ir(&phys), core);
    assert_eq!(phys_to_ir(&wrap_phys(phys, wraps)), plan);
}
