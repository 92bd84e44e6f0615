//! Text rendering of the IR: one plan node per line, children indented by
//! two spaces. Double literals are spelled by a caller-supplied table.

use vstd::prelude::*;
use crate::ir::{
    ArithOp, CmpOp, ColRef, Expr, Ir, Plan, SExpr, SPlan, view_expr, view_exprs, view_keys,
    view_opt, lemma_view_exprs,
};

verus! {

pub open spec fn digit_char(d: nat) -> char {
    if d == 0 {
        '0'
    } else if d == 1 {
        '1'
    } else if d == 2 {
        '2'
    } else if d == 3 {
        '3'
    } else if d == 4 {
        '4'
    } else if d == 5 {
        '5'
    } else if d == 6 {
        '6'
    } else if d == 7 {
        '7'
    } else if d == 8 {
        '8'
    } else {
        '9'
    }
}

/// Decimal digits of a natural number.
pub open spec fn dec_nat(n: nat) -> Seq<char>
    decreases n,
{
    if n < 10 {
        seq![digit_char(n)]
    } else {
        dec_nat(n / 10) + seq![digit_char(n % 10)]
    }
}

/// Decimal text of an integer, with a leading '-' when negative.
pub open spec fn dec_int(n: int) -> Seq<char> {
    if n < 0 {
        "-"@ + dec_nat((-n) as nat)
    } else {
        dec_nat(n as nat)
    }
}

/// The spelling of a double literal: the first table entry with its bit
/// pattern, or `float#` and the bits in decimal when the table has none.
pub open spec fn float_text(table: Seq<(u64, Seq<char>)>, bits: u64) -> Seq<char>
    decreases table.len(),
{
    if table.len() == 0 {
        "float#"@ + dec_nat(bits as nat)
    } else if table[0].0 == bits {
        table[0].1
    } else {
        float_text(table.drop_first(), bits)
    }
}

pub open spec fn colref_text(c: ColRef) -> Seq<char> {
    "#"@ + dec_nat(c.rel as nat) + "."@ + dec_nat(c.col as nat)
}

pub open spec fn comparison_symbol(o: CmpOp) -> Seq<char> {
    match o {
        CmpOp::Eq => "="@,
        CmpOp::Ne => "<>"@,
        CmpOp::Lt => "<"@,
        CmpOp::Le => "<="@,
        CmpOp::Gt => ">"@,
        CmpOp::Ge => ">="@,
    }
}

pub open spec fn arith_symbol(o: ArithOp) -> Seq<char> {
    match o {
        ArithOp::Add => "+"@,
        ArithOp::Sub => "-"@,
        ArithOp::Mul => "*"@,
        ArithOp::Div => "/"@,
    }
}

/// The text of an expression.
pub open spec fn expr_text(e: SExpr, ft: Seq<(u64, Seq<char>)>) -> Seq<char>
    decreases e, 0nat,
{
    match e {
        SExpr::Col(c) => colref_text(c),
        SExpr::Int(n) => dec_int(n as int),
        SExpr::Str(s) => "'"@ + s + "'"@,
        SExpr::Bool(b) => if b {
            "true"@
        } else {
            "false"@
        },
        SExpr::Float(bits) => float_text(ft, bits),
        SExpr::Cmp { op, l, r } => "("@ + expr_text(*l, ft) + " "@ + comparison_symbol(op)
            + " "@ + expr_text(*r, ft) + ")"@,
        SExpr::And(cs) => "("@ + exprs_text(cs, " AND "@, ft) + ")"@,
        SExpr::Or(cs) => "("@ + exprs_text(cs, " OR "@, ft) + ")"@,
        SExpr::Not(x) => "NOT ("@ + expr_text(*x, ft) + ")"@,
        SExpr::Arith { op, l, r } => "("@ + expr_text(*l, ft) + " "@ + arith_symbol(op)
            + " "@ + expr_text(*r, ft) + ")"@,
    }
}

/// The texts of a list of expressions joined by `sep`.
pub open spec fn exprs_text(s: Seq<SExpr>, sep: Seq<char>, ft: Seq<(u64, Seq<char>)>) -> Seq<char>
    decreases s, 1nat,
{
    if s.len() == 0 {
        Seq::empty()
    } else if s.len() == 1 {
        expr_text(s[0], ft)
    } else {
        exprs_text(s.drop_last(), sep, ft) + sep + expr_text(s.last(), ft)
    }
}

/// `#r` for each relation, joined by ", ".
pub open spec fn rels_text(s: Seq<usize>) -> Seq<char>
    decreases s.len(),
{
    if s.len() == 0 {
        Seq::empty()
    } else if s.len() == 1 {
        "#"@ + dec_nat(s[0] as nat)
    } else {
        rels_text(s.drop_last()) + ", "@ + "#"@ + dec_nat(s.last() as nat)
    }
}

/// `l = r` for each key pair, joined by ", ".
pub open spec fn pairs_text(s: Seq<(ColRef, ColRef)>) -> Seq<char>
    decreases s.len(),
{
    if s.len() == 0 {
        Seq::empty()
    } else if s.len() == 1 {
        colref_text(s[0].0) + " = "@ + colref_text(s[0].1)
    } else {
        pairs_text(s.drop_last()) + ", "@ + colref_text(s.last().0) + " = "@ + colref_text(
            s.last().1,
        )
    }
}

pub open spec fn key_text(k: (SExpr, bool), ft: Seq<(u64, Seq<char>)>) -> Seq<char> {
    expr_text(k.0, ft) + if k.1 {
        " DESC"@
    } else {
        " ASC"@
    }
}

/// Sort keys, joined by ", ".
pub open spec fn keys_text(s: Seq<(SExpr, bool)>, ft: Seq<(u64, Seq<char>)>) -> Seq<char>
    decreases s.len(),
{
    if s.len() == 0 {
        Seq::empty()
    } else if s.len() == 1 {
        key_text(s[0], ft)
    } else {
        keys_text(s.drop_last(), ft) + ", "@ + key_text(s.last(), ft)
    }
}

/// The text of a plan whose lines start with `prefix` (two more spaces per
/// level below): one node per line.
pub open spec fn plan_text(p: SPlan, prefix: Seq<char>, ft: Seq<(u64, Seq<char>)>) -> Seq<char>
    decreases p,
{
    match p {
        SPlan::Scan { rel } => prefix + "Scan #"@ + dec_nat(rel as nat) + "\n"@,
        SPlan::EmptyScan { rels } => prefix + "EmptyScan ["@ + rels_text(rels) + "]\n"@,
        SPlan::Filter { input, predicate } => prefix + "Filter "@ + expr_text(predicate, ft)
            + "\n"@ + plan_text(*input, prefix + "  "@, ft),
        SPlan::Project { input, exprs } => prefix + "Project ["@ + exprs_text(
            exprs,
            ", "@,
            ft,
        ) + "]\n"@ + plan_text(*input, prefix + "  "@, ft),
        SPlan::Join { left, right, on, filter } => prefix + "Join on=["@ + pairs_text(on)
            + "]"@ + match filter {
            Some(f) => " filter="@ + expr_text(f, ft),
            None => Seq::empty(),
        } + "\n"@ + plan_text(*left, prefix + "  "@, ft) + plan_text(*right, prefix + "  "@, ft),
        SPlan::Sort { input, keys } => prefix + "Sort ["@ + keys_text(keys, ft) + "]\n"@
            + plan_text(*input, prefix + "  "@, ft),
        SPlan::Limit { input, n } => prefix + "Limit "@ + dec_nat(n as nat) + "\n"@
            + plan_text(*input, prefix + "  "@, ft),
    }
}

/// The model of a float spelling table.
pub open spec fn table_view(t: Seq<(u64, String)>) -> Seq<(u64, Seq<char>)> {
    t.map_values(|e: (u64, String)| (e.0, e.1@))
}

fn digit_str(d: u64) -> (s: &'static str)
    requires
        d < 10,
    ensures
        s@ == seq![digit_char(d as nat)],
{
    if d == 0 {
        proof {
            reveal_strlit("0");
        }
        "0"
    } else if d == 1 {
        proof {
            reveal_strlit("1");
        }
        "1"
    } else if d == 2 {
        proof {
            reveal_strlit("2");
        }
        "2"
    } else if d == 3 {
        proof {
            reveal_strlit("3");
        }
        "3"
    } else if d == 4 {
        proof {
            reveal_strlit("4");
        }
        "4"
    } else if d == 5 {
        proof {
            reveal_strlit("5");
        }
        "5"
    } else if d == 6 {
        proof {
            reveal_strlit("6");
        }
        "6"
    } else if d == 7 {
        proof {
            reveal_strlit("7");
        }
        "7"
    } else if d == 8 {
        proof {
            reveal_strlit("8");
        }
        "8"
    } else {
        proof {
            reveal_strlit("9");
        }
        "9"
    }
}

/// Appends the decimal digits of `n`.
pub fn push_dec(out: &mut String, n: u64)
    ensures
        final(out)@ == old(out)@ + dec_nat(n as nat),
    decreases n,
{
    if n >= 10 {
        push_dec(out, n / 10);
    }
    out.append(digit_str(n % 10));
    proof {
        if n >= 10 {
            assert(old(out)@ + dec_nat((n / 10) as nat) + seq![digit_char((n % 10) as nat)] =~= old(
                out,
            )@ + dec_nat(n as nat));
        } else {
            assert(old(out)@ + seq![digit_char((n % 10) as nat)] =~= old(out)@ + dec_nat(n as nat));
        }
    }
}

/// Appends a literal.
pub(crate) fn push_lit(out: &mut String, s: &str)
    ensures
        final(out)@ == old(out)@ + s@,
{
    out.append(s);
}

/// Appends the decimal text of a signed integer.
pub fn push_int(out: &mut String, n: i64)
    ensures
        final(out)@ == old(out)@ + dec_int(n as int),
{
    if n < 0 {
        push_lit(out, "-");
        let m: u64 = if n == i64::MIN {
            9223372036854775808u64
        } else {
            (-n) as u64
        };
        push_dec(out, m);
        proof {
            assert(final(out)@ =~= old(out)@ + dec_int(n as int));
        }
    } else {
        push_dec(out, n as u64);
    }
}

pub(crate) fn push_colref(out: &mut String, c: ColRef)
    ensures
        final(out)@ == old(out)@ + colref_text(c),
{
    push_lit(out, "#");
    push_dec(out, c.rel as u64);
    push_lit(out, ".");
    push_dec(out, c.col as u64);
    proof {
        assert(final(out)@ =~= old(out)@ + colref_text(c));
    }
}

fn push_float(out: &mut String, bits: u64, table: &Vec<(u64, String)>)
    ensures
        final(out)@ == old(out)@ + float_text(table_view(table@), bits),
{
    let ghost tv = table_view(table@);
    let mut i: usize = 0;
    assert(tv.skip(0) =~= tv);
    while i < table.len()
        invariant
            i <= table@.len(),
            tv == table_view(table@),
            out@ == old(out)@,
            float_text(tv, bits) == float_text(tv.skip(i as int), bits),
        decreases table.len() - i,
    {
        assert(tv.skip(i as int)[0] == tv[i as int]);
        if table[i].0 == bits {
            assert(tv[i as int] == (table@[i as int].0, table@[i as int].1@));
            out.append(table[i].1.as_str());
            return;
        }
        assert(tv.skip(i as int).drop_first() =~= tv.skip(i + 1));
        i = i + 1;
    }
    assert(tv.skip(i as int).len() == 0);
    push_lit(out, "float#");
    push_dec(out, bits);
    proof {
        assert(final(out)@ =~= old(out)@ + float_text(tv, bits));
    }
}

/// Appends the text of an expression.
#[verifier::spinoff_prover]
#[verifier::rlimit(60)]
pub fn push_expr(out: &mut String, e: &Expr, table: &Vec<(u64, String)>)
    ensures
        final(out)@ == old(out)@ + expr_text(e@, table_view(table@)),
    decreases e,
{
    let ghost ft = table_view(table@);
    let ghost start = out@;
    match e {
        Expr::Col(c) => push_colref(out, *c),
        Expr::Int(n) => push_int(out, *n),
        Expr::Str(s) => {
            push_lit(out, "'");
            out.append(s.as_str());
            push_lit(out, "'");
        },
        Expr::Bool(b) => {
            if *b {
                push_lit(out, "true");
            } else {
                push_lit(out, "false");
            }
        },
        Expr::Float(bits) => push_float(out, *bits, table),
        Expr::Cmp { op, l, r } => {
            push_lit(out, "(");
            push_expr(out, l, table);
            push_lit(out, " ");
            match op {
                CmpOp::Eq => push_lit(out, "="),
                CmpOp::Ne => push_lit(out, "<>"),
                CmpOp::Lt => push_lit(out, "<"),
                CmpOp::Le => push_lit(out, "<="),
                CmpOp::Gt => push_lit(out, ">"),
                CmpOp::Ge => push_lit(out, ">="),
            }
            push_lit(out, " ");
            push_expr(out, r, table);
            push_lit(out, ")");
        },
        Expr::And(cs) => {
            push_lit(out, "(");
            push_exprs(out, cs, " AND ", table);
            push_lit(out, ")");
        },
        Expr::Or(cs) => {
            push_lit(out, "(");
            push_exprs(out, cs, " OR ", table);
            push_lit(out, ")");
        },
        Expr::Not(x) => {
            push_lit(out, "NOT (");
            push_expr(out, x, table);
            push_lit(out, ")");
        },
        Expr::Arith { op, l, r } => {
            push_lit(out, "(");
            push_expr(out, l, table);
            push_lit(out, " ");
            match op {
                ArithOp::Add => push_lit(out, "+"),
                ArithOp::Sub => push_lit(out, "-"),
                ArithOp::Mul => push_lit(out, "*"),
                ArithOp::Div => push_lit(out, "/"),
            }
            push_lit(out, " ");
            push_expr(out, r, table);
            push_lit(out, ")");
        },
    }
    proof {
        assert(out@ =~= start + expr_text(e@, ft));
    }
}

/// Appends the texts of expressions joined by `sep`.
pub fn push_exprs(out: &mut String, v: &Vec<Expr>, sep: &str, table: &Vec<(u64, String)>)
    ensures
        final(out)@ == old(out)@ + exprs_text(view_exprs(v@), sep@, table_view(table@)),
    decreases v,
{
    let ghost ft = table_view(table@);
    let ghost start = out@;
    let ghost vs = view_exprs(v@);
    proof {
        lemma_view_exprs(v@);
    }
    let mut i: usize = 0;
    while i < v.len()
        invariant
            i <= v@.len(),
            vs == view_exprs(v@),
            vs.len() == v@.len(),
            forall|j: int| 0 <= j < v@.len() ==> #[trigger] vs[j] == view_expr(v@[j]),
            ft == table_view(table@),
            out@ == start + exprs_text(vs.take(i as int), sep@, ft),
        decreases v.len() - i,
    {
        proof {
            assert(decreases_to!(v => v[i as int]));
            assert(vs.take(i + 1).drop_last() =~= vs.take(i as int));
            assert(vs.take(i + 1).last() == vs[i as int]);
        }
        if i > 0 {
            out.append(sep);
        }
        push_expr(out, &v[i], table);
        proof {
            if i == 0 {
                assert(vs.take(1)[0] == vs[0]);
                assert(out@ =~= start + exprs_text(vs.take(1), sep@, ft));
            } else {
                assert(out@ =~= start + exprs_text(vs.take(i + 1), sep@, ft));
            }
        }
        i = i + 1;
    }
    proof {
        assert(vs.take(i as int) =~= vs);
    }
}

pub(crate) fn push_rels(out: &mut String, v: &Vec<usize>)
    ensures
        final(out)@ == old(out)@ + rels_text(v@),
{
    let mut i: usize = 0;
    while i < v.len()
        invariant
            i <= v@.len(),
            out@ == old(out)@ + rels_text(v@.take(i as int)),
        decreases v.len() - i,
    {
        assert(v@.take(i + 1).drop_last() =~= v@.take(i as int));
        if i > 0 {
            push_lit(out, ", ");
        }
        push_lit(out, "#");
        push_dec(out, v[i] as u64);
        i = i + 1;
        proof {
            assert(out@ =~= old(out)@ + rels_text(v@.take(i as int)));
        }
    }
    assert(v@.take(i as int) =~= v@);
}

pub(crate) fn push_pairs(out: &mut String, v: &Vec<(ColRef, ColRef)>)
    ensures
        final(out)@ == old(out)@ + pairs_text(v@),
{
    let mut i: usize = 0;
    while i < v.len()
        invariant
            i <= v@.len(),
            out@ == old(out)@ + pairs_text(v@.take(i as int)),
        decreases v.len() - i,
    {
        assert(v@.take(i + 1).drop_last() =~= v@.take(i as int));
        if i > 0 {
            push_lit(out, ", ");
        }
        push_colref(out, v[i].0);
        push_lit(out, " = ");
        push_colref(out, v[i].1);
        i = i + 1;
        proof {
            assert(out@ =~= old(out)@ + pairs_text(v@.take(i as int)));
        }
    }
    assert(v@.take(i as int) =~= v@);
}

pub(crate) fn push_keys(out: &mut String, v: &Vec<(Expr, bool)>, table: &Vec<(u64, String)>)
    ensures
        final(out)@ == old(out)@ + keys_text(view_keys(v@), table_view(table@)),
{
    let ghost ks = view_keys(v@);
    let ghost ft = table_view(table@);
    let mut i: usize = 0;
    while i < v.len()
        invariant
            i <= v@.len(),
            ks == view_keys(v@),
            ft == table_view(table@),
            out@ == old(out)@ + keys_text(ks.take(i as int), ft),
        decreases v.len() - i,
    {
        assert(ks.take(i + 1).drop_last() =~= ks.take(i as int));
        if i > 0 {
            push_lit(out, ", ");
        }
        push_expr(out, &v[i].0, table);
        if v[i].1 {
            push_lit(out, " DESC");
        } else {
            push_lit(out, " ASC");
        }
        i = i + 1;
        proof {
            assert(out@ =~= old(out)@ + keys_text(ks.take(i as int), ft));
        }
    }
    assert(ks.take(i as int) =~= ks);
}

/// Appends the text of a plan whose lines start with `prefix`.
#[verifier::spinoff_prover]
#[verifier::rlimit(60)]
pub fn push_plan(out: &mut String, p: &Plan, prefix: &str, table: &Vec<(u64, String)>)
    ensures
        final(out)@ == old(out)@ + plan_text(p@, prefix@, table_view(table@)),
    decreases p,
{
    let ghost ft = table_view(table@);
    let ghost start = out@;
    out.append(prefix);
    match p {
        Plan::Scan { rel } => {
            push_lit(out, "Scan #");
            push_dec(out, *rel as u64);
            push_lit(out, "\n");
        },
        Plan::EmptyScan { rels } => {
            push_lit(out, "EmptyScan [");
            push_rels(out, rels);
            push_lit(out, "]\n");
        },
        Plan::Filter { input, predicate } => {
            push_lit(out, "Filter ");
            push_expr(out, predicate, table);
            push_lit(out, "\n");
            let child = deeper(prefix);
            push_plan(out, input, child.as_str(), table);
        },
        Plan::Project { input, exprs } => {
            push_lit(out, "Project [");
            push_exprs(out, exprs, ", ", table);
            push_lit(out, "]\n");
            let child = deeper(prefix);
            push_plan(out, input, child.as_str(), table);
        },
        Plan::Join { left, right, on, filter } => {
            push_lit(out, "Join on=[");
            push_pairs(out, on);
            push_lit(out, "]");
            match filter {
                Some(f) => {
                    push_lit(out, " filter=");
                    push_expr(out, f, table);
                },
                None => {},
            }
            push_lit(out, "\n");
            let child = deeper(prefix);
            push_plan(out, left, child.as_str(), table);
            push_plan(out, right, child.as_str(), table);
        },
        Plan::Sort { input, keys } => {
            push_lit(out, "Sort [");
            push_keys(out, keys, table);
            push_lit(out, "]\n");
            let child = deeper(prefix);
            push_plan(out, input, child.as_str(), table);
        },
        Plan::Limit { input, n } => {
            push_lit(out, "Limit ");
            push_dec(out, *n);
            push_lit(out, "\n");
            let child = deeper(prefix);
            push_plan(out, input, child.as_str(), table);
        },
    }
    proof {
        assert(out@ =~= start + plan_text(p@, prefix@, ft));
    }
}

/// The prefix of the next level: two more spaces.
pub fn deeper(prefix: &str) -> (r: String)
    ensures
        r@ == prefix@ + "  "@,
{
    let mut r = prefix.to_owned();
    r.append("  ");
    r
}

impl Expr {
    /// The text of this expression, spelling double literals by `table`.
    pub fn render(&self, table: &Vec<(u64, String)>) -> (r: String)
        ensures
            r@ == expr_text(self@, table_view(table@)),
    {
        let mut out = String::new();
        push_expr(&mut out, self, table);
        proof {
            assert(out@ =~= expr_text(self@, table_view(table@)));
        }
        out
    }

    /// The text of this expression with no double spellings supplied.
    pub fn to_string(&self) -> (r: String)
        ensures
            r@ == expr_text(self@, Seq::empty()),
    {
        let table: Vec<(u64, String)> = Vec::new();
        proof {
            assert(table_view(table@) =~= Seq::empty());
        }
        self.render(&table)
    }
}

impl Plan {
    /// The text of this plan, spelling double literals by `table`.
    pub fn render(&self, table: &Vec<(u64, String)>) -> (r: String)
        ensures
            r@ == plan_text(self@, Seq::empty(), table_view(table@)),
    {
        let mut out = String::new();
        proof {
            reveal_strlit("");
        }
        push_plan(&mut out, self, "", table);
        proof {
            assert(out@ =~= plan_text(self@, Seq::empty(), table_view(table@)));
        }
        out
    }

    /// The text of this plan with no double spellings supplied.
    pub fn to_string(&self) -> (r: String)
        ensures
            r@ == plan_text(self@, Seq::empty(), Seq::empty()),
    {
        let table: Vec<(u64, String)> = Vec::new();
        proof {
            assert(table_view(table@) =~= Seq::empty());
        }
        self.render(&table)
    }
}

impl Ir {
    /// The text of the plan tree, spelling double literals by `table`.
    pub fn render(&self, table: &Vec<(u64, String)>) -> (r: String)
        ensures
            r@ == plan_text(self.root@, Seq::empty(), table_view(table@)),
    {
        self.root.render(table)
    }

    /// The text of the plan tree with no double spellings supplied.
    pub fn to_string(&self) -> (r: String)
        ensures
            r@ == plan_text(self.root@, Seq::empty(), Seq::empty()),
    {
        self.root.to_string()
    }
}

} // verus!
