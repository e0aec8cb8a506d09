//! CNF detection and extraction for boolean expressions.
//!
//! A formula is in CNF when it is a conjunction (AND) of clauses, where each
//! clause is a disjunction (OR) of literals and each literal is a variable or
//! a negated variable.
use vstd::prelude::*;

use crate::expr::{Expr, eval, node_count, stack_nodes, lemma_node_count_pos, vars_positive};
use crate::literal::{Literal, Clause, clause_sat, formula_sat, signed, signed_seq, lit_true, clauses_formula, clause_ints};

verus! {

// ---------------------------------------------------------------------------
// Specification
// ---------------------------------------------------------------------------

/// `e` is a disjunction of literals.
pub open spec fn spec_is_clause(e: Expr) -> bool
    decreases e,
{
    match e {
        Expr::Var(_) => true,
        Expr::Not(x) => (*x) is Var,
        Expr::Or(x, y) => spec_is_clause(*x) && spec_is_clause(*y),
        _ => false,
    }
}

/// `e` is a conjunction of clauses.
pub open spec fn spec_is_cnf(e: Expr) -> bool
    decreases e,
{
    match e {
        Expr::And(x, y) => spec_is_cnf(*x) && spec_is_cnf(*y),
        _ => spec_is_clause(e),
    }
}

/// Left-to-right literal extraction: the literals met before the first node
/// that is not part of a clause, and whether no such node was met.
pub open spec fn spec_extract(e: Expr) -> (bool, Seq<Literal>)
    decreases e,
{
    match e {
        Expr::Var(v) => (true, seq![Literal { var: v, negated: false }]),
        Expr::Not(x) => match *x {
            Expr::Var(v) => (true, seq![Literal { var: v, negated: true }]),
            _ => (false, Seq::empty()),
        },
        Expr::Or(x, y) => {
            let (ok_x, lx) = spec_extract(*x);
            if !ok_x {
                (false, lx)
            } else {
                let (ok_y, ly) = spec_extract(*y);
                (ok_y, lx + ly)
            }
        },
        _ => (false, Seq::empty()),
    }
}

/// Clause extraction from a conjunction: the clauses of the right conjunct
/// come before those of the left one; stops at the first non-clause.
pub open spec fn spec_extract_cnf(e: Expr) -> (bool, Seq<Seq<Literal>>)
    decreases e,
{
    match e {
        Expr::And(x, y) => {
            let (ok_y, cy) = spec_extract_cnf(*y);
            if !ok_y {
                (false, cy)
            } else {
                let (ok_x, cx) = spec_extract_cnf(*x);
                (ok_x, cy + cx)
            }
        },
        _ => {
            let (ok, l) = spec_extract(e);
            if ok {
                (true, seq![l])
            } else {
                (false, Seq::empty())
            }
        },
    }
}

/// The literal sequences of a sequence of clauses.
pub open spec fn clause_lits_seq(cs: Seq<Clause>) -> Seq<Seq<Literal>> {
    cs.map_values(|c: Clause| c.literals@)
}

/// The formula denoted by a sequence of literal sequences.
pub open spec fn lits_formula(cs: Seq<Seq<Literal>>) -> Seq<Seq<int>> {
    cs.map_values(|l: Seq<Literal>| signed_seq(l))
}

// Stack summaries used by the iterative traversals.
pub open spec fn stack_extract(s: Seq<&Expr>) -> (bool, Seq<Literal>)
    decreases s.len(),
{
    if s.len() == 0 {
        (true, Seq::empty())
    } else {
        let (ok, l) = spec_extract(*s.last());
        if !ok {
            (false, l)
        } else {
            let (ok2, l2) = stack_extract(s.drop_last());
            (ok2, l + l2)
        }
    }
}

pub open spec fn stack_all_clauses(s: Seq<&Expr>) -> bool
    decreases s.len(),
{
    if s.len() == 0 {
        true
    } else {
        spec_is_clause(*s.last()) && stack_all_clauses(s.drop_last())
    }
}

pub open spec fn stack_all_cnf(s: Seq<&Expr>) -> bool
    decreases s.len(),
{
    if s.len() == 0 {
        true
    } else {
        spec_is_cnf(*s.last()) && stack_all_cnf(s.drop_last())
    }
}

pub open spec fn stack_extract_cnf(s: Seq<&Expr>) -> (bool, Seq<Seq<Literal>>)
    decreases s.len(),
{
    if s.len() == 0 {
        (true, Seq::empty())
    } else {
        let (ok, c) = spec_extract_cnf(*s.last());
        if !ok {
            (false, c)
        } else {
            let (ok2, c2) = stack_extract_cnf(s.drop_last());
            (ok2, c + c2)
        }
    }
}

proof fn lemma_stack_extract_push(s: Seq<&Expr>, e: &Expr)
    ensures
        stack_extract(s.push(e)) == ({
            let (ok, l) = spec_extract(*e);
            if !ok {
                (false, l)
            } else {
                let (ok2, l2) = stack_extract(s);
                (ok2, l + l2)
            }
        }),
{
    assert(s.push(e).drop_last() =~= s);
}

proof fn lemma_stack_all_clauses_push(s: Seq<&Expr>, e: &Expr)
    ensures
        stack_all_clauses(s.push(e)) == (spec_is_clause(*e) && stack_all_clauses(s)),
{
    assert(s.push(e).drop_last() =~= s);
}

proof fn lemma_stack_all_cnf_push(s: Seq<&Expr>, e: &Expr)
    ensures
        stack_all_cnf(s.push(e)) == (spec_is_cnf(*e) && stack_all_cnf(s)),
{
    assert(s.push(e).drop_last() =~= s);
}

proof fn lemma_stack_extract_cnf_push(s: Seq<&Expr>, e: &Expr)
    ensures
        stack_extract_cnf(s.push(e)) == ({
            let (ok, c) = spec_extract_cnf(*e);
            if !ok {
                (false, c)
            } else {
                let (ok2, c2) = stack_extract_cnf(s);
                (ok2, c + c2)
            }
        }),
{
    assert(s.push(e).drop_last() =~= s);
}

proof fn lemma_stack_nodes_push(s: Seq<&Expr>, e: &Expr)
    ensures
        stack_nodes(s.push(e)) == stack_nodes(s) + node_count(*e),
{
    assert(s.push(e).drop_last() =~= s);
}

// ---------------------------------------------------------------------------
// Laws
// ---------------------------------------------------------------------------

/// Literal extraction succeeds exactly on clauses.
pub proof fn lemma_extract_ok_iff_clause(e: Expr)
    ensures
        spec_extract(e).0 == spec_is_clause(e),
    decreases e,
{
    match e {
        Expr::Or(x, y) => {
            lemma_extract_ok_iff_clause(*x);
            lemma_extract_ok_iff_clause(*y);
        },
        _ => {},
    }
}

/// Clause extraction succeeds exactly on CNF formulas.
pub proof fn lemma_extract_cnf_ok_iff_cnf(e: Expr)
    ensures
        spec_extract_cnf(e).0 == spec_is_cnf(e),
    decreases e,
{
    match e {
        Expr::And(x, y) => {
            lemma_extract_cnf_ok_iff_cnf(*x);
            lemma_extract_cnf_ok_iff_cnf(*y);
        },
        _ => {
            lemma_extract_ok_iff_clause(e);
        },
    }
}

proof fn lemma_clause_sat_append(a: spec_fn(int) -> bool, l1: Seq<int>, l2: Seq<int>)
    ensures
        clause_sat(a, l1 + l2) == (clause_sat(a, l1) || clause_sat(a, l2)),
{
    let l = l1 + l2;
    if clause_sat(a, l) {
        let k = choose|k: int| 0 <= k < l.len() && #[trigger] lit_true(a, l[k]);
        if k < l1.len() {
            assert(lit_true(a, l1[k]));
        } else {
            assert(lit_true(a, l2[k - l1.len()]));
        }
    }
    if clause_sat(a, l1) {
        let k = choose|k: int| 0 <= k < l1.len() && #[trigger] lit_true(a, l1[k]);
        assert(lit_true(a, l[k]));
    }
    if clause_sat(a, l2) {
        let k = choose|k: int| 0 <= k < l2.len() && #[trigger] lit_true(a, l2[k]);
        assert(lit_true(a, l[k + l1.len()]));
    }
}

proof fn lemma_formula_sat_append(a: spec_fn(int) -> bool, f1: Seq<Seq<int>>, f2: Seq<Seq<int>>)
    ensures
        formula_sat(a, f1 + f2) == (formula_sat(a, f1) && formula_sat(a, f2)),
{
    let f = f1 + f2;
    if formula_sat(a, f) {
        assert forall|i: int| 0 <= i < f1.len() implies #[trigger] clause_sat(a, f1[i]) by {
            assert(clause_sat(a, f[i]));
        }
        assert forall|i: int| 0 <= i < f2.len() implies #[trigger] clause_sat(a, f2[i]) by {
            assert(clause_sat(a, f[i + f1.len()]));
        }
    }
    if formula_sat(a, f1) && formula_sat(a, f2) {
        assert forall|i: int| 0 <= i < f.len() implies #[trigger] clause_sat(a, f[i]) by {
            if i < f1.len() {
                assert(clause_sat(a, f1[i]));
            } else {
                assert(clause_sat(a, f2[i - f1.len()]));
            }
        }
    }
}

/// The literals extracted from a clause denote the clause: for every
/// assignment the clause is true exactly when one of its literals is.
pub proof fn lemma_extract_meaning(e: Expr, a: spec_fn(int) -> bool)
    requires
        spec_is_clause(e),
        vars_positive(e),
    ensures
        eval(e, a) == clause_sat(a, signed_seq(spec_extract(e).1)),
    decreases e,
{
    lemma_extract_ok_iff_clause(e);
    match e {
        Expr::Var(v) => {
            let s = signed_seq(spec_extract(e).1);
            assert(s =~= seq![v as int]);
            assert(s[0] == v as int);
            if eval(e, a) {
                assert(lit_true(a, s[0]));
            } else {
                assert forall|k: int| 0 <= k < s.len() implies !#[trigger] lit_true(a, s[k]) by {
                    assert(k == 0);
                }
            }
        },
        Expr::Not(x) => {
            let s = signed_seq(spec_extract(e).1);
            match *x {
                Expr::Var(v) => {
                    assert(s =~= seq![-(v as int)]);
                    assert(vars_positive(*x));
                    assert(v >= 1);
                    assert(s[0] == -(v as int));
                    assert(eval(*x, a) == lit_true(a, v as int));
                    assert(eval(e, a) == !eval(*x, a));
                    assert(lit_true(a, -(v as int)) == !a(v as int));
                    if eval(e, a) {
                        assert(lit_true(a, s[0]));
                    } else {
                        assert forall|k: int| 0 <= k < s.len() implies !#[trigger] lit_true(
                            a,
                            s[k],
                        ) by {
                            assert(k == 0);
                        }
                    }
                },
                _ => {},
            }
        },
        Expr::Or(x, y) => {
            lemma_extract_meaning(*x, a);
            lemma_extract_meaning(*y, a);
            lemma_extract_ok_iff_clause(*x);
            lemma_extract_ok_iff_clause(*y);
            let lx = spec_extract(*x).1;
            let ly = spec_extract(*y).1;
            assert(signed_seq(lx + ly) =~= signed_seq(lx) + signed_seq(ly));
            lemma_clause_sat_append(a, signed_seq(lx), signed_seq(ly));
        },
        _ => {},
    }
}

/// CNF extraction preserves meaning: on a CNF formula with positive
/// variables, an assignment satisfies the formula exactly when it satisfies
/// every extracted clause.
pub proof fn lemma_extract_cnf_meaning(e: Expr, a: spec_fn(int) -> bool)
    requires
        spec_is_cnf(e),
        vars_positive(e),
    ensures
        eval(e, a) == formula_sat(a, lits_formula(spec_extract_cnf(e).1)),
    decreases e,
{
    lemma_extract_cnf_ok_iff_cnf(e);
    match e {
        Expr::And(x, y) => {
            lemma_extract_cnf_meaning(*x, a);
            lemma_extract_cnf_meaning(*y, a);
            lemma_extract_cnf_ok_iff_cnf(*x);
            lemma_extract_cnf_ok_iff_cnf(*y);
            let cx = spec_extract_cnf(*x).1;
            let cy = spec_extract_cnf(*y).1;
            assert(lits_formula(cy + cx) =~= lits_formula(cy) + lits_formula(cx));
            lemma_formula_sat_append(a, lits_formula(cy), lits_formula(cx));
        },
        _ => {
            lemma_extract_meaning(e, a);
            let f = lits_formula(spec_extract_cnf(e).1);
            assert(f =~= seq![signed_seq(spec_extract(e).1)]);
            if eval(e, a) {
                assert forall|i: int| 0 <= i < f.len() implies #[trigger] clause_sat(a, f[i]) by {}
            } else {
                assert(!clause_sat(a, f[0]));
            }
        },
    }
}

// ---------------------------------------------------------------------------
// Executable code
// ---------------------------------------------------------------------------

/// Checks whether an expression is a clause: a variable, a negated variable,
/// or an OR of clauses.
pub fn is_clause(expr: &Expr) -> (b: bool)
    ensures
        b == spec_is_clause(*expr),
{
    let mut stack: Vec<&Expr> = Vec::new();
    stack.push(expr);
    proof {
        assert(stack@ =~= Seq::<&Expr>::empty().push(expr)); lemma_stack_nodes_push(Seq::<&Expr>::empty(), expr); lemma_stack_extract_push(Seq::<&Expr>::empty(), expr); lemma_stack_all_clauses_push(Seq::<&Expr>::empty(), expr); lemma_stack_all_cnf_push(Seq::<&Expr>::empty(), expr); lemma_stack_extract_cnf_push(Seq::<&Expr>::empty(), expr);
        lemma_node_count_pos(*expr);
    }
    while stack.len() > 0
        invariant
            stack_all_clauses(stack@) == spec_is_clause(*expr),
        decreases stack_nodes(stack@),
    {
        let ghost s0 = stack@;
        let e = stack.pop().unwrap();
        proof {
            assert(s0 =~= stack@.push(e)); lemma_stack_nodes_push(stack@, e); lemma_stack_extract_push(stack@, e); lemma_stack_all_clauses_push(stack@, e); lemma_stack_all_cnf_push(stack@, e); lemma_stack_extract_cnf_push(stack@, e);
            lemma_node_count_pos(*e);
            assert(stack_nodes(s0) == stack_nodes(stack@) + node_count(*e));
        }
        match e {
            Expr::Var(_) => {},
            Expr::Not(inner) => {
                if !matches!(&**inner, Expr::Var(_)) {
                    return false;
                }
            },
            Expr::Or(a, b) => {
                let ghost s1 = stack@;
                stack.push(a);
                let ghost s2 = stack@;
                stack.push(b);
                proof {
                    assert(s2 =~= s1.push(a)); lemma_stack_nodes_push(s1, a); lemma_stack_extract_push(s1, a); lemma_stack_all_clauses_push(s1, a); lemma_stack_all_cnf_push(s1, a); lemma_stack_extract_cnf_push(s1, a);
                    assert(stack@ =~= s2.push(b)); lemma_stack_nodes_push(s2, b); lemma_stack_extract_push(s2, b); lemma_stack_all_clauses_push(s2, b); lemma_stack_all_cnf_push(s2, b); lemma_stack_extract_cnf_push(s2, b);
                    lemma_node_count_pos(**a);
                    lemma_node_count_pos(**b);
                    assert(stack_nodes(s2) == stack_nodes(s1) + node_count(**a));
                    assert(stack_nodes(stack@) == stack_nodes(s2) + node_count(**b));
                }
            },
            _ => {
                return false;
            },
        }
    }
    true
}

/// Extracts the literals of a clause expression, left to right, appending
/// them to `lits`.  Returns `false` (after appending the literals met before
/// it) when a node that is not part of a clause is found.
pub fn extract_clause_literals(expr: &Expr, lits: &mut Vec<Literal>) -> (ok: bool)
    ensures
        ok == spec_extract(*expr).0,
        final(lits)@ == old(lits)@ + spec_extract(*expr).1,
{
    let mut stack: Vec<&Expr> = Vec::new();
    stack.push(expr);
    proof {
        assert(stack@ =~= Seq::<&Expr>::empty().push(expr)); lemma_stack_nodes_push(Seq::<&Expr>::empty(), expr); lemma_stack_extract_push(Seq::<&Expr>::empty(), expr); lemma_stack_all_clauses_push(Seq::<&Expr>::empty(), expr); lemma_stack_all_cnf_push(Seq::<&Expr>::empty(), expr); lemma_stack_extract_cnf_push(Seq::<&Expr>::empty(), expr);
        lemma_node_count_pos(*expr);
        assert(stack_extract(stack@).1 =~= spec_extract(*expr).1);
    }
    while stack.len() > 0
        invariant
            ({
                let (ok_s, l_s) = stack_extract(stack@);
                &&& ok_s == spec_extract(*expr).0
                &&& old(lits)@ + spec_extract(*expr).1 == lits@ + l_s
            }),
        decreases stack_nodes(stack@),
    {
        let ghost s0 = stack@;
        let ghost before = lits@;
        let e = stack.pop().unwrap();
        proof {
            assert(s0 =~= stack@.push(e)); lemma_stack_nodes_push(stack@, e); lemma_stack_extract_push(stack@, e); lemma_stack_all_clauses_push(stack@, e); lemma_stack_all_cnf_push(stack@, e); lemma_stack_extract_cnf_push(stack@, e);
            lemma_node_count_pos(*e);
            assert(stack_nodes(s0) == stack_nodes(stack@) + node_count(*e));
        }
        match e {
            Expr::Var(v) => {
                lits.push(Literal::positive(*v));
                proof {
                    assert(lits@ + stack_extract(stack@).1 =~= before + stack_extract(s0).1);
                }
            },
            Expr::Not(inner) => {
                if let Expr::Var(v) = &**inner {
                    lits.push(Literal::negative(*v));
                    proof {
                        assert(lits@ + stack_extract(stack@).1 =~= before + stack_extract(s0).1);
                    }
                } else {
                    proof {
                        assert(lits@ =~= lits@ + stack_extract(s0).1);
                    }
                    return false;
                }
            },
            Expr::Or(a, b) => {
                let ghost s1 = stack@;
                stack.push(b);
                let ghost s2 = stack@;
                stack.push(a);
                proof {
                    assert(s2 =~= s1.push(b)); lemma_stack_nodes_push(s1, b); lemma_stack_extract_push(s1, b); lemma_stack_all_clauses_push(s1, b); lemma_stack_all_cnf_push(s1, b); lemma_stack_extract_cnf_push(s1, b);
                    assert(stack@ =~= s2.push(a)); lemma_stack_nodes_push(s2, a); lemma_stack_extract_push(s2, a); lemma_stack_all_clauses_push(s2, a); lemma_stack_all_cnf_push(s2, a); lemma_stack_extract_cnf_push(s2, a);
                    lemma_node_count_pos(**a);
                    lemma_node_count_pos(**b);
                    assert(stack_nodes(s2) == stack_nodes(s1) + node_count(**b));
                    assert(stack_nodes(stack@) == stack_nodes(s2) + node_count(**a));
                    let (oka, la) = spec_extract(**a);
                    let (okb, lb) = spec_extract(**b);
                    let (oks, ls) = stack_extract(s1);
                    if oka && okb {
                        assert(la + (lb + ls) =~= (la + lb) + ls);
                    }
                }
            },
            _ => {
                proof {
                    assert(lits@ =~= lits@ + stack_extract(s0).1);
                }
                return false;
            },
        }
    }
    proof {
        assert(lits@ =~= lits@ + stack_extract(stack@).1);
    }
    true
}

/// Checks whether an expression is in CNF: a conjunction of clauses (a
/// single clause counts).
pub fn is_cnf(expr: &Expr) -> (b: bool)
    ensures
        b == spec_is_cnf(*expr),
{
    let mut stack: Vec<&Expr> = Vec::new();
    stack.push(expr);
    proof {
        assert(stack@ =~= Seq::<&Expr>::empty().push(expr)); lemma_stack_nodes_push(Seq::<&Expr>::empty(), expr); lemma_stack_extract_push(Seq::<&Expr>::empty(), expr); lemma_stack_all_clauses_push(Seq::<&Expr>::empty(), expr); lemma_stack_all_cnf_push(Seq::<&Expr>::empty(), expr); lemma_stack_extract_cnf_push(Seq::<&Expr>::empty(), expr);
        lemma_node_count_pos(*expr);
    }
    while stack.len() > 0
        invariant
            stack_all_cnf(stack@) == spec_is_cnf(*expr),
        decreases stack_nodes(stack@),
    {
        let ghost s0 = stack@;
        let e = stack.pop().unwrap();
        proof {
            assert(s0 =~= stack@.push(e)); lemma_stack_nodes_push(stack@, e); lemma_stack_extract_push(stack@, e); lemma_stack_all_clauses_push(stack@, e); lemma_stack_all_cnf_push(stack@, e); lemma_stack_extract_cnf_push(stack@, e);
            lemma_node_count_pos(*e);
            assert(stack_nodes(s0) == stack_nodes(stack@) + node_count(*e));
        }
        match e {
            Expr::And(a, b) => {
                let ghost s1 = stack@;
                stack.push(a);
                let ghost s2 = stack@;
                stack.push(b);
                proof {
                    assert(s2 =~= s1.push(a)); lemma_stack_nodes_push(s1, a); lemma_stack_extract_push(s1, a); lemma_stack_all_clauses_push(s1, a); lemma_stack_all_cnf_push(s1, a); lemma_stack_extract_cnf_push(s1, a);
                    assert(stack@ =~= s2.push(b)); lemma_stack_nodes_push(s2, b); lemma_stack_extract_push(s2, b); lemma_stack_all_clauses_push(s2, b); lemma_stack_all_cnf_push(s2, b); lemma_stack_extract_cnf_push(s2, b);
                    lemma_node_count_pos(**a);
                    lemma_node_count_pos(**b);
                    assert(stack_nodes(s2) == stack_nodes(s1) + node_count(**a));
                    assert(stack_nodes(stack@) == stack_nodes(s2) + node_count(**b));
                }
            },
            _ => {
                if !is_clause(e) {
                    return false;
                }
            },
        }
    }
    true
}

/// Extracts the clauses of a CNF expression, appending them to `clauses`
/// (clauses of a right conjunct before those of the left one).  Returns
/// `false` when a conjunct is not a clause; the clauses found before it
/// have then been appended.
pub fn extract_cnf_clauses(expr: &Expr, clauses: &mut Vec<Clause>) -> (ok: bool)
    ensures
        ok == spec_extract_cnf(*expr).0,
        clause_lits_seq(final(clauses)@) == clause_lits_seq(old(clauses)@) + spec_extract_cnf(
            *expr,
        ).1,
{
    let mut stack: Vec<&Expr> = Vec::new();
    stack.push(expr);
    proof {
        assert(stack@ =~= Seq::<&Expr>::empty().push(expr)); lemma_stack_nodes_push(Seq::<&Expr>::empty(), expr); lemma_stack_extract_push(Seq::<&Expr>::empty(), expr); lemma_stack_all_clauses_push(Seq::<&Expr>::empty(), expr); lemma_stack_all_cnf_push(Seq::<&Expr>::empty(), expr); lemma_stack_extract_cnf_push(Seq::<&Expr>::empty(), expr);
        lemma_node_count_pos(*expr);
        assert(stack_extract_cnf(stack@).1 =~= spec_extract_cnf(*expr).1);
    }
    while stack.len() > 0
        invariant
            ({
                let (ok_s, c_s) = stack_extract_cnf(stack@);
                &&& ok_s == spec_extract_cnf(*expr).0
                &&& clause_lits_seq(old(clauses)@) + spec_extract_cnf(*expr).1 == clause_lits_seq(
                    clauses@,
                ) + c_s
            }),
        decreases stack_nodes(stack@),
    {
        let ghost s0 = stack@;
        let ghost before = clause_lits_seq(clauses@);
        let e = stack.pop().unwrap();
        proof {
            assert(s0 =~= stack@.push(e)); lemma_stack_nodes_push(stack@, e); lemma_stack_extract_push(stack@, e); lemma_stack_all_clauses_push(stack@, e); lemma_stack_all_cnf_push(stack@, e); lemma_stack_extract_cnf_push(stack@, e);
            lemma_node_count_pos(*e);
            assert(stack_nodes(s0) == stack_nodes(stack@) + node_count(*e));
        }
        if let Expr::And(a, b) = e {
            let ghost s1 = stack@;
            stack.push(a);
            let ghost s2 = stack@;
            stack.push(b);
            proof {
                assert(s2 =~= s1.push(a)); lemma_stack_nodes_push(s1, a); lemma_stack_extract_push(s1, a); lemma_stack_all_clauses_push(s1, a); lemma_stack_all_cnf_push(s1, a); lemma_stack_extract_cnf_push(s1, a);
                assert(stack@ =~= s2.push(b)); lemma_stack_nodes_push(s2, b); lemma_stack_extract_push(s2, b); lemma_stack_all_clauses_push(s2, b); lemma_stack_all_cnf_push(s2, b); lemma_stack_extract_cnf_push(s2, b);
                lemma_node_count_pos(**a);
                lemma_node_count_pos(**b);
                assert(stack_nodes(s2) == stack_nodes(s1) + node_count(**a));
                assert(stack_nodes(stack@) == stack_nodes(s2) + node_count(**b));
                let (oka, ca) = spec_extract_cnf(**a);
                let (okb, cb) = spec_extract_cnf(**b);
                let (oks, cs) = stack_extract_cnf(s1);
                if oka && okb {
                    assert(cb + (ca + cs) =~= (cb + ca) + cs);
                }
            }
        } else {
            let mut lits: Vec<Literal> = Vec::new();
            if extract_clause_literals(e, &mut lits) {
                proof {
                    assert(lits@ =~= spec_extract(*e).1);
                }
                let ghost c0 = clauses@;
                clauses.push(Clause::new(lits));
                proof {
                    assert(clause_lits_seq(clauses@) =~= clause_lits_seq(c0) + seq![
                        spec_extract(*e).1,
                    ]);
                    assert(clause_lits_seq(clauses@) + stack_extract_cnf(stack@).1
                        =~= before + stack_extract_cnf(s0).1);
                }
            } else {
                proof {
                    assert(clause_lits_seq(clauses@) =~= clause_lits_seq(clauses@)
                        + stack_extract_cnf(s0).1);
                }
                return false;
            }
        }
    }
    proof {
        assert(clause_lits_seq(clauses@) =~= clause_lits_seq(clauses@) + stack_extract_cnf(
            stack@,
        ).1);
    }
    true
}

} // verus!
