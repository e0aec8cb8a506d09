//! Tseitin transformation: converts an arbitrary boolean formula into an
//! equisatisfiable CNF formula by naming each operator node with a fresh
//! variable.
//!
//! - NOT:   r <-> !a        becomes (r | a) & (!r | !a)
//! - AND:   r <-> a & b     becomes (!r | a) & (!r | b) & (r | !a | !b)
//! - OR:    r <-> a | b     becomes (!r | a | b) & (r | !a) & (r | !b)
//! - IMPL:  r <-> (a -> b)  becomes (!r | !a | b) & (r | a) & (r | !b)
//! - EQUIV: r <-> (a <-> b) becomes four clauses, one per sign pattern.
use vstd::prelude::*;

use crate::cnf::lits_formula;
use crate::expr::{Expr, eval, expr_satisfiable, max_var, op_count, vars_positive, vars_at_most, lemma_max_var_bounds};
use crate::literal::{Literal, Clause, clause_sat, formula_sat, lit_true, satisfiable, signed, signed_seq};

verus! {

// ---------------------------------------------------------------------------
// Specification of the encoding
// ---------------------------------------------------------------------------

pub open spec fn pos(v: int) -> Literal {
    Literal { var: v as i32, negated: false }
}

pub open spec fn neg(v: int) -> Literal {
    Literal { var: v as i32, negated: true }
}

/// The clauses that define `r` as the value of the operator of `e` applied to
/// the values `r1` (and `r2`) of its operands.
pub open spec fn node_clauses(e: Expr, r: int, r1: int, r2: int) -> Seq<Seq<Literal>> {
    match e {
        Expr::Var(_) => Seq::empty(),
        Expr::Not(_) => seq![seq![pos(r), pos(r1)], seq![neg(r), neg(r1)]],
        Expr::And(_, _) => seq![
            seq![neg(r), pos(r1)],
            seq![neg(r), pos(r2)],
            seq![pos(r), neg(r1), neg(r2)],
        ],
        Expr::Or(_, _) => seq![
            seq![neg(r), pos(r1), pos(r2)],
            seq![pos(r), neg(r1)],
            seq![pos(r), neg(r2)],
        ],
        Expr::Impl(_, _) => seq![
            seq![neg(r), neg(r1), pos(r2)],
            seq![pos(r), pos(r1)],
            seq![pos(r), neg(r2)],
        ],
        Expr::Equiv(_, _) => seq![
            seq![neg(r), neg(r1), pos(r2)],
            seq![neg(r), neg(r2), pos(r1)],
            seq![pos(r), pos(r1), pos(r2)],
            seq![pos(r), neg(r1), neg(r2)],
        ],
    }
}

/// The encoding of `e` with fresh variables numbered from `n`: the variable
/// naming `e`, the next free variable, and the clauses produced, in order.
pub open spec fn tseitin(e: Expr, n: int) -> (int, int, Seq<Seq<Literal>>)
    decreases e,
{
    match e {
        Expr::Var(v) => (v as int, n, Seq::empty()),
        Expr::Not(x) => {
            let (r1, n1, c1) = tseitin(*x, n);
            (n1, n1 + 1, c1 + node_clauses(e, n1, r1, 0))
        },
        Expr::And(x, y) | Expr::Or(x, y) | Expr::Impl(x, y) | Expr::Equiv(x, y) => {
            let (r1, n1, c1) = tseitin(*x, n);
            let (r2, n2, c2) = tseitin(*y, n1);
            (n2, n2 + 1, c1 + c2 + node_clauses(e, n2, r1, r2))
        },
    }
}

/// The truth value that an operator node takes from operand values.
pub open spec fn node_value(e: Expr, b1: bool, b2: bool) -> bool {
    match e {
        Expr::Var(_) => b1,
        Expr::Not(_) => !b1,
        Expr::And(_, _) => b1 && b2,
        Expr::Or(_, _) => b1 || b2,
        Expr::Impl(_, _) => !b1 || b2,
        Expr::Equiv(_, _) => b1 == b2,
    }
}

/// The assignment that extends `a` by giving each fresh variable of the
/// encoding of `e` the value of the subformula that it names.
pub open spec fn extend(e: Expr, n: int, a: spec_fn(int) -> bool) -> spec_fn(int) -> bool
    decreases e,
{
    match e {
        Expr::Var(_) => a,
        Expr::Not(x) => {
            let a1 = extend(*x, n, a);
            let r = tseitin(*x, n).1;
            |v: int| if v == r { !eval(*x, a) } else { a1(v) }
        },
        Expr::And(x, y) | Expr::Or(x, y) | Expr::Impl(x, y) | Expr::Equiv(x, y) => {
            let a1 = extend(*x, n, a);
            let n1 = tseitin(*x, n).1;
            let a2 = extend(*y, n1, a1);
            let r = tseitin(*y, n1).1;
            let b = eval(e, a);
            |v: int| if v == r { b } else { a2(v) }
        },
    }
}

/// `a` and `b` agree on the variables `1 .. n - 1`.
pub open spec fn agree_below(a: spec_fn(int) -> bool, b: spec_fn(int) -> bool, n: int) -> bool {
    forall|v: int| 1 <= v < n ==> #[trigger] a(v) == b(v)
}

/// Every literal of every clause names a variable in `1 .. n - 1`.
pub open spec fn lits_below(c: Seq<Seq<Literal>>, n: int) -> bool {
    forall|i: int, k: int|
        0 <= i < c.len() && 0 <= k < c[i].len() ==> 1 <= (#[trigger] c[i][k]).var < n
}

// ---------------------------------------------------------------------------
// Lemmas
// ---------------------------------------------------------------------------

proof fn lemma_lit_signed(a: spec_fn(int) -> bool, l: Literal)
    requires
        l.var >= 1,
    ensures
        lit_true(a, signed(l)) == (a(l.var as int) != l.negated),
{
}

proof fn lemma_formula_sat_append(a: spec_fn(int) -> bool, f1: Seq<Seq<int>>, f2: Seq<Seq<int>>)
    ensures
        formula_sat(a, f1 + f2) == (formula_sat(a, f1) && formula_sat(a, f2)),
{
    let f = f1 + f2;
    if formula_sat(a, f) {
        assert forall|i: int| 0 <= i < f1.len() implies #[trigger] clause_sat(a, f1[i]) by {
            assert(clause_sat(a, f[i]));
        }
        assert forall|i: int| 0 <= i < f2.len() implies #[trigger] clause_sat(a, f2[i]) by {
            assert(clause_sat(a, f[i + f1.len()]));
        }
    }
    if formula_sat(a, f1) && formula_sat(a, f2) {
        assert forall|i: int| 0 <= i < f.len() implies #[trigger] clause_sat(a, f[i]) by {
            if i < f1.len() {
                assert(clause_sat(a, f1[i]));
            } else {
                assert(clause_sat(a, f2[i - f1.len()]));
            }
        }
    }
}

proof fn lemma_lits_formula_append(c1: Seq<Seq<Literal>>, c2: Seq<Seq<Literal>>)
    ensures
        lits_formula(c1 + c2) == lits_formula(c1) + lits_formula(c2),
{
    assert(lits_formula(c1 + c2) =~= lits_formula(c1) + lits_formula(c2));
}

/// Agreeing assignments give an expression the same value.
pub proof fn lemma_eval_agree(e: Expr, a: spec_fn(int) -> bool, b: spec_fn(int) -> bool, n: int)
    requires
        vars_positive(e),
        vars_at_most(e, n - 1),
        agree_below(a, b, n),
    ensures
        eval(e, a) == eval(e, b),
    decreases e,
{
    match e {
        Expr::Var(v) => {
            assert(a(v as int) == b(v as int));
        },
        Expr::Not(x) => {
            lemma_eval_agree(*x, a, b, n);
        },
        Expr::And(x, y) | Expr::Or(x, y) | Expr::Impl(x, y) | Expr::Equiv(x, y) => {
            lemma_eval_agree(*x, a, b, n);
            lemma_eval_agree(*y, a, b, n);
        },
    }
}

/// A formula over variables below `n` has the same value under agreeing
/// assignments.
proof fn lemma_formula_agree(
    c: Seq<Seq<Literal>>,
    a: spec_fn(int) -> bool,
    b: spec_fn(int) -> bool,
    n: int,
)
    requires
        lits_below(c, n),
        agree_below(a, b, n),
    ensures
        formula_sat(a, lits_formula(c)) == formula_sat(b, lits_formula(c)),
{
    let f = lits_formula(c);
    assert forall|i: int| 0 <= i < f.len() implies #[trigger] clause_sat(a, f[i]) == clause_sat(
        b,
        f[i],
    ) by {
        assert forall|k: int| 0 <= k < f[i].len() implies #[trigger] lit_true(a, f[i][k])
            == lit_true(b, f[i][k]) by {
            let l = c[i][k];
            assert(1 <= l.var < n);
            assert(f[i][k] == signed(l));
            assert(a(l.var as int) == b(l.var as int));
        }
        if clause_sat(a, f[i]) {
            let k = choose|k: int| 0 <= k < f[i].len() && #[trigger] lit_true(a, f[i][k]);
            assert(lit_true(b, f[i][k]));
        }
        if clause_sat(b, f[i]) {
            let k = choose|k: int| 0 <= k < f[i].len() && #[trigger] lit_true(b, f[i][k]);
            assert(lit_true(a, f[i][k]));
        }
    }
    if formula_sat(a, f) {
        assert forall|i: int| 0 <= i < f.len() implies #[trigger] clause_sat(b, f[i]) by {
            assert(clause_sat(a, f[i]));
        }
    }
    if formula_sat(b, f) {
        assert forall|i: int| 0 <= i < f.len() implies #[trigger] clause_sat(a, f[i]) by {
            assert(clause_sat(b, f[i]));
        }
    }
}

/// The encoding uses exactly one fresh variable per operator node.
pub proof fn lemma_tseitin_next(e: Expr, n: int)
    ensures
        tseitin(e, n).1 == n + op_count(e),
    decreases e,
{
    match e {
        Expr::Var(v) => {},
        Expr::Not(x) => {
            lemma_tseitin_next(*x, n);
        },
        Expr::And(x, y) | Expr::Or(x, y) | Expr::Impl(x, y) | Expr::Equiv(x, y) => {
            lemma_tseitin_next(*x, n);
            lemma_tseitin_next(*y, tseitin(*x, n).1);
        },
    }
}

/// Shape of the encoding: the fresh variables lie in `n .. next - 1`, the
/// naming variable is in range, and all clause variables are below `next`.
pub proof fn lemma_tseitin_shape(e: Expr, n: int)
    requires
        vars_positive(e),
        vars_at_most(e, n - 1),
        n >= 1,
        n + op_count(e) <= i32::MAX,
    ensures
        tseitin(e, n).1 == n + op_count(e),
        1 <= tseitin(e, n).0 < tseitin(e, n).1,
        lits_below(tseitin(e, n).2, tseitin(e, n).1),
        !(e is Var) ==> tseitin(e, n).0 == tseitin(e, n).1 - 1,
        e is Var ==> tseitin(e, n).0 < n,
    decreases e,
{
    match e {
        Expr::Var(v) => {},
        Expr::Not(x) => {
            lemma_tseitin_shape(*x, n);
            let (r1, n1, c1) = tseitin(*x, n);
            let c = tseitin(e, n).2;
            assert forall|i: int, k: int|
                0 <= i < c.len() && 0 <= k < c[i].len() implies 1 <= (#[trigger] c[i][k]).var < n1
                + 1 by {
                if i < c1.len() {
                    assert(c[i][k] == c1[i][k]);
                }
            }
        },
        Expr::And(x, y) | Expr::Or(x, y) | Expr::Impl(x, y) | Expr::Equiv(x, y) => {
            lemma_tseitin_shape(*x, n);
            let (r1, n1, c1) = tseitin(*x, n);
            crate::expr::lemma_vars_at_most_mono(*y, n - 1, n1 - 1);
            lemma_tseitin_shape(*y, n1);
            let (r2, n2, c2) = tseitin(*y, n1);
            let c = tseitin(e, n).2;
            assert forall|i: int, k: int|
                0 <= i < c.len() && 0 <= k < c[i].len() implies 1 <= (#[trigger] c[i][k]).var < n2
                + 1 by {
                if i < c1.len() {
                    assert(c[i][k] == c1[i][k]);
                } else if i < c1.len() + c2.len() {
                    assert(c[i][k] == c2[i - c1.len()][k]);
                }
            }
        },
    }
}

/// Soundness of the encoding: under any assignment that satisfies the
/// clauses, the naming variable has the value of the formula.
pub proof fn lemma_tseitin_sound(e: Expr, n: int, a: spec_fn(int) -> bool)
    requires
        vars_positive(e),
        vars_at_most(e, n - 1),
        n >= 1,
        n + op_count(e) <= i32::MAX,
        formula_sat(a, lits_formula(tseitin(e, n).2)),
    ensures
        lit_true(a, tseitin(e, n).0) == eval(e, a),
    decreases e,
{
    lemma_tseitin_shape(e, n);
    match e {
        Expr::Var(v) => {},
        Expr::Not(x) => {
            let (r1, n1, c1) = tseitin(*x, n);
            let nc = node_clauses(e, n1, r1, 0);
            lemma_lits_formula_append(c1, nc);
            lemma_formula_sat_append(a, lits_formula(c1), lits_formula(nc));
            lemma_tseitin_shape(*x, n);
            lemma_tseitin_sound(*x, n, a);
            let f = lits_formula(nc);
            assert(clause_sat(a, f[0]));
            assert(clause_sat(a, f[1]));
            assert(f[0] =~= seq![n1, r1]);
            assert(f[1] =~= seq![-n1, -r1]);
        },
        Expr::And(x, y) | Expr::Or(x, y) | Expr::Impl(x, y) | Expr::Equiv(x, y) => {
            let (r1, n1, c1) = tseitin(*x, n);
            lemma_tseitin_shape(*x, n);
            crate::expr::lemma_vars_at_most_mono(*y, n - 1, n1 - 1);
            let (r2, n2, c2) = tseitin(*y, n1);
            lemma_tseitin_shape(*y, n1);
            let nc = node_clauses(e, n2, r1, r2);
            lemma_lits_formula_append(c1 + c2, nc);
            lemma_lits_formula_append(c1, c2);
            lemma_formula_sat_append(a, lits_formula(c1) + lits_formula(c2), lits_formula(nc));
            lemma_formula_sat_append(a, lits_formula(c1), lits_formula(c2));
            lemma_tseitin_sound(*x, n, a);
            lemma_tseitin_sound(*y, n1, a);
            let f = lits_formula(nc);
            assert forall|i: int| 0 <= i < f.len() implies #[trigger] clause_sat(a, f[i]) by {}
            match e {
                Expr::And(_, _) => {
                    assert(f[0] =~= seq![-n2, r1]);
                    assert(f[1] =~= seq![-n2, r2]);
                    assert(f[2] =~= seq![n2, -r1, -r2]);
                    assert(clause_sat(a, f[0]) && clause_sat(a, f[1]) && clause_sat(a, f[2]));
                },
                Expr::Or(_, _) => {
                    assert(f[0] =~= seq![-n2, r1, r2]);
                    assert(f[1] =~= seq![n2, -r1]);
                    assert(f[2] =~= seq![n2, -r2]);
                    assert(clause_sat(a, f[0]) && clause_sat(a, f[1]) && clause_sat(a, f[2]));
                },
                Expr::Impl(_, _) => {
                    assert(f[0] =~= seq![-n2, -r1, r2]);
                    assert(f[1] =~= seq![n2, r1]);
                    assert(f[2] =~= seq![n2, -r2]);
                    assert(clause_sat(a, f[0]) && clause_sat(a, f[1]) && clause_sat(a, f[2]));
                },
                _ => {
                    assert(f[0] =~= seq![-n2, -r1, r2]);
                    assert(f[1] =~= seq![-n2, -r2, r1]);
                    assert(f[2] =~= seq![n2, r1, r2]);
                    assert(f[3] =~= seq![n2, -r1, -r2]);
                    assert(clause_sat(a, f[0]) && clause_sat(a, f[1]) && clause_sat(a, f[2])
                        && clause_sat(a, f[3]));
                },
            }
        },
    }
}

/// Completeness of the encoding: the extension of any assignment agrees with
/// it on the original variables, satisfies all the clauses, and gives the
/// naming variable the value of the formula.
pub proof fn lemma_tseitin_complete(e: Expr, n: int, a: spec_fn(int) -> bool)
    requires
        vars_positive(e),
        vars_at_most(e, n - 1),
        n >= 1,
        n + op_count(e) <= i32::MAX,
    ensures
        agree_below(extend(e, n, a), a, n),
        formula_sat(extend(e, n, a), lits_formula(tseitin(e, n).2)),
        lit_true(extend(e, n, a), tseitin(e, n).0) == eval(e, a),
    decreases e,
{
    lemma_tseitin_shape(e, n);
    match e {
        Expr::Var(v) => {
            assert(formula_sat(a, lits_formula(tseitin(e, n).2)));
        },
        Expr::Not(x) => {
            let (r1, n1, c1) = tseitin(*x, n);
            lemma_tseitin_shape(*x, n);
            lemma_tseitin_complete(*x, n, a);
            let a1 = extend(*x, n, a);
            let a3 = extend(e, n, a);
            assert(agree_below(a3, a1, n1));
            lemma_formula_agree(c1, a3, a1, n1);
            lemma_eval_agree(*x, a1, a, n);
            let nc = node_clauses(e, n1, r1, 0);
            let f = lits_formula(nc);
            assert(f[0] =~= seq![n1, r1]);
            assert(f[1] =~= seq![-n1, -r1]);
            assert(lit_true(a3, r1) == lit_true(a1, r1));
            if eval(*x, a) {
                assert(lit_true(a3, f[0][1]));
                assert(lit_true(a3, f[1][0]));
            } else {
                assert(lit_true(a3, f[0][0]));
                assert(lit_true(a3, f[1][1]));
            }
            assert(clause_sat(a3, f[0]) && clause_sat(a3, f[1]));
            assert forall|i: int| 0 <= i < f.len() implies #[trigger] clause_sat(a3, f[i]) by {}
            lemma_lits_formula_append(c1, nc);
            lemma_formula_sat_append(a3, lits_formula(c1), lits_formula(nc));
        },
        Expr::And(x, y) | Expr::Or(x, y) | Expr::Impl(x, y) | Expr::Equiv(x, y) => {
            let (r1, n1, c1) = tseitin(*x, n);
            lemma_tseitin_shape(*x, n);
            crate::expr::lemma_vars_at_most_mono(*y, n - 1, n1 - 1);
            let (r2, n2, c2) = tseitin(*y, n1);
            lemma_tseitin_shape(*y, n1);
            lemma_tseitin_complete(*x, n, a);
            let a1 = extend(*x, n, a);
            lemma_tseitin_complete(*y, n1, a1);
            let a2 = extend(*y, n1, a1);
            let a3 = extend(e, n, a);
            assert(agree_below(a3, a2, n2));
            assert(agree_below(a2, a1, n1));
            assert(agree_below(a3, a1, n1));
            assert(agree_below(a3, a, n));
            lemma_formula_agree(c1, a3, a1, n1);
            lemma_formula_agree(c2, a3, a2, n2);
            lemma_eval_agree(*x, a1, a, n);
            lemma_eval_agree(*y, a1, a, n);
            assert(lit_true(a3, r1) == lit_true(a1, r1));
            assert(lit_true(a3, r2) == lit_true(a2, r2));
            let b1 = eval(*x, a);
            let b2 = eval(*y, a);
            assert(lit_true(a3, n2) == eval(e, a));
            let nc = node_clauses(e, n2, r1, r2);
            let f = lits_formula(nc);
            match e {
                Expr::And(_, _) => {
                    assert(f[0] =~= seq![-n2, r1]);
                    assert(f[1] =~= seq![-n2, r2]);
                    assert(f[2] =~= seq![n2, -r1, -r2]);
                    if b1 && b2 {
                        assert(lit_true(a3, f[0][1]) && lit_true(a3, f[1][1]) && lit_true(a3, f[2][0]));
                    } else if !b1 {
                        assert(lit_true(a3, f[0][0]) && lit_true(a3, f[1][0]) && lit_true(a3, f[2][1]));
                    } else {
                        assert(lit_true(a3, f[0][0]) && lit_true(a3, f[1][0]) && lit_true(a3, f[2][2]));
                    }
                    assert(clause_sat(a3, f[0]) && clause_sat(a3, f[1]) && clause_sat(a3, f[2]));
                },
                Expr::Or(_, _) => {
                    assert(f[0] =~= seq![-n2, r1, r2]);
                    assert(f[1] =~= seq![n2, -r1]);
                    assert(f[2] =~= seq![n2, -r2]);
                    if b1 {
                        assert(lit_true(a3, f[0][1]) && lit_true(a3, f[1][0]) && lit_true(a3, f[2][0]));
                    } else if b2 {
                        assert(lit_true(a3, f[0][2]) && lit_true(a3, f[1][0]) && lit_true(a3, f[2][0]));
                    } else {
                        assert(lit_true(a3, f[0][0]) && lit_true(a3, f[1][1]) && lit_true(a3, f[2][1]));
                    }
                    assert(clause_sat(a3, f[0]) && clause_sat(a3, f[1]) && clause_sat(a3, f[2]));
                },
                Expr::Impl(_, _) => {
                    assert(f[0] =~= seq![-n2, -r1, r2]);
                    assert(f[1] =~= seq![n2, r1]);
                    assert(f[2] =~= seq![n2, -r2]);
                    if !b1 {
                        assert(lit_true(a3, f[0][1]) && lit_true(a3, f[1][0]) && lit_true(a3, f[2][0]));
                    } else if b2 {
                        assert(lit_true(a3, f[0][2]) && lit_true(a3, f[1][0]) && lit_true(a3, f[2][0]));
                    } else {
                        assert(lit_true(a3, f[0][0]) && lit_true(a3, f[1][1]) && lit_true(a3, f[2][1]));
                    }
                    assert(clause_sat(a3, f[0]) && clause_sat(a3, f[1]) && clause_sat(a3, f[2]));
                },
                _ => {
                    assert(f[0] =~= seq![-n2, -r1, r2]);
                    assert(f[1] =~= seq![-n2, -r2, r1]);
                    assert(f[2] =~= seq![n2, r1, r2]);
                    assert(f[3] =~= seq![n2, -r1, -r2]);
                    if b1 && b2 {
                        assert(lit_true(a3, f[0][2]) && lit_true(a3, f[1][2]) && lit_true(a3, f[2][0]) && lit_true(a3, f[3][0]));
                    } else if !b1 && !b2 {
                        assert(lit_true(a3, f[0][1]) && lit_true(a3, f[1][1]) && lit_true(a3, f[2][0]) && lit_true(a3, f[3][0]));
                    } else if b1 {
                        assert(lit_true(a3, f[0][0]) && lit_true(a3, f[1][0]) && lit_true(a3, f[2][1]) && lit_true(a3, f[3][2]));
                    } else {
                        assert(lit_true(a3, f[0][0]) && lit_true(a3, f[1][0]) && lit_true(a3, f[2][2]) && lit_true(a3, f[3][1]));
                    }
                    assert(clause_sat(a3, f[0]) && clause_sat(a3, f[1]) && clause_sat(a3, f[2])
                        && clause_sat(a3, f[3]));
                },
            }
            assert forall|i: int| 0 <= i < f.len() implies #[trigger] clause_sat(a3, f[i]) by {}
            lemma_lits_formula_append(c1 + c2, nc);
            lemma_lits_formula_append(c1, c2);
            lemma_formula_sat_append(a3, lits_formula(c1) + lits_formula(c2), lits_formula(nc));
            lemma_formula_sat_append(a3, lits_formula(c1), lits_formula(c2));
        },
    }
}

/// The complete Tseitin output (the encoding plus the unit clause asserting
/// the naming variable) for a formula whose variables are positive, with
/// fresh variables numbered after the largest one.
pub open spec fn tseitin_cnf(e: Expr) -> Seq<Seq<Literal>> {
    let (r, _n, c) = tseitin(e, max_var(e) + 1);
    c + seq![seq![pos(r)]]
}

/// Equisatisfiability: every model of the Tseitin clauses is a model of the
/// formula, and every model of the formula extends to a model of the
/// clauses that agrees with it on the formula's variables.
pub proof fn lemma_tseitin_equisat(e: Expr)
    requires
        vars_positive(e),
        max_var(e) + 1 + op_count(e) <= i32::MAX,
    ensures
        forall|a: spec_fn(int) -> bool| #[trigger]
            formula_sat(a, lits_formula(tseitin_cnf(e))) ==> eval(e, a),
        forall|a: spec_fn(int) -> bool| #[trigger]
            eval(e, a) ==> formula_sat(extend(e, max_var(e) + 1, a), lits_formula(tseitin_cnf(e)))
            && agree_below(extend(e, max_var(e) + 1, a), a, max_var(e) + 1),
        expr_satisfiable(e) <==> satisfiable(lits_formula(tseitin_cnf(e))),
{
    let n = max_var(e) + 1;
    lemma_max_var_bounds(e);
    let (r, _n1, c) = tseitin(e, n);
    let u = seq![seq![pos(r)]];
    lemma_lits_formula_append(c, u);
    lemma_tseitin_shape(e, n);
    assert forall|a: spec_fn(int) -> bool| #[trigger]
        formula_sat(a, lits_formula(tseitin_cnf(e))) implies eval(e, a) by {
        lemma_formula_sat_append(a, lits_formula(c), lits_formula(u));
        lemma_tseitin_sound(e, n, a);
        assert(clause_sat(a, lits_formula(u)[0]));
        assert(lits_formula(u)[0] =~= seq![r]);
    }
    assert forall|a: spec_fn(int) -> bool| #[trigger] eval(e, a) implies formula_sat(
        extend(e, n, a),
        lits_formula(tseitin_cnf(e)),
    ) && agree_below(extend(e, n, a), a, n) by {
        lemma_tseitin_complete(e, n, a);
        let b = extend(e, n, a);
        lemma_formula_sat_append(b, lits_formula(c), lits_formula(u));
        let fu = lits_formula(u);
        assert(fu[0] =~= seq![r]);
        assert(lit_true(b, fu[0][0]));
        assert forall|i: int| 0 <= i < fu.len() implies #[trigger] clause_sat(b, fu[i]) by {}
    }
    if expr_satisfiable(e) {
        let a = choose|a: spec_fn(int) -> bool| #[trigger] eval(e, a);
        assert(formula_sat(extend(e, n, a), lits_formula(tseitin_cnf(e))));
    }
    if satisfiable(lits_formula(tseitin_cnf(e))) {
        let a = choose|a: spec_fn(int) -> bool| #[trigger]
            formula_sat(a, lits_formula(tseitin_cnf(e)));
        assert(eval(e, a));
    }
}

// ---------------------------------------------------------------------------
// Executable transformer
// ---------------------------------------------------------------------------

/// Transforms boolean expressions to CNF using the Tseitin transformation.
pub struct TseitinTransformer {
    /// The next variable number to allocate for auxiliary variables.
    next_var: i32,
    /// The accumulated CNF clauses.
    pub clauses: Vec<Clause>,
}

/// The literal sequences of a sequence of clauses.
pub open spec fn clause_lits(cs: Seq<Clause>) -> Seq<Seq<Literal>> {
    cs.map_values(|c: Clause| c.literals@)
}

fn clause2(a: Literal, b: Literal) -> (c: Clause)
    ensures
        c.literals@ == seq![a, b],
{
    let mut v: Vec<Literal> = Vec::new();
    v.push(a);
    v.push(b);
    proof {
        assert(v@ =~= seq![a, b]);
    }
    Clause::new(v)
}

fn clause3(a: Literal, b: Literal, c: Literal) -> (r: Clause)
    ensures
        r.literals@ == seq![a, b, c],
{
    let mut v: Vec<Literal> = Vec::new();
    v.push(a);
    v.push(b);
    v.push(c);
    proof {
        assert(v@ =~= seq![a, b, c]);
    }
    Clause::new(v)
}

impl TseitinTransformer {
    /// The next auxiliary variable number.
    pub closed spec fn next(&self) -> int {
        self.next_var as int
    }

    /// The literal sequences of the accumulated clauses.
    pub closed spec fn emitted(&self) -> Seq<Seq<Literal>> {
        clause_lits(self.clauses@)
    }

    /// Creates a new transformer; auxiliary variables are numbered from
    /// `max_var + 1`.
    pub fn new(max_var: i32) -> (t: Self)
        requires
            max_var < i32::MAX,
        ensures
            t.next() == max_var + 1,
            t.emitted().len() == 0,
    {
        let t = TseitinTransformer { next_var: max_var + 1, clauses: Vec::new() };
        proof {
            assert(clause_lits(t.clauses@) =~= Seq::<Seq<Literal>>::empty());
        }
        t
    }

    /// The next auxiliary variable number.
    pub fn next_var(&self) -> (n: i32)
        ensures
            n == self.next(),
    {
        self.next_var
    }

    /// Allocates a fresh auxiliary variable.
    fn fresh_var(&mut self) -> (v: i32)
        requires
            old(self).next_var < i32::MAX,
        ensures
            v == old(self).next_var,
            final(self).next_var == old(self).next_var + 1,
            final(self).clauses == old(self).clauses,
    {
        let v = self.next_var;
        self.next_var = self.next_var + 1;
        v
    }

    /// Transforms an expression, appending the clauses that define each of
    /// its operator nodes, and returns the variable that names it.
    pub fn transform(&mut self, expr: &Expr) -> (r: i32)
        requires
            old(self).next() + op_count(*expr) <= i32::MAX,
        ensures
            ({
                let (root, next, cs) = tseitin(*expr, old(self).next());
                &&& r == root
                &&& final(self).next() == next
                &&& final(self).emitted() == old(self).emitted() + cs
            }),
        decreases *expr,
    {
        let ghost c0 = clause_lits(self.clauses@);
        proof {
            lemma_tseitin_next(*expr, self.next());
            match expr {
                Expr::Not(x) => {
                    lemma_tseitin_next(**x, self.next());
                },
                Expr::And(x, y) | Expr::Or(x, y) | Expr::Impl(x, y) | Expr::Equiv(x, y) => {
                    lemma_tseitin_next(**x, self.next());
                },
                _ => {},
            }
        }
        match expr {
            Expr::Var(v) => {
                proof {
                    assert(clause_lits(self.clauses@) =~= c0 + Seq::<Seq<Literal>>::empty());
                }
                *v
            },
            Expr::Not(e) => {
                let sub = self.transform(e);
                let result = self.fresh_var();
                let ghost c1 = clause_lits(self.clauses@);
                self.clauses.push(clause2(Literal::positive(result), Literal::positive(sub)));
                self.clauses.push(clause2(Literal::negative(result), Literal::negative(sub)));
                proof {
                    assert(clause_lits(self.clauses@) =~= c1 + node_clauses(
                        *expr,
                        result as int,
                        sub as int,
                        0,
                    ));
                    assert(clause_lits(self.clauses@) =~= c0 + tseitin(*expr, old(self).next()).2);
                }
                result
            },
            Expr::And(e1, e2) => {
                let sub1 = self.transform(e1);
                let sub2 = self.transform(e2);
                let result = self.fresh_var();
                let ghost c1 = clause_lits(self.clauses@);
                self.clauses.push(clause2(Literal::negative(result), Literal::positive(sub1)));
                self.clauses.push(clause2(Literal::negative(result), Literal::positive(sub2)));
                self.clauses.push(
                    clause3(
                        Literal::positive(result),
                        Literal::negative(sub1),
                        Literal::negative(sub2),
                    ),
                );
                proof {
                    assert(clause_lits(self.clauses@) =~= c1 + node_clauses(
                        *expr,
                        result as int,
                        sub1 as int,
                        sub2 as int,
                    ));
                    assert(clause_lits(self.clauses@) =~= c0 + tseitin(*expr, old(self).next()).2);
                }
                result
            },
            Expr::Or(e1, e2) => {
                let sub1 = self.transform(e1);
                let sub2 = self.transform(e2);
                let result = self.fresh_var();
                let ghost c1 = clause_lits(self.clauses@);
                self.clauses.push(
                    clause3(
                        Literal::negative(result),
                        Literal::positive(sub1),
                        Literal::positive(sub2),
                    ),
                );
                self.clauses.push(clause2(Literal::positive(result), Literal::negative(sub1)));
                self.clauses.push(clause2(Literal::positive(result), Literal::negative(sub2)));
                proof {
                    assert(clause_lits(self.clauses@) =~= c1 + node_clauses(
                        *expr,
                        result as int,
                        sub1 as int,
                        sub2 as int,
                    ));
                    assert(clause_lits(self.clauses@) =~= c0 + tseitin(*expr, old(self).next()).2);
                }
                result
            },
            Expr::Impl(e1, e2) => {
                let sub1 = self.transform(e1);
                let sub2 = self.transform(e2);
                let result = self.fresh_var();
                let ghost c1 = clause_lits(self.clauses@);
                self.clauses.push(
                    clause3(
                        Literal::negative(result),
                        Literal::negative(sub1),
                        Literal::positive(sub2),
                    ),
                );
                self.clauses.push(clause2(Literal::positive(result), Literal::positive(sub1)));
                self.clauses.push(clause2(Literal::positive(result), Literal::negative(sub2)));
                proof {
                    assert(clause_lits(self.clauses@) =~= c1 + node_clauses(
                        *expr,
                        result as int,
                        sub1 as int,
                        sub2 as int,
                    ));
                    assert(clause_lits(self.clauses@) =~= c0 + tseitin(*expr, old(self).next()).2);
                }
                result
            },
            Expr::Equiv(e1, e2) => {
                let sub1 = self.transform(e1);
                let sub2 = self.transform(e2);
                let result = self.fresh_var();
                let ghost c1 = clause_lits(self.clauses@);
                self.clauses.push(
                    clause3(
                        Literal::negative(result),
                        Literal::negative(sub1),
                        Literal::positive(sub2),
                    ),
                );
                self.clauses.push(
                    clause3(
                        Literal::negative(result),
                        Literal::negative(sub2),
                        Literal::positive(sub1),
                    ),
                );
                self.clauses.push(
                    clause3(
                        Literal::positive(result),
                        Literal::positive(sub1),
                        Literal::positive(sub2),
                    ),
                );
                self.clauses.push(
                    clause3(
                        Literal::positive(result),
                        Literal::negative(sub1),
                        Literal::negative(sub2),
                    ),
                );
                proof {
                    assert(clause_lits(self.clauses@) =~= c1 + node_clauses(
                        *expr,
                        result as int,
                        sub1 as int,
                        sub2 as int,
                    ));
                    assert(clause_lits(self.clauses@) =~= c0 + tseitin(*expr, old(self).next()).2);
                }
                result
            },
        }
    }

    /// Finalizes the transformation: appends the unit clause asserting the
    /// root variable and returns all clauses.
    pub fn into_clauses(self, root_var: i32) -> (cs: Vec<Clause>)
        ensures
            clause_lits(cs@) == self.emitted() + seq![seq![pos(root_var as int)]],
    {
        let mut clauses = self.clauses;
        let ghost c0 = clause_lits(clauses@);
        clauses.push(Clause::unit(Literal::positive(root_var)));
        proof {
            assert(clause_lits(clauses@) =~= c0 + seq![seq![pos(root_var as int)]]);
        }
        clauses
    }
}

} // verus!
