//! Lights Out: pressing a button toggles its light and the orthogonally
//! adjacent ones; find presses that turn every light off.  Each light gives
//! a parity (XOR) constraint over the buttons that reach it, encoded as a
//! chain of auxiliary variables.
use vstd::prelude::*;
use crate::encode::lemma_formula_sat_push;
use crate::literal::{
    clause_ints, clause_sat, clauses_formula, clauses_wf, formula_sat, lit_true, satisfiable, signed, Clause, Literal,
};
use crate::solver::{lemma_drop_empty_id, lemma_sat_agree_below_max, solver_input_fits, CDCLSolver, SolverError};

verus! {

/// The parity of the variables of `vs` that are true under `a`.
pub open spec fn xor_of(a: spec_fn(int) -> bool, vs: Seq<int>) -> bool
    decreases vs.len(),
{
    if vs.len() == 0 {
        false
    } else {
        xor_of(a, vs.drop_last()) != a(vs.last())
    }
}

/// Each auxiliary variable `base + k` holds the parity of the first `k + 2`
/// variables of `vs`.
pub open spec fn chain_ok(a: spec_fn(int) -> bool, vs: Seq<int>, base: int) -> bool {
    forall|k: int| 0 <= k < vs.len() - 2 ==> #[trigger] a(base + k) == xor_of(a, vs.take(k + 2))
}

/// Every literal of `cs` has one of the variables `vars` or one in `lo..hi`.
pub open spec fn vars_scoped(cs: Seq<Clause>, vars: Seq<i32>, lo: int, hi: int) -> bool {
    forall|i: int, k: int| 0 <= i < cs.len() && 0 <= k < cs[i]@.len() ==> vars.contains(
        (#[trigger] cs[i]@[k]).var,
    ) || lo <= cs[i]@[k].var < hi
}

/// Every literal of `cs` has a variable in `1..hi`.
pub open spec fn vars_below(cs: Seq<Clause>, hi: int) -> bool {
    forall|i: int, k: int| 0 <= i < cs.len() && 0 <= k < cs[i]@.len() ==> 1 <= (#[trigger] cs[i]@[k]).var < hi
}

/// A clause of two literals holds when one of them does.
proof fn lemma_clause_of_two(a: spec_fn(int) -> bool, x: int, y: int)
    ensures
        clause_sat(a, seq![x, y]) <==> lit_true(a, x) || lit_true(a, y),
{
    let c = seq![x, y];
    if lit_true(a, x) {
        assert(lit_true(a, c[0]));
    }
    if lit_true(a, y) {
        assert(lit_true(a, c[1]));
    }
}

/// A clause of three literals holds when one of them does.
proof fn lemma_clause_of_three(a: spec_fn(int) -> bool, x: int, y: int, z: int)
    ensures
        clause_sat(a, seq![x, y, z]) <==> lit_true(a, x) || lit_true(a, y) || lit_true(a, z),
{
    let c = seq![x, y, z];
    if lit_true(a, x) {
        assert(lit_true(a, c[0]));
    }
    if lit_true(a, y) {
        assert(lit_true(a, c[1]));
    }
    if lit_true(a, z) {
        assert(lit_true(a, c[2]));
    }
}

/// Appends the clause with literals `lits`.
fn push_lits(clauses: &mut Vec<Clause>, lits: Vec<Literal>, Ghost(hi): Ghost<int>)
    ensures
        final(clauses)@.len() == old(clauses)@.len() + 1,
        final(clauses)@.last()@ == lits@,
        forall|i: int| 0 <= i < old(clauses)@.len() ==> #[trigger] final(clauses)@[i] == old(clauses)@[i],
        vars_below(old(clauses)@, hi) && (forall|k: int| 0 <= k < lits@.len() ==> 1 <= (#[trigger] lits@[k]).var < hi)
            ==> vars_below(final(clauses)@, hi),
        forall|a: spec_fn(int) -> bool|
            #[trigger] formula_sat(a, clauses_formula(final(clauses)@)) <==> formula_sat(
                a,
                clauses_formula(old(clauses)@),
            ) && clause_sat(a, lits@.map_values(|l: Literal| signed(l))),
{
    let c = Clause::new(lits);
    let ghost cs0 = clauses@;
    clauses.push(c);
    proof {
        assert(clauses_formula(clauses@) =~= clauses_formula(cs0).push(clause_ints(c)));
        assert forall|a: spec_fn(int) -> bool| #[trigger]
            formula_sat(a, clauses_formula(clauses@)) <==> formula_sat(a, clauses_formula(cs0))
                && clause_sat(a, c@.map_values(|l: Literal| signed(l))) by {
            lemma_formula_sat_push(a, clauses_formula(cs0), clause_ints(c));
        }
        if vars_below(cs0, hi) && (forall|k: int| 0 <= k < c@.len() ==> 1 <= (#[trigger] c@[k]).var < hi) {
            assert forall|i: int, k: int| 0 <= i < clauses@.len() && 0 <= k < clauses@[i]@.len() implies 1 <= (
            #[trigger] clauses@[i]@[k]).var < hi by {
                if i < cs0.len() {
                    assert(clauses@[i] == cs0[i]);
                }
            }
        }
    }
}

/// Appends the four clauses that make `res` equal to `p XOR v`.
fn push_xor_def(clauses: &mut Vec<Clause>, p: i32, v: i32, res: i32, Ghost(hi): Ghost<int>)
    requires
        0 < p < hi,
        0 < v < hi,
        0 < res < hi,
    ensures
        final(clauses)@.len() == old(clauses)@.len() + 4,
        vars_below(old(clauses)@, hi) ==> vars_below(final(clauses)@, hi),
        forall|i: int| 0 <= i < old(clauses)@.len() ==> #[trigger] final(clauses)@[i] == old(clauses)@[i],
        forall|i: int, k: int|
            old(clauses)@.len() <= i < final(clauses)@.len() && 0 <= k < final(clauses)@[i]@.len() ==> {
                let x = (#[trigger] final(clauses)@[i]@[k]).var;
                x == p || x == v || x == res
            },
        forall|a: spec_fn(int) -> bool|
            #[trigger] formula_sat(a, clauses_formula(final(clauses)@)) <==> formula_sat(
                a,
                clauses_formula(old(clauses)@),
            ) && a(res as int) == (a(p as int) != a(v as int)),
{
    let ghost c0 = clauses@;
    let l1 = vec![Literal::negative(p), Literal::negative(v), Literal::negative(res)];
    proof {
        assert(l1@.map_values(|l: Literal| signed(l)) =~= seq![-(p as int), -(v as int), -(res as int)]);
    }
    push_lits(clauses, l1, Ghost(hi));
    let ghost c1 = clauses@;
    let l2 = vec![Literal::negative(p), Literal::positive(v), Literal::positive(res)];
    proof {
        assert(l2@.map_values(|l: Literal| signed(l)) =~= seq![-(p as int), v as int, res as int]);
    }
    push_lits(clauses, l2, Ghost(hi));
    let ghost c2 = clauses@;
    let l3 = vec![Literal::positive(p), Literal::negative(v), Literal::positive(res)];
    proof {
        assert(l3@.map_values(|l: Literal| signed(l)) =~= seq![p as int, -(v as int), res as int]);
    }
    push_lits(clauses, l3, Ghost(hi));
    let ghost c3 = clauses@;
    let l4 = vec![Literal::positive(p), Literal::positive(v), Literal::negative(res)];
    proof {
        assert(l4@.map_values(|l: Literal| signed(l)) =~= seq![p as int, v as int, -(res as int)]);
    }
    push_lits(clauses, l4, Ghost(hi));
    proof {
        assert forall|a: spec_fn(int) -> bool| #[trigger]
            formula_sat(a, clauses_formula(clauses@)) <==> formula_sat(a, clauses_formula(c0))
                && a(res as int) == (a(p as int) != a(v as int)) by {
            lemma_clause_of_three(a, -(p as int), -(v as int), -(res as int));
            lemma_clause_of_three(a, -(p as int), v as int, res as int);
            lemma_clause_of_three(a, p as int, -(v as int), res as int);
            lemma_clause_of_three(a, p as int, v as int, -(res as int));
            assert(formula_sat(a, clauses_formula(c1)) <==> formula_sat(a, clauses_formula(c0))
                && clause_sat(a, seq![-(p as int), -(v as int), -(res as int)]));
            assert(formula_sat(a, clauses_formula(c2)) <==> formula_sat(a, clauses_formula(c1))
                && clause_sat(a, seq![-(p as int), v as int, res as int]));
            assert(formula_sat(a, clauses_formula(c3)) <==> formula_sat(a, clauses_formula(c2))
                && clause_sat(a, seq![p as int, -(v as int), res as int]));
        }
    }
}

/// The parity of a prefix one longer is the parity of the prefix XOR the
/// next variable.
proof fn lemma_xor_take(a: spec_fn(int) -> bool, vs: Seq<int>, k: int)
    requires
        0 <= k < vs.len(),
    ensures
        xor_of(a, vs.take(k + 1)) == (xor_of(a, vs.take(k)) != a(vs[k])),
{
    assert(vs.take(k + 1).drop_last() =~= vs.take(k));
}

/// Clauses saying that the XOR of `vars` is `target`; longer chains use
/// fresh variables from `next_aux` on, one for each inner variable.
pub fn encode_xor_equals(vars: &[i32], target: bool, next_aux: &mut i32) -> (r: Vec<Clause>)
    requires
        forall|k: int| 0 <= k < vars@.len() ==> 1 <= #[trigger] vars@[k] < *old(next_aux),
        *old(next_aux) + vars@.len() <= i32::MAX,
    ensures
        *final(next_aux) == *old(next_aux) + if vars@.len() >= 2 { vars@.len() - 2 } else { 0 },
        vars_below(r@, *final(next_aux) as int),
        vars_scoped(r@, vars@, *old(next_aux) as int, *final(next_aux) as int),
        forall|a: spec_fn(int) -> bool|
            #[trigger] formula_sat(a, clauses_formula(r@)) <==> chain_ok(a, vars@.map_values(|v: i32| v as int), *old(next_aux) as int)
                && xor_of(a, vars@.map_values(|v: i32| v as int)) == target,
{
    let ghost vs = vars@.map_values(|v: i32| v as int);
    let ghost base = *next_aux as int;
    let mut clauses: Vec<Clause> = Vec::new();
    if vars.len() == 0 {
        if target {
            clauses.push(Clause::new(Vec::new()));
            proof {
                assert(clauses@[0]@.len() == 0);
                assert forall|a: spec_fn(int) -> bool| #[trigger] formula_sat(a, clauses_formula(clauses@)) implies false by {
                    assert(clause_sat(a, clauses_formula(clauses@)[0]));
                }
            }
        }
        return clauses;
    }
    if vars.len() == 1 {
        let lit = if target { Literal::positive(vars[0]) } else { Literal::negative(vars[0]) };
        let l1 = vec![lit];
        proof {
            assert(l1@.map_values(|l: Literal| signed(l)) =~= seq![signed(lit)]);
            assert forall|a: spec_fn(int) -> bool| xor_of(a, vs) == a(vs[0]) by {
                assert(vs.drop_last() =~= Seq::<int>::empty());
                assert(xor_of(a, vs.drop_last()) == false);
            }
        }
        push_lits(&mut clauses, l1, Ghost(base));
        proof {
            assert(clauses@.len() == 1 && clauses@[0]@ == l1@);
            assert(l1@[0].var == vars@[0]);
            assert forall|a: spec_fn(int) -> bool| #[trigger]
                formula_sat(a, clauses_formula(clauses@)) <==> chain_ok(a, vs, base) && xor_of(a, vs) == target by {
                let c = seq![signed(lit)];
                if lit_true(a, signed(lit)) {
                    assert(lit_true(a, c[0]));
                }
            }
        }
        return clauses;
    }
    let n = vars.len();
    let mut prev: i32 = vars[0];
    let mut k: usize = 1;
    proof {
        assert forall|a: spec_fn(int) -> bool| xor_of(a, vs.take(1)) == a(vs[0]) by {
            assert(vs.take(1).drop_last() =~= Seq::<int>::empty());
            assert(xor_of(a, vs.take(1).drop_last()) == false);
        }
    }
    while k < n - 1
        invariant
            vs == vars@.map_values(|v: i32| v as int),
            n == vars@.len(),
            n >= 2,
            1 <= k <= n - 1,
            base == *old(next_aux),
            *next_aux == base + k - 1,
            base + n <= i32::MAX,
            forall|j: int| 0 <= j < n ==> 1 <= #[trigger] vars@[j] < base,
            prev == if k == 1 { vars@[0] as int } else { base + k - 2 },
            0 < prev < *next_aux,
            vars_below(clauses@, *next_aux as int),
            vars_scoped(clauses@, vars@, base, *next_aux as int),
            forall|a: spec_fn(int) -> bool|
                #[trigger] formula_sat(a, clauses_formula(clauses@)) <==> forall|j: int|
                    0 <= j < k - 1 ==> #[trigger] a(base + j) == xor_of(a, vs.take(j + 2)),
            forall|a: spec_fn(int) -> bool| xor_of(a, vs.take(1)) == a(vs[0]),
        decreases n - 1 - k,
    {
        let v = vars[k];
        let res = *next_aux;
        *next_aux = *next_aux + 1;
        let ghost c0 = clauses@;
        proof {
            assert(vars@[k as int] >= 1);
        }
        push_xor_def(&mut clauses, prev, v, res, Ghost(*next_aux as int));
        proof {
            assert forall|i: int, kk: int| 0 <= i < clauses@.len() && 0 <= kk < clauses@[i]@.len()
                implies vars@.contains((#[trigger] clauses@[i]@[kk]).var) || base <= clauses@[i]@[kk].var
                < *next_aux by {
                if i < c0.len() {
                    assert(clauses@[i] == c0[i]);
                } else {
                    let x = clauses@[i]@[kk].var;
                    if x == v {
                        assert(vars@[k as int] == v);
                    }
                    if x == prev && k == 1 {
                        assert(vars@[0] == prev);
                    }
                }
            }
            assert forall|a: spec_fn(int) -> bool| #[trigger]
                formula_sat(a, clauses_formula(clauses@)) <==> forall|j: int|
                    0 <= j < k ==> #[trigger] a(base + j) == xor_of(a, vs.take(j + 2)) by {
                let p_old = forall|j: int| 0 <= j < k - 1 ==> #[trigger] a(base + j) == xor_of(a, vs.take(j + 2));
                let p_new = forall|j: int| 0 <= j < k ==> #[trigger] a(base + j) == xor_of(a, vs.take(j + 2));
                assert(formula_sat(a, clauses_formula(c0)) <==> p_old);
                lemma_xor_take(a, vs, k as int);
                assert(vs[k as int] == v as int);
                assert(res as int == base + (k - 1));
                assert(vs.take(k + 1) == vs.take((k - 1) + 2));
                if p_old {
                    assert(a(prev as int) == xor_of(a, vs.take(k as int))) by {
                        if k > 1 {
                            assert(a(base + (k - 2)) == xor_of(a, vs.take(k - 2 + 2)));
                        }
                    }
                }
                if p_old && a(res as int) == (a(prev as int) != a(v as int)) {
                    assert forall|j: int| 0 <= j < k implies #[trigger] a(base + j) == xor_of(a, vs.take(j + 2)) by {
                        if j == k - 1 {
                            assert(a(base + j) == a(res as int));
                        }
                    }
                }
                if p_new {
                    assert(a(base + (k - 1)) == xor_of(a, vs.take((k - 1) + 2)));
                    assert(p_old);
                }
            }
        }
        prev = res;
        k = k + 1;
    }
    let last = vars[n - 1];
    let ghost c0 = clauses@;
    proof {
        assert(vars@[n - 1] >= 1);
    }
    if target {
        let l1 = vec![Literal::negative(prev), Literal::negative(last)];
        proof {
            assert(l1@.map_values(|l: Literal| signed(l)) =~= seq![-(prev as int), -(last as int)]);
        }
        push_lits(&mut clauses, l1, Ghost(*next_aux as int));
        let l2 = vec![Literal::positive(prev), Literal::positive(last)];
        proof {
            assert(l2@.map_values(|l: Literal| signed(l)) =~= seq![prev as int, last as int]);
        }
        let ghost c1 = clauses@;
        push_lits(&mut clauses, l2, Ghost(*next_aux as int));
        proof {
            assert(clauses@[c0.len() as int] == c1[c0.len() as int]);
            assert(clauses@[c0.len() as int]@ == l1@);
            assert(clauses@[c0.len() as int + 1]@ == l2@);
            assert forall|i: int, kk: int| 0 <= i < clauses@.len() && 0 <= kk < clauses@[i]@.len()
                implies vars@.contains((#[trigger] clauses@[i]@[kk]).var) || base <= clauses@[i]@[kk].var
                < *next_aux by {
                if i < c0.len() {
                    assert(clauses@[i] == c1[i]);
                    assert(c1[i] == c0[i]);
                } else {
                    let x = clauses@[i]@[kk].var;
                    assert(x == prev || x == last);
                    if x == last {
                        assert(vars@[n - 1] == last);
                    }
                    if x == prev && k == 1 {
                        assert(vars@[0] == prev);
                    }
                }
            }
        }
        proof {
            assert forall|a: spec_fn(int) -> bool| #[trigger]
                formula_sat(a, clauses_formula(clauses@)) <==> formula_sat(a, clauses_formula(c0))
                    && (a(prev as int) != a(last as int)) by {
                lemma_clause_of_two(a, -(prev as int), -(last as int));
                lemma_clause_of_two(a, prev as int, last as int);
                assert(formula_sat(a, clauses_formula(c1)) <==> formula_sat(a, clauses_formula(c0))
                    && clause_sat(a, seq![-(prev as int), -(last as int)]));
            }
        }
    } else {
        let l1 = vec![Literal::negative(prev), Literal::positive(last)];
        proof {
            assert(l1@.map_values(|l: Literal| signed(l)) =~= seq![-(prev as int), last as int]);
        }
        push_lits(&mut clauses, l1, Ghost(*next_aux as int));
        let l2 = vec![Literal::positive(prev), Literal::negative(last)];
        proof {
            assert(l2@.map_values(|l: Literal| signed(l)) =~= seq![prev as int, -(last as int)]);
        }
        let ghost c1 = clauses@;
        push_lits(&mut clauses, l2, Ghost(*next_aux as int));
        proof {
            assert(clauses@[c0.len() as int] == c1[c0.len() as int]);
            assert(clauses@[c0.len() as int]@ == l1@);
            assert(clauses@[c0.len() as int + 1]@ == l2@);
            assert forall|i: int, kk: int| 0 <= i < clauses@.len() && 0 <= kk < clauses@[i]@.len()
                implies vars@.contains((#[trigger] clauses@[i]@[kk]).var) || base <= clauses@[i]@[kk].var
                < *next_aux by {
                if i < c0.len() {
                    assert(clauses@[i] == c1[i]);
                    assert(c1[i] == c0[i]);
                } else {
                    let x = clauses@[i]@[kk].var;
                    assert(x == prev || x == last);
                    if x == last {
                        assert(vars@[n - 1] == last);
                    }
                    if x == prev && k == 1 {
                        assert(vars@[0] == prev);
                    }
                }
            }
        }
        proof {
            assert forall|a: spec_fn(int) -> bool| #[trigger]
                formula_sat(a, clauses_formula(clauses@)) <==> formula_sat(a, clauses_formula(c0))
                    && (a(prev as int) == a(last as int)) by {
                lemma_clause_of_two(a, -(prev as int), last as int);
                lemma_clause_of_two(a, prev as int, -(last as int));
                assert(formula_sat(a, clauses_formula(c1)) <==> formula_sat(a, clauses_formula(c0))
                    && clause_sat(a, seq![-(prev as int), last as int]));
            }
        }
    }
    proof {
        assert forall|a: spec_fn(int) -> bool| #[trigger]
            formula_sat(a, clauses_formula(clauses@)) <==> chain_ok(a, vs, base) && xor_of(a, vs) == target by {
            assert(formula_sat(a, clauses_formula(c0)) <==> forall|j: int|
                0 <= j < n - 2 ==> #[trigger] a(base + j) == xor_of(a, vs.take(j + 2)));
            lemma_xor_take(a, vs, n - 1);
            assert(vs.take(n as int) =~= vs);
            assert(vs[n - 1] == last as int);
            if chain_ok(a, vs, base) || formula_sat(a, clauses_formula(c0)) {
                assert(a(prev as int) == xor_of(a, vs.take(n - 1))) by {
                    if n > 2 {
                        assert(a(base + (n - 3)) == xor_of(a, vs.take(n - 3 + 2)));
                    }
                }
            }
        }
    }
    clauses
}

/// The variable "button (`r`, `c`) is pressed" on a board with `cols`
/// columns.
pub open spec fn button_var(cols: int, r: int, c: int) -> int {
    r * cols + c + 1
}

/// The buttons whose press toggles light (`r`, `c`), in row-major order:
/// the one above, to the left, the button itself, to the right, below.
pub open spec fn affecting_vars(rows: int, cols: int, r: int, c: int) -> Seq<int> {
    let s0 = if r > 0 { seq![button_var(cols, r - 1, c)] } else { Seq::empty() };
    let s1 = if c > 0 { s0.push(button_var(cols, r, c - 1)) } else { s0 };
    let s2 = s1.push(button_var(cols, r, c));
    let s3 = if c + 1 < cols { s2.push(button_var(cols, r, c + 1)) } else { s2 };
    if r + 1 < rows { s3.push(button_var(cols, r + 1, c)) } else { s3 }
}

/// Light (`r`, `c`) is on the board and in the given initial state.
pub open spec fn cell_in(init: Seq<Seq<bool>>, rows: int, cols: int, r: int, c: int) -> bool {
    0 <= r < rows && r < init.len() && 0 <= c < cols && c < init[r].len()
}

/// Pressing the buttons true under `a` turns every light off: each light
/// is toggled once more than an even number of times exactly when it is on.
pub open spec fn lights_off(a: spec_fn(int) -> bool, rows: int, cols: int, init: Seq<Seq<bool>>) -> bool {
    forall|r: int, c: int|
        cell_in(init, rows, cols, r, c) ==> xor_of(a, #[trigger] affecting_vars(rows, cols, r, c)) == init[r][c]
}

/// The lights before row `r0`, and those of row `r0` before column `c0`,
/// are turned off.
pub open spec fn lights_part(a: spec_fn(int) -> bool, rows: int, cols: int, init: Seq<Seq<bool>>, r0: int, c0: int) -> bool {
    forall|r: int, c: int|
        cell_in(init, rows, cols, r, c) && (r < r0 || (r == r0 && c < c0)) ==> xor_of(
            a,
            #[trigger] affecting_vars(rows, cols, r, c),
        ) == init[r][c]
}

/// Every auxiliary variable of `def` holds the parity of its sequence.
pub open spec fn chain_all(a: spec_fn(int) -> bool, def: Map<int, Seq<int>>) -> bool {
    forall|v: int| #[trigger] def.dom().contains(v) ==> a(v) == xor_of(a, def[v])
}

/// The parity of a sequence depends only on the values of its variables.
pub proof fn lemma_xor_agree(a: spec_fn(int) -> bool, b: spec_fn(int) -> bool, vs: Seq<int>)
    requires
        forall|k: int| 0 <= k < vs.len() ==> a(#[trigger] vs[k]) == b(vs[k]),
    ensures
        xor_of(a, vs) == xor_of(b, vs),
    decreases vs.len(),
{
    if vs.len() > 0 {
        let t = vs.drop_last();
        assert forall|k: int| 0 <= k < t.len() implies a(#[trigger] t[k]) == b(t[k]) by {
            assert(t[k] == vs[k]);
        }
        lemma_xor_agree(a, b, t);
        assert(a(vs[vs.len() - 1]) == b(vs[vs.len() - 1]));
    }
}

proof fn lemma_button_range(rows: int, cols: int, r: int, c: int)
    requires
        0 <= r < rows,
        0 <= c < cols,
    ensures
        1 <= button_var(cols, r, c) <= rows * cols,
{
    assert(r * cols + c + 1 <= rows * cols) by (nonlinear_arith)
        requires 0 <= r < rows, 0 <= c < cols;
    assert(r * cols >= 0) by (nonlinear_arith)
        requires 0 <= r, 0 <= c < cols;
}

/// The buttons that toggle light (`r`, `c`).
fn affecting(rows: usize, cols: usize, r: usize, c: usize) -> (v: Vec<i32>)
    requires
        r < rows,
        c < cols,
        rows * cols < 0x1000_0000,
    ensures
        v@.map_values(|x: i32| x as int) == affecting_vars(rows as int, cols as int, r as int, c as int),
        v@.len() <= 5,
        forall|k: int| 0 <= k < v@.len() ==> 1 <= #[trigger] v@[k] <= rows * cols,
{
    proof {
        lemma_button_range(rows as int, cols as int, r as int, c as int);
        if r > 0 {
            lemma_button_range(rows as int, cols as int, r - 1, c as int);
        }
        if r + 1 < rows {
            lemma_button_range(rows as int, cols as int, r + 1, c as int);
        }
        if c > 0 {
            lemma_button_range(rows as int, cols as int, r as int, c - 1);
        }
        if c + 1 < cols {
            lemma_button_range(rows as int, cols as int, r as int, c + 1);
        }
    }
    let mut v: Vec<i32> = Vec::new();
    if r > 0 {
        v.push(((r - 1) * cols + c + 1) as i32);
    }
    if c > 0 {
        v.push((r * cols + c - 1 + 1) as i32);
    }
    v.push((r * cols + c + 1) as i32);
    if c + 1 < cols {
        v.push((r * cols + c + 1 + 1) as i32);
    }
    if r + 1 < rows {
        v.push(((r + 1) * cols + c + 1) as i32);
    }
    proof {
        let rr = rows as int;
        let cc = cols as int;
        let ri = r as int;
        let ci = c as int;
        assert((ri - 1) * cc == ri * cc - cc) by (nonlinear_arith);
        assert((ri + 1) * cc == ri * cc + cc) by (nonlinear_arith);
        assert(v@.map_values(|x: i32| x as int) =~= affecting_vars(rr, cc, ri, ci));
    }
    v
}

/// The board as nested sequences.
pub open spec fn board_view(init: Seq<Vec<bool>>) -> Seq<Seq<bool>> {
    init.map_values(|row: Vec<bool>| row@)
}

/// The auxiliary definitions made by one parity chain over `vs` from `base`.
pub open spec fn chain_defs(vs: Seq<int>, base: int) -> Map<int, Seq<int>> {
    Map::new(|v: int| base <= v < base + vs.len() - 2, |v: int| vs.take(v - base + 2))
}

/// Setting each auxiliary variable of `def` to its parity, and keeping the
/// other variables, satisfies all definitions when these only mention
/// variables up to `cells` and the auxiliary ones lie above.
pub open spec fn extend_with(a: spec_fn(int) -> bool, def: Map<int, Seq<int>>) -> spec_fn(int) -> bool {
    |v: int| if def.dom().contains(v) { xor_of(a, def[v]) } else { a(v) }
}

/// Definitions whose variables lie above `cells` and mention only variables
/// in `1..=cells`.
pub open spec fn defs_ok(def: Map<int, Seq<int>>, cells: int, next: int) -> bool {
    forall|v: int| #[trigger] def.dom().contains(v) ==> cells < v < next && forall|k: int|
        0 <= k < def[v].len() ==> 1 <= #[trigger] def[v][k] <= cells
}

proof fn lemma_extend(a: spec_fn(int) -> bool, def: Map<int, Seq<int>>, cells: int, next: int)
    requires
        defs_ok(def, cells, next),
    ensures
        chain_all(extend_with(a, def), def),
        forall|v: int| v <= cells ==> #[trigger] extend_with(a, def)(v) == a(v),
{
    let a2 = extend_with(a, def);
    assert forall|v: int| #[trigger] def.dom().contains(v) implies a2(v) == xor_of(a2, def[v]) by {
        let s = def[v];
        assert forall|k: int| 0 <= k < s.len() implies a(#[trigger] s[k]) == a2(s[k]) by {
            assert(1 <= s[k] <= cells);
            assert(!def.dom().contains(s[k]));
        }
        lemma_xor_agree(a, a2, s);
    }
    assert forall|v: int| v <= cells implies #[trigger] a2(v) == a(v) by {
        if def.dom().contains(v) {
            assert(cells < v);
        }
    }
}

/// Clauses that hold exactly when the pressed buttons turn every light of
/// the `rows` x `cols` board `initial` off, given auxiliary parity variables
/// above `rows * cols` (lights outside `initial` are not constrained).
pub fn generate_lights_out_clauses(rows: usize, cols: usize, initial: &Vec<Vec<bool>>) -> (r: Vec<Clause>)
    requires
        rows * cols < 0x1000_0000,
    ensures
        forall|a: spec_fn(int) -> bool| #[trigger]
            formula_sat(a, clauses_formula(r@)) ==> lights_off(a, rows as int, cols as int, board_view(initial@)),
        forall|a: spec_fn(int) -> bool| #[trigger]
            lights_off(a, rows as int, cols as int, board_view(initial@)) ==> exists|a2: spec_fn(int) -> bool|
                formula_sat(a2, clauses_formula(r@)) && forall|v: int| 1 <= v <= rows * cols ==> #[trigger] a2(v) == a(v),
        forall|i: int, k: int| 0 <= i < r@.len() && 0 <= k < r@[i]@.len() ==> 1 <= (#[trigger] r@[i]@[k]).var
            < 4 * rows * cols + 1,
{
    let ghost init = board_view(initial@);
    let ghost rr = rows as int;
    let ghost cc = cols as int;
    let cells: usize = rows * cols;
    let mut next_aux: i32 = (cells + 1) as i32;
    let ghost mut def: Map<int, Seq<int>> = Map::empty();
    let mut clauses: Vec<Clause> = Vec::new();
    let mut idx: usize = 0;
    let mut r: usize = 0;
    while r < rows && r < initial.len()
        invariant
            init == board_view(initial@),
            rr == rows,
            cc == cols,
            cells == rows * cols,
            cells < 0x1000_0000,
            idx == r * cols,
            idx <= cells,
            r <= rows,
            cells + 1 <= next_aux <= cells + 1 + 3 * idx,
            defs_ok(def, cells as int, next_aux as int),
            forall|i: int, k: int| 0 <= i < clauses@.len() && 0 <= k < clauses@[i]@.len() ==> 1 <= (
            #[trigger] clauses@[i]@[k]).var < next_aux,
            forall|a: spec_fn(int) -> bool| #[trigger]
                formula_sat(a, clauses_formula(clauses@)) <==> chain_all(a, def) && lights_part(a, rr, cc, init, r as int, 0),
        decreases rows - r,
    {
        let row = &initial[r];
        let mut c: usize = 0;
        proof {
            assert(r * cols + cols <= rows * cols) by (nonlinear_arith)
                requires r < rows;
        }
        while c < cols && c < row.len()
            invariant
                init == board_view(initial@),
                row@ == init[r as int],
                rr == rows,
                cc == cols,
                cells == rows * cols,
                cells < 0x1000_0000,
                r < rows,
                r < initial@.len(),
                idx == r * cols + c,
                idx <= r * cols + cols,
                r * cols + cols <= rows * cols,
                c <= cols,
                cells + 1 <= next_aux <= cells + 1 + 3 * idx,
                defs_ok(def, cells as int, next_aux as int),
                forall|i: int, k: int| 0 <= i < clauses@.len() && 0 <= k < clauses@[i]@.len() ==> 1 <= (
                #[trigger] clauses@[i]@[k]).var < next_aux,
                forall|a: spec_fn(int) -> bool| #[trigger]
                    formula_sat(a, clauses_formula(clauses@)) <==> chain_all(a, def) && lights_part(
                        a,
                        rr,
                        cc,
                        init,
                        r as int,
                        c as int,
                    ),
            decreases cols - c,
        {
            let vars = affecting(rows, cols, r, c);
            let target = row[c];
            let ghost vs = vars@.map_values(|x: i32| x as int);
            let ghost b = next_aux as int;
            let ghost c0 = clauses@;
            let ghost d0 = def;
            let mut more = encode_xor_equals(vars.as_slice(), target, &mut next_aux);
            let ghost m0 = more@;
            clauses.append(&mut more);
            proof {
                def = d0.union_prefer_right(chain_defs(vs, b));
                assert(clauses_formula(clauses@) =~= clauses_formula(c0) + clauses_formula(m0));
                assert forall|a: spec_fn(int) -> bool| #[trigger]
                    formula_sat(a, clauses_formula(clauses@)) <==> chain_all(a, def) && lights_part(
                        a,
                        rr,
                        cc,
                        init,
                        r as int,
                        c + 1,
                    ) by {
                    crate::encode::lemma_formula_sat_append(a, clauses_formula(c0), clauses_formula(m0));
                    assert(formula_sat(a, clauses_formula(m0)) <==> chain_ok(a, vs, b) && xor_of(a, vs) == target);
                    assert(chain_all(a, def) <==> chain_all(a, d0) && chain_ok(a, vs, b)) by {
                        if chain_all(a, d0) && chain_ok(a, vs, b) {
                            assert forall|v: int| #[trigger] def.dom().contains(v) implies a(v) == xor_of(a, def[v]) by {
                                if chain_defs(vs, b).dom().contains(v) {
                                    assert(a(b + (v - b)) == xor_of(a, vs.take((v - b) + 2)));
                                } else {
                                    assert(d0.dom().contains(v));
                                }
                            }
                        }
                        if chain_all(a, def) {
                            assert forall|v: int| #[trigger] d0.dom().contains(v) implies a(v) == xor_of(a, d0[v]) by {
                                assert(v < b);
                                assert(!chain_defs(vs, b).dom().contains(v));
                                assert(def.dom().contains(v));
                            }
                            assert forall|k: int| 0 <= k < vs.len() - 2 implies #[trigger] a(b + k) == xor_of(a, vs.take(k + 2)) by {
                                assert(chain_defs(vs, b).dom().contains(b + k));
                                assert(def.dom().contains(b + k));
                            }
                        }
                    }
                    assert(vs == affecting_vars(rr, cc, r as int, c as int));
                    assert(init[r as int][c as int] == target);
                    if lights_part(a, rr, cc, init, r as int, c + 1) {
                        assert(cell_in(init, rr, cc, r as int, c as int));
                        assert(xor_of(a, affecting_vars(rr, cc, r as int, c as int)) == init[r as int][c as int]);
                    }
                    if lights_part(a, rr, cc, init, r as int, c as int) && xor_of(a, vs) == target {
                        assert forall|r2: int, c2: int|
                            cell_in(init, rr, cc, r2, c2) && (r2 < r || (r2 == r && c2 < c + 1)) implies xor_of(
                            a,
                            #[trigger] affecting_vars(rr, cc, r2, c2),
                        ) == init[r2][c2] by {
                            if r2 == r && c2 == c {
                            } else {
                            }
                        }
                    }
                }
                assert(defs_ok(def, cells as int, next_aux as int)) by {
                    assert forall|v: int| #[trigger] def.dom().contains(v) implies cells < v < next_aux && forall|k: int|
                        0 <= k < def[v].len() ==> 1 <= #[trigger] def[v][k] <= cells by {
                        if chain_defs(vs, b).dom().contains(v) {
                            assert forall|k: int| 0 <= k < def[v].len() implies 1 <= #[trigger] def[v][k] <= cells by {
                                assert(def[v] == vs.take(v - b + 2));
                                assert(def[v][k] == vs[k]);
                                assert(vs[k] == vars@[k]);
                            }
                        }
                    }
                }
                assert forall|i: int, k: int| 0 <= i < clauses@.len() && 0 <= k < clauses@[i]@.len() implies 1 <= (
                #[trigger] clauses@[i]@[k]).var < next_aux by {
                    if i < c0.len() {
                        assert(clauses@[i] == c0[i]);
                    } else {
                        assert(clauses@[i] == m0[i - c0.len()]);
                        assert(m0[i - c0.len()]@[k].var < next_aux);
                    }
                }
            }
            idx = idx + 1;
            c = c + 1;
        }
        proof {
            assert forall|a: spec_fn(int) -> bool|
                lights_part(a, rr, cc, init, r as int, c as int) == lights_part(a, rr, cc, init, r + 1, 0) by {
                if lights_part(a, rr, cc, init, r as int, c as int) {
                    assert forall|r2: int, c2: int|
                        cell_in(init, rr, cc, r2, c2) && (r2 < r + 1 || (r2 == r + 1 && c2 < 0)) implies xor_of(
                        a,
                        #[trigger] affecting_vars(rr, cc, r2, c2),
                    ) == init[r2][c2] by {
                        if r2 == r {
                            assert(c2 < c);
                        }
                    }
                }
            }
        }
        idx = r * cols + cols;
        proof {
            assert((r + 1) * cols == r * cols + cols) by (nonlinear_arith);
        }
        r = r + 1;
    }
    proof {
        assert(4 * rows * cols == 4 * (rows * cols)) by (nonlinear_arith);
        assert forall|a: spec_fn(int) -> bool|
            lights_part(a, rr, cc, init, r as int, 0) == lights_off(a, rr, cc, init) by {}
        assert forall|a: spec_fn(int) -> bool| #[trigger] lights_off(a, rr, cc, init) implies exists|a2: spec_fn(int) -> bool|
            formula_sat(a2, clauses_formula(clauses@)) && forall|v: int| 1 <= v <= rows * cols ==> #[trigger] a2(v) == a(v) by {
            lemma_extend(a, def, cells as int, next_aux as int);
            let a2 = extend_with(a, def);
            assert forall|r2: int, c2: int| cell_in(init, rr, cc, r2, c2) implies xor_of(
                a2,
                #[trigger] affecting_vars(rr, cc, r2, c2),
            ) == init[r2][c2] by {
                let s = affecting_vars(rr, cc, r2, c2);
                lemma_button_range(rr, cc, r2, c2);
                if r2 > 0 {
                    lemma_button_range(rr, cc, r2 - 1, c2);
                }
                if r2 + 1 < rr {
                    lemma_button_range(rr, cc, r2 + 1, c2);
                }
                if c2 > 0 {
                    lemma_button_range(rr, cc, r2, c2 - 1);
                }
                if c2 + 1 < cc {
                    lemma_button_range(rr, cc, r2, c2 + 1);
                }
                assert forall|k: int| 0 <= k < s.len() implies a(#[trigger] s[k]) == a2(s[k]) by {
                    assert(s[k] <= cells);
                }
                lemma_xor_agree(a, a2, s);
            }
            assert(formula_sat(a2, clauses_formula(clauses@)));
        }
    }
    clauses
}

/// The parity of the true entries of `s`.
pub open spec fn parity(s: Seq<bool>) -> bool
    decreases s.len(),
{
    if s.len() == 0 {
        false
    } else {
        parity(s.drop_last()) != s.last()
    }
}

/// Whether each button that toggles light (`r`, `c`) is pressed in the
/// grid `p`, in the order of [`affecting_vars`].
pub open spec fn affecting_presses(p: Seq<Seq<bool>>, rows: int, cols: int, r: int, c: int) -> Seq<bool> {
    let s0 = if r > 0 { seq![p[r - 1][c]] } else { Seq::empty() };
    let s1 = if c > 0 { s0.push(p[r][c - 1]) } else { s0 };
    let s2 = s1.push(p[r][c]);
    let s3 = if c + 1 < cols { s2.push(p[r][c + 1]) } else { s2 };
    if r + 1 < rows { s3.push(p[r + 1][c]) } else { s3 }
}

/// `p` has `rows` rows of `cols` entries.
pub open spec fn grid_shape(p: Seq<Seq<bool>>, rows: int, cols: int) -> bool {
    p.len() == rows && forall|r: int| 0 <= r < rows ==> (#[trigger] p[r]).len() == cols
}

/// Pressing the buttons marked in `p` turns every light of `init` off.
pub open spec fn grid_turns_off(p: Seq<Seq<bool>>, rows: int, cols: int, init: Seq<Seq<bool>>) -> bool {
    forall|r: int, c: int|
        cell_in(init, rows, cols, r, c) ==> parity(#[trigger] affecting_presses(p, rows, cols, r, c)) == init[r][c]
}

proof fn lemma_xor_parity(a: spec_fn(int) -> bool, vs: Seq<int>)
    ensures
        xor_of(a, vs) == parity(vs.map_values(|v: int| a(v))),
    decreases vs.len(),
{
    if vs.len() > 0 {
        lemma_xor_parity(a, vs.drop_last());
        assert(vs.map_values(|v: int| a(v)).drop_last() =~= vs.drop_last().map_values(|v: int| a(v)));
    }
}

/// When `a` presses exactly the buttons marked in `p`, the lights it turns
/// off are those `p` turns off.
proof fn lemma_grid_agrees(a: spec_fn(int) -> bool, p: Seq<Seq<bool>>, rows: int, cols: int, init: Seq<Seq<bool>>)
    requires
        grid_shape(p, rows, cols),
        forall|r: int, c: int| 0 <= r < rows && 0 <= c < cols ==> #[trigger] a(button_var(cols, r, c)) == p[r][c],
    ensures
        lights_off(a, rows, cols, init) == grid_turns_off(p, rows, cols, init),
{
    assert forall|r: int, c: int| cell_in(init, rows, cols, r, c) implies xor_of(a, #[trigger] affecting_vars(rows, cols, r, c))
        == parity(affecting_presses(p, rows, cols, r, c)) by {
        let vs = affecting_vars(rows, cols, r, c);
        lemma_xor_parity(a, vs);
        if r > 0 {
            assert(a(button_var(cols, r - 1, c)) == p[r - 1][c]);
        }
        if c > 0 {
            assert(a(button_var(cols, r, c - 1)) == p[r][c - 1]);
        }
        assert(a(button_var(cols, r, c)) == p[r][c]);
        if c + 1 < cols {
            assert(a(button_var(cols, r, c + 1)) == p[r][c + 1]);
        }
        if r + 1 < rows {
            assert(a(button_var(cols, r + 1, c)) == p[r + 1][c]);
        }
        assert(vs.map_values(|v: int| a(v)) =~= affecting_presses(p, rows, cols, r, c));
    }
    if lights_off(a, rows, cols, init) {
        assert forall|r: int, c: int| cell_in(init, rows, cols, r, c) implies parity(
            #[trigger] affecting_presses(p, rows, cols, r, c),
        ) == init[r][c] by {
            assert(xor_of(a, affecting_vars(rows, cols, r, c)) == init[r][c]);
        }
    }
    if grid_turns_off(p, rows, cols, init) {
        assert forall|r: int, c: int| cell_in(init, rows, cols, r, c) implies xor_of(
            a,
            #[trigger] affecting_vars(rows, cols, r, c),
        ) == init[r][c] by {
            assert(parity(affecting_presses(p, rows, cols, r, c)) == init[r][c]);
        }
    }
}

/// The assignment that presses the buttons marked in a grid.
pub open spec fn grid_presses(p: Seq<Seq<bool>>, cols: int) -> spec_fn(int) -> bool {
    |v: int| cols > 0 && v >= 1 && p[(v - 1) / cols][(v - 1) % cols]
}

proof fn lemma_grid_presses(p: Seq<Seq<bool>>, cols: int, r: int, c: int)
    requires
        0 <= r,
        0 <= c < cols,
    ensures
        grid_presses(p, cols)(button_var(cols, r, c)) == p[r][c],
{
    vstd::arithmetic::div_mod::lemma_fundamental_div_mod_converse(r * cols + c, cols, r, c);
    assert(r * cols >= 0) by (nonlinear_arith)
        requires 0 <= r, 0 <= c < cols;
}

/// Finds buttons to press on the `rows` x `cols` board `initial` (`true` is a
/// light that is on) so that every light goes off.  `Ok(Some(p))` gives the
/// presses as a grid; `Ok(None)` means no set of presses works.
pub fn solve_lights_out(rows: usize, cols: usize, initial: &Vec<Vec<bool>>) -> (r: Result<Option<Vec<Vec<bool>>>, SolverError>)
    requires
        rows * cols < 0x1000_0000,
    ensures
        r matches Ok(Some(p)) ==> grid_shape(board_view(p@), rows as int, cols as int) && grid_turns_off(
            board_view(p@),
            rows as int,
            cols as int,
            board_view(initial@),
        ),
        r matches Ok(None) ==> forall|p: Seq<Seq<bool>>|
            grid_shape(p, rows as int, cols as int) ==> !#[trigger] grid_turns_off(
                p,
                rows as int,
                cols as int,
                board_view(initial@),
            ),
{
    let ghost init = board_view(initial@);
    let clauses = generate_lights_out_clauses(rows, cols, initial);
    if !solver_input_fits(&clauses) {
        return Err(SolverError::InternalError("Board too large for the solver".to_string()));
    }
    let ghost cs = clauses@;
    let ghost f = clauses_formula(cs);
    proof {
        lemma_drop_empty_id(f);
    }
    let mut solver = CDCLSolver::new(clauses);
    proof {
        assert(solver.formula() =~= f);
    }
    let res = solver.solve();
    match res {
        Err(e) => {
            return Err(e);
        },
        Ok(false) => {
            proof {
                assert forall|p: Seq<Seq<bool>>| grid_shape(p, rows as int, cols as int) implies !#[trigger] grid_turns_off(
                    p,
                    rows as int,
                    cols as int,
                    init,
                ) by {
                    if grid_turns_off(p, rows as int, cols as int, init) {
                        let a = grid_presses(p, cols as int);
                        assert forall|r2: int, c2: int| 0 <= r2 < rows && 0 <= c2 < cols implies #[trigger] a(
                            button_var(cols as int, r2, c2),
                        ) == p[r2][c2] by {
                            lemma_grid_presses(p, cols as int, r2, c2);
                        }
                        lemma_grid_agrees(a, p, rows as int, cols as int, init);
                        assert(lights_off(a, rows as int, cols as int, init));
                        let a2 = choose|a2: spec_fn(int) -> bool|
                            formula_sat(a2, f) && forall|v: int| 1 <= v <= rows * cols ==> #[trigger] a2(v) == a(v);
                        assert(formula_sat(a2, f));
                        assert(satisfiable(f));
                    }
                }
            }
            return Ok(None);
        },
        Ok(true) => {},
    }
    let ghost m = solver.model();
    let ghost nv = solver.nvars();
    let mut grid: Vec<Vec<bool>> = Vec::new();
    let mut r: usize = 0;
    while r < rows
        invariant
            rows * cols < 0x1000_0000,
            r <= rows,
            solver.inv(),
            m == solver.model(),
            nv == solver.nvars(),
            grid@.len() == r,
            forall|r2: int| 0 <= r2 < r ==> (#[trigger] grid@[r2])@.len() == cols,
            forall|r2: int, c2: int| 0 <= r2 < r && 0 <= c2 < cols ==> #[trigger] grid@[r2]@[c2] == (button_var(
                cols as int,
                r2,
                c2,
            ) <= nv && m(button_var(cols as int, r2, c2))),
        decreases rows - r,
    {
        let mut row: Vec<bool> = Vec::new();
        let mut c: usize = 0;
        while c < cols
            invariant
                rows * cols < 0x1000_0000,
                r < rows,
                c <= cols,
                solver.inv(),
                m == solver.model(),
                nv == solver.nvars(),
                row@.len() == c,
                forall|c2: int| 0 <= c2 < c ==> #[trigger] row@[c2] == (button_var(cols as int, r as int, c2) <= nv
                    && m(button_var(cols as int, r as int, c2))),
            decreases cols - c,
        {
            proof {
                lemma_button_range(rows as int, cols as int, r as int, c as int);
            }
            let v = (r * cols + c + 1) as i32;
            row.push(solver.get_value(v) == Some(true));
            c = c + 1;
        }
        grid.push(row);
        r = r + 1;
    }
    proof {
        let p = board_view(grid@);
        let a = |v: int| v <= nv && m(v);
        assert(formula_sat(m, f));
        assert(nv == crate::solver::clauses_max_var(cs));
        assert(clauses_wf(cs));
        lemma_sat_agree_below_max(cs, m, a);
        assert(formula_sat(a, f));
        assert(lights_off(a, rows as int, cols as int, init));
        assert forall|r2: int, c2: int| 0 <= r2 < rows && 0 <= c2 < cols implies #[trigger] a(button_var(cols as int, r2, c2))
            == p[r2][c2] by {
            assert(grid@[r2]@[c2] == p[r2][c2]);
        }
        lemma_grid_agrees(a, p, rows as int, cols as int, init);
    }
    Ok(Some(grid))
}

} // verus!
