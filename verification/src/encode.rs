//! Building blocks for encoding puzzles as CNF: "at least one of these
//! variables is true" and "no two of these variables are true", with their
//! meaning stated over assignments.
use vstd::prelude::*;
use crate::literal::{clause_ints, clause_sat, clauses_formula, formula_sat, lit_true, signed, Clause, Literal};

verus! {

/// Some variable of `vs` is true under `a`.
pub open spec fn some_true(a: spec_fn(int) -> bool, vs: Seq<int>) -> bool {
    exists|k: int| 0 <= k < vs.len() && #[trigger] a(vs[k])
}

/// No two variables of `vs` (at different positions) are true under `a`.
pub open spec fn no_two_true(a: spec_fn(int) -> bool, vs: Seq<int>) -> bool {
    forall|p: int, q: int| 0 <= p < q < vs.len() ==> !(#[trigger] a(vs[p]) && #[trigger] a(vs[q]))
}

/// Exactly one variable of `vs` is true under `a` (counting positions).
pub open spec fn exactly_one(a: spec_fn(int) -> bool, vs: Seq<int>) -> bool {
    some_true(a, vs) && no_two_true(a, vs)
}

/// Every literal of every clause has a variable in `1..=bound`.
pub open spec fn clauses_bounded(cs: Seq<Clause>, bound: int) -> bool {
    forall|i: int, k: int|
        0 <= i < cs.len() && 0 <= k < cs[i]@.len() ==> 1 <= (#[trigger] cs[i]@[k]).var <= bound
}

/// Machine variables widened to mathematical integers.
pub open spec fn var_ints(vs: Seq<i32>) -> Seq<int> {
    vs.map_values(|v: i32| v as int)
}

/// A formula extended by some clauses holds exactly when the formula and
/// the new clauses hold.
pub proof fn lemma_formula_sat_append(a: spec_fn(int) -> bool, f: Seq<Seq<int>>, g: Seq<Seq<int>>)
    ensures
        formula_sat(a, f + g) <==> formula_sat(a, f) && formula_sat(a, g),
{
    if formula_sat(a, f) && formula_sat(a, g) {
        assert forall|i: int| 0 <= i < (f + g).len() implies #[trigger] clause_sat(a, (f + g)[i]) by {
            if i < f.len() {
                assert((f + g)[i] == f[i]);
            } else {
                assert((f + g)[i] == g[i - f.len()]);
            }
        }
    }
    if formula_sat(a, f + g) {
        assert forall|i: int| 0 <= i < f.len() implies #[trigger] clause_sat(a, f[i]) by {
            assert((f + g)[i] == f[i]);
        }
        assert forall|i: int| 0 <= i < g.len() implies #[trigger] clause_sat(a, g[i]) by {
            assert((f + g)[i + f.len()] == g[i]);
        }
    }
}

/// A formula extended by one clause holds exactly when both hold.
pub proof fn lemma_formula_sat_push(a: spec_fn(int) -> bool, f: Seq<Seq<int>>, c: Seq<int>)
    ensures
        formula_sat(a, f.push(c)) <==> formula_sat(a, f) && clause_sat(a, c),
{
    if formula_sat(a, f.push(c)) {
        assert forall|i: int| 0 <= i < f.len() implies #[trigger] clause_sat(a, f[i]) by {
            assert(f.push(c)[i] == f[i]);
        }
        assert(f.push(c)[f.len() as int] == c);
    }
    if formula_sat(a, f) && clause_sat(a, c) {
        assert forall|i: int| 0 <= i < f.push(c).len() implies #[trigger] clause_sat(a, f.push(c)[i]) by {
            if i < f.len() {
                assert(f.push(c)[i] == f[i]);
            }
        }
    }
}

/// Appends the clause "some variable of `vars` is true".
pub(crate) fn push_at_least_one(clauses: &mut Vec<Clause>, vars: &Vec<i32>, Ghost(bound): Ghost<int>)
    requires
        forall|k: int| 0 <= k < vars@.len() ==> 1 <= #[trigger] vars@[k] <= bound,
    ensures
        final(clauses)@.len() == old(clauses)@.len() + 1,
        final(clauses)@.subrange(0, old(clauses)@.len() as int) == old(clauses)@,
        clauses_bounded(old(clauses)@, bound) ==> clauses_bounded(final(clauses)@, bound),
        forall|a: spec_fn(int) -> bool|
            #[trigger] formula_sat(a, clauses_formula(final(clauses)@)) <==> formula_sat(
                a,
                clauses_formula(old(clauses)@),
            ) && some_true(a, var_ints(vars@)),
{
    let mut lits: Vec<Literal> = Vec::new();
    let mut k: usize = 0;
    while k < vars.len()
        invariant
            k <= vars@.len(),
            lits@.len() == k,
            forall|j: int| 0 <= j < k ==> (#[trigger] lits@[j]).var == vars@[j] && !lits@[j].negated,
        decreases vars@.len() - k,
    {
        lits.push(Literal::positive(vars[k]));
        k = k + 1;
    }
    let c = Clause::new(lits);
    let ghost old_cs = clauses@;
    clauses.push(c);
    proof {
        let vs = var_ints(vars@);
        assert(clauses_formula(clauses@) =~= clauses_formula(old_cs).push(clause_ints(c)));
        assert forall|a: spec_fn(int) -> bool| #[trigger]
            formula_sat(a, clauses_formula(clauses@)) <==> formula_sat(a, clauses_formula(old_cs))
                && some_true(a, vs) by {
            lemma_formula_sat_push(a, clauses_formula(old_cs), clause_ints(c));
            let ci = clause_ints(c);
            if clause_sat(a, ci) {
                let k = choose|k: int| 0 <= k < ci.len() && #[trigger] lit_true(a, ci[k]);
                assert(ci[k] == vs[k]);
                assert(a(vs[k]));
            }
            if some_true(a, vs) {
                let k = choose|k: int| 0 <= k < vs.len() && #[trigger] a(vs[k]);
                assert(ci[k] == vs[k]);
                assert(lit_true(a, ci[k]));
            }
        }
        assert(clauses@.subrange(0, old_cs.len() as int) =~= old_cs);
        if clauses_bounded(old_cs, bound) {
            assert forall|i: int, k: int|
                0 <= i < clauses@.len() && 0 <= k < clauses@[i]@.len() implies 1 <= (
                #[trigger] clauses@[i]@[k]).var <= bound by {
                if i < old_cs.len() {
                    assert(clauses@[i] == old_cs[i]);
                }
            }
        }
    }
}

/// No two of the pairs `(p, q)` with `p < q` considered so far, in the
/// order the pairs are visited (by `p`, then by `q`), are both true.
pub open spec fn pairs_ok(a: spec_fn(int) -> bool, vs: Seq<int>, i: int, j: int) -> bool {
    forall|p: int, q: int|
        0 <= p < q < vs.len() && (p < i || (p == i && q < j)) ==> !(#[trigger] a(vs[p]) && #[trigger] a(
            vs[q],
        ))
}

/// The number of pairs `(p, q)`, `p < q < n`, whose first element is below
/// `i`.
pub open spec fn pairs_before(n: int, i: int) -> int
    decreases i,
{
    if i <= 0 {
        0
    } else {
        pairs_before(n, i - 1) + (n - i)
    }
}

/// Appends `(¬x ∨ ¬y)` for every pair `x` before `y` of `vars`, pairs
/// ordered by the first variable, then by the second.
pub(crate) fn push_at_most_one(clauses: &mut Vec<Clause>, vars: &Vec<i32>, Ghost(bound): Ghost<int>)
    requires
        forall|k: int| 0 <= k < vars@.len() ==> 1 <= #[trigger] vars@[k] <= bound,
    ensures
        final(clauses)@.len() >= old(clauses)@.len(),
        final(clauses)@.len() == old(clauses)@.len() + pairs_before(vars@.len() as int, vars@.len() as int),
        final(clauses)@.subrange(0, old(clauses)@.len() as int) == old(clauses)@,
        clauses_bounded(old(clauses)@, bound) ==> clauses_bounded(final(clauses)@, bound),
        forall|a: spec_fn(int) -> bool|
            #[trigger] formula_sat(a, clauses_formula(final(clauses)@)) <==> formula_sat(
                a,
                clauses_formula(old(clauses)@),
            ) && no_two_true(a, var_ints(vars@)),
{
    let ghost old_cs = clauses@;
    let ghost vs = var_ints(vars@);
    let n = vars.len();
    let mut i: usize = 0;
    while i < n
        invariant
            n == vars@.len(),
            vs == var_ints(vars@),
            i <= n,
            forall|k: int| 0 <= k < vars@.len() ==> 1 <= #[trigger] vars@[k] <= bound,
            clauses@.len() >= old_cs.len(),
            clauses@.len() == old_cs.len() + pairs_before(n as int, i as int),
            clauses@.subrange(0, old_cs.len() as int) == old_cs,
            clauses_bounded(old_cs, bound) ==> clauses_bounded(clauses@, bound),
            forall|a: spec_fn(int) -> bool|
                #[trigger] formula_sat(a, clauses_formula(clauses@)) <==> formula_sat(a, clauses_formula(old_cs))
                    && pairs_ok(a, vs, i as int, 0),
        decreases n - i,
    {
        let mut j: usize = i + 1;
        proof {
            assert forall|a: spec_fn(int) -> bool| pairs_ok(a, vs, i as int, 0) == pairs_ok(a, vs, i as int, (i + 1) as int) by {}
        }
        while j < n
            invariant
                n == vars@.len(),
                vs == var_ints(vars@),
                i < n,
                i + 1 <= j <= n,
                forall|k: int| 0 <= k < vars@.len() ==> 1 <= #[trigger] vars@[k] <= bound,
                clauses@.len() >= old_cs.len(),
                clauses@.len() == old_cs.len() + pairs_before(n as int, i as int) + (j - i - 1),
                clauses@.subrange(0, old_cs.len() as int) == old_cs,
                clauses_bounded(old_cs, bound) ==> clauses_bounded(clauses@, bound),
                forall|a: spec_fn(int) -> bool|
                    #[trigger] formula_sat(a, clauses_formula(clauses@)) <==> formula_sat(a, clauses_formula(old_cs))
                        && pairs_ok(a, vs, i as int, j as int),
            decreases n - j,
        {
            let c = Clause::new(vec![Literal::negative(vars[i]), Literal::negative(vars[j])]);
            let ghost cs0 = clauses@;
            clauses.push(c);
            proof {
                assert(clauses_formula(clauses@) =~= clauses_formula(cs0).push(clause_ints(c)));
                let ci = clause_ints(c);
                assert(ci =~= seq![-vs[i as int], -vs[j as int]]);
                assert forall|a: spec_fn(int) -> bool| #[trigger]
                    formula_sat(a, clauses_formula(clauses@)) <==> formula_sat(a, clauses_formula(old_cs))
                        && pairs_ok(a, vs, i as int, j + 1) by {
                    lemma_formula_sat_push(a, clauses_formula(cs0), ci);
                    assert(clause_sat(a, ci) <==> !(a(vs[i as int]) && a(vs[j as int]))) by {
                        if clause_sat(a, ci) {
                            let k = choose|k: int| 0 <= k < ci.len() && #[trigger] lit_true(a, ci[k]);
                        }
                        if !a(vs[i as int]) {
                            assert(lit_true(a, ci[0]));
                        } else if !a(vs[j as int]) {
                            assert(lit_true(a, ci[1]));
                        }
                    }
                }
                assert(clauses@.subrange(0, old_cs.len() as int) =~= old_cs) by {
                    assert(cs0.subrange(0, old_cs.len() as int) == old_cs);
                }
                if clauses_bounded(old_cs, bound) {
                    assert forall|p: int, k: int|
                        0 <= p < clauses@.len() && 0 <= k < clauses@[p]@.len() implies 1 <= (
                        #[trigger] clauses@[p]@[k]).var <= bound by {
                        if p < cs0.len() {
                            assert(clauses@[p] == cs0[p]);
                        }
                    }
                }
            }
            j = j + 1;
        }
        proof {
            assert forall|a: spec_fn(int) -> bool| pairs_ok(a, vs, i as int, n as int) == pairs_ok(a, vs, i + 1, 0) by {}
            assert(pairs_before(n as int, i + 1) == pairs_before(n as int, i as int) + (n - i - 1));
        }
        i = i + 1;
    }
    proof {
        assert forall|a: spec_fn(int) -> bool| pairs_ok(a, vs, n as int, 0) == no_two_true(a, vs) by {}
    }
}

/// Appends the clause `¬x ∨ ¬y`.
pub(crate) fn push_not_both(clauses: &mut Vec<Clause>, x: i32, y: i32)
    requires
        x > 0,
        y > 0,
    ensures
        final(clauses)@.len() == old(clauses)@.len() + 1,
        final(clauses)@.subrange(0, old(clauses)@.len() as int) == old(clauses)@,
        forall|a: spec_fn(int) -> bool|
            #[trigger] formula_sat(a, clauses_formula(final(clauses)@)) <==> formula_sat(
                a,
                clauses_formula(old(clauses)@),
            ) && !(a(x as int) && a(y as int)),
{
    let c = Clause::new(vec![Literal::negative(x), Literal::negative(y)]);
    let ghost cs0 = clauses@;
    clauses.push(c);
    proof {
        assert(clauses_formula(clauses@) =~= clauses_formula(cs0).push(clause_ints(c)));
        let ci = clause_ints(c);
        assert(ci =~= seq![-(x as int), -(y as int)]);
        assert(clauses@.subrange(0, cs0.len() as int) =~= cs0);
        assert forall|a: spec_fn(int) -> bool| #[trigger]
            formula_sat(a, clauses_formula(clauses@)) <==> formula_sat(a, clauses_formula(cs0))
                && !(a(x as int) && a(y as int)) by {
            lemma_formula_sat_push(a, clauses_formula(cs0), ci);
            if clause_sat(a, ci) {
                let k = choose|k: int| 0 <= k < ci.len() && #[trigger] lit_true(a, ci[k]);
            }
            if !a(x as int) {
                assert(lit_true(a, ci[0]));
            } else if !a(y as int) {
                assert(lit_true(a, ci[1]));
            }
        }
    }
}

/// Appends the clause `¬x ∨ y`.
pub(crate) fn push_implies(clauses: &mut Vec<Clause>, x: i32, y: i32)
    requires
        x > 0,
        y > 0,
    ensures
        forall|a: spec_fn(int) -> bool|
            #[trigger] formula_sat(a, clauses_formula(final(clauses)@)) <==> formula_sat(
                a,
                clauses_formula(old(clauses)@),
            ) && (a(x as int) ==> a(y as int)),
{
    let c = Clause::new(vec![Literal::negative(x), Literal::positive(y)]);
    let ghost cs0 = clauses@;
    clauses.push(c);
    proof {
        assert(clauses_formula(clauses@) =~= clauses_formula(cs0).push(clause_ints(c)));
        let ci = clause_ints(c);
        assert(ci =~= seq![-(x as int), y as int]);
        assert forall|a: spec_fn(int) -> bool| #[trigger]
            formula_sat(a, clauses_formula(clauses@)) <==> formula_sat(a, clauses_formula(cs0))
                && (a(x as int) ==> a(y as int)) by {
            lemma_formula_sat_push(a, clauses_formula(cs0), ci);
            if clause_sat(a, ci) {
                let k = choose|k: int| 0 <= k < ci.len() && #[trigger] lit_true(a, ci[k]);
            }
            if !a(x as int) {
                assert(lit_true(a, ci[0]));
            } else if a(y as int) {
                assert(lit_true(a, ci[1]));
            }
        }
    }
}

} // verus!
