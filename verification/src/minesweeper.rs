//! Minesweeper deduction: given revealed numbers and mines, decide which
//! unknown cells must hold a mine and which must be safe.  Variable
//! `r * cols + c + 1` says that cell (`r`, `c`) holds a mine.
use vstd::prelude::*;
use crate::encode::{lemma_formula_sat_append, lemma_formula_sat_push, var_ints};
use crate::literal::{clause_ints, clause_sat, clauses_formula, formula_sat, lit_true, satisfiable, signed, Clause, Literal};
use crate::search::satisfiable_by_search;
use crate::solver::{lemma_drop_empty_id, solver_input_fits, CDCLSolver};

verus! {

/// A cell of the board as revealed so far.
#[derive(Clone, Copy, Debug, PartialEq, Eq, Structural)]
pub enum Cell {
    /// Not revealed.
    Unknown,
    /// Revealed with this many neighbouring mines.
    Number(u8),
    /// A revealed mine.
    Mine,
}

/// The number of variables of `vs` true under `a`.
pub open spec fn count_true(a: spec_fn(int) -> bool, vs: Seq<int>) -> nat
    decreases vs.len(),
{
    if vs.len() == 0 {
        0
    } else {
        count_true(a, vs.drop_last()) + if a(vs.last()) { 1nat } else { 0nat }
    }
}

/// The number of variables of `vs` false under `a`.
pub open spec fn count_false(a: spec_fn(int) -> bool, vs: Seq<int>) -> nat
    decreases vs.len(),
{
    if vs.len() == 0 {
        0
    } else {
        count_false(a, vs.drop_last()) + if a(vs.last()) { 0nat } else { 1nat }
    }
}

/// `c` lists `k` positions of `0..n` in increasing order.
pub open spec fn combination_ok(c: Seq<usize>, n: int, k: int) -> bool {
    &&& c.len() == k
    &&& forall|j: int| 0 <= j < c.len() ==> #[trigger] c[j] < n
    &&& forall|i: int, j: int| 0 <= i < j < c.len() ==> #[trigger] c[i] < #[trigger] c[j]
}

/// An increasing sequence of positions below `n` has at most `n` entries.
proof fn lemma_combination_len(c: Seq<usize>, n: int)
    requires
        0 <= n,
        forall|j: int| 0 <= j < c.len() ==> #[trigger] c[j] < n,
        forall|i: int, j: int| 0 <= i < j < c.len() ==> #[trigger] c[i] < #[trigger] c[j],
    ensures
        c.len() <= n,
    decreases c.len(),
{
    if c.len() > 0 {
        let d = c.drop_last();
        assert forall|j: int| 0 <= j < d.len() implies #[trigger] d[j] < c.last() by {
            assert(c[j] < c[c.len() - 1]);
        }
        assert forall|i: int, j: int| 0 <= i < j < d.len() implies #[trigger] d[i] < #[trigger] d[j] by {
            assert(c[i] < c[j]);
        }
        lemma_combination_len(d, c.last() as int);
        assert(d.len() == c.len() - 1);
        assert(d.len() <= c.last() as int);
        assert(c.last() == c[c.len() - 1]);
        assert(c[c.len() - 1] < n);
    }
}

/// Some position of `c` holds a variable of `vs` with value `val`.
pub open spec fn some_val(a: spec_fn(int) -> bool, vs: Seq<int>, c: Seq<usize>, val: bool) -> bool {
    exists|x: int| 0 <= x < c.len() && #[trigger] a(vs[c[x] as int]) == val
}

/// At least `m` variables with value `val` give `m` increasing positions
/// that all hold such a variable.
proof fn lemma_combination_exists(a: spec_fn(int) -> bool, vs: Seq<int>, m: int, val: bool)
    requires
        0 <= m <= (if val { count_true(a, vs) } else { count_false(a, vs) }),
        vs.len() <= usize::MAX,
    ensures
        exists|c: Seq<usize>| #[trigger] combination_ok(c, vs.len() as int, m) && !some_val(a, vs, c, !val),
    decreases vs.len(),
{
    if vs.len() == 0 {
        let c = Seq::<usize>::empty();
        assert(combination_ok(c, 0, m));
    } else {
        let t = vs.drop_last();
        let last = vs.len() - 1;
        if m > 0 && a(vs.last()) == val {
            lemma_combination_exists(a, t, m - 1, val);
            let d = choose|d: Seq<usize>| #[trigger] combination_ok(d, t.len() as int, m - 1) && !some_val(a, t, d, !val);
            let c = d.push(last as usize);
            assert forall|x: int| 0 <= x < c.len() implies #[trigger] a(vs[c[x] as int]) == val by {
                if x < d.len() {
                    assert(c[x] == d[x]);
                    assert(vs[d[x] as int] == t[d[x] as int]);
                    if a(t[d[x] as int]) != val {
                        assert(some_val(a, t, d, !val));
                    }
                }
            }
            assert(combination_ok(c, vs.len() as int, m));
            assert(!some_val(a, vs, c, !val));
        } else {
            lemma_combination_exists(a, t, m, val);
            let d = choose|d: Seq<usize>| #[trigger] combination_ok(d, t.len() as int, m) && !some_val(a, t, d, !val);
            assert forall|x: int| 0 <= x < d.len() implies #[trigger] a(vs[d[x] as int]) == val by {
                assert(vs[d[x] as int] == t[d[x] as int]);
                if a(t[d[x] as int]) != val {
                    assert(some_val(a, t, d, !val));
                }
            }
            assert(combination_ok(d, vs.len() as int, m));
            assert(!some_val(a, vs, d, !val));
        }
    }
}

proof fn lemma_counts(a: spec_fn(int) -> bool, vs: Seq<int>)
    ensures
        count_true(a, vs) + count_false(a, vs) == vs.len(),
    decreases vs.len(),
{
    if vs.len() > 0 {
        lemma_counts(a, vs.drop_last());
    }
}

/// Increasing positions whose variables all have the value `val` are at
/// most as many as the variables with that value.
proof fn lemma_combination_bound(a: spec_fn(int) -> bool, vs: Seq<int>, c: Seq<usize>, val: bool)
    requires
        forall|j: int| 0 <= j < c.len() ==> #[trigger] c[j] < vs.len(),
        forall|i: int, j: int| 0 <= i < j < c.len() ==> #[trigger] c[i] < #[trigger] c[j],
        forall|j: int| 0 <= j < c.len() ==> a(vs[#[trigger] c[j] as int]) == val,
    ensures
        c.len() <= if val { count_true(a, vs) } else { count_false(a, vs) },
    decreases vs.len(),
{
    if vs.len() > 0 {
        let t = vs.drop_last();
        let last = vs.len() - 1;
        if c.len() > 0 && c.last() == last {
            let d = c.drop_last();
            assert forall|j: int| 0 <= j < d.len() implies #[trigger] d[j] < t.len() by {
                assert(c[j] < c[c.len() - 1]);
            }
            assert forall|j: int| 0 <= j < d.len() implies a(t[#[trigger] d[j] as int]) == val by {
                assert(c[j] < c[c.len() - 1]);
                assert(t[d[j] as int] == vs[c[j] as int]);
            }
            lemma_combination_bound(a, t, d, val);
            assert(a(vs[c[c.len() - 1] as int]) == val);
        } else {
            assert forall|j: int| 0 <= j < c.len() implies #[trigger] c[j] < t.len() by {
                if c[j] == last {
                    if j < c.len() - 1 {
                        assert(c[j] < c[c.len() - 1]);
                    }
                }
            }
            assert forall|j: int| 0 <= j < c.len() implies a(t[#[trigger] c[j] as int]) == val by {
                assert(c[j] < t.len());
                assert(t[c[j] as int] == vs[c[j] as int]);
            }
            lemma_combination_bound(a, t, c, val);
        }
    } else {
        if c.len() > 0 {
            assert(c[0] < vs.len());
        }
    }
}

/// `c` is one of `cs[lo..]`.
pub open spec fn combo_listed(cs: Seq<Vec<usize>>, lo: int, c: Seq<usize>) -> bool {
    exists|j: int| lo <= j < cs.len() && #[trigger] cs[j]@ == c
}

/// `c` is a `k`-combination of `0..n` that starts with `cur` and continues
/// with positions from `start` on.
pub open spec fn completes(c: Seq<usize>, cur: Seq<usize>, start: int, n: int, k: int) -> bool {
    &&& combination_ok(c, n, k)
    &&& cur.len() <= k
    &&& c.subrange(0, cur.len() as int) == cur
    &&& forall|j: int| cur.len() <= j < k ==> start <= #[trigger] c[j]
}

/// Appends to `result` every increasing completion of `current` by
/// positions from `start` on, up to length `k` (all `k`-combinations of
/// `0..n` extending `current`, in lexicographic order).
fn generate_combinations(n: usize, k: usize, start: usize, current: &mut Vec<usize>, result: &mut Vec<Vec<usize>>)
    requires
        old(current)@.len() <= k,
        start <= n,
        forall|j: int| 0 <= j < old(current)@.len() ==> #[trigger] old(current)@[j] < start,
        forall|i: int, j: int| 0 <= i < j < old(current)@.len() ==> #[trigger] old(current)@[i] < #[trigger] old(current)@[j],
        forall|i: int| 0 <= i < old(result)@.len() ==> combination_ok(#[trigger] old(result)@[i]@, n as int, k as int),
    ensures
        final(current)@ == old(current)@,
        forall|i: int| 0 <= i < final(result)@.len() ==> combination_ok(#[trigger] final(result)@[i]@, n as int, k as int),
        final(result)@.len() >= old(result)@.len(),
        forall|i: int| 0 <= i < old(result)@.len() ==> #[trigger] final(result)@[i] == old(result)@[i],
        forall|c: Seq<usize>|
            #[trigger] completes(c, old(current)@, start as int, n as int, k as int) ==> combo_listed(
                final(result)@,
                old(result)@.len() as int,
                c,
            ),
    decreases k - old(current)@.len(), n - start,
{
    if current.len() == k {
        let mut copy: Vec<usize> = Vec::new();
        let mut j: usize = 0;
        while j < current.len()
            invariant
                j <= current@.len(),
                copy@ == current@.subrange(0, j as int),
            decreases current@.len() - j,
        {
            copy.push(current[j]);
            j = j + 1;
        }
        proof {
            assert(current@.subrange(0, current@.len() as int) =~= current@);
        }
        result.push(copy);
        proof {
            assert forall|c: Seq<usize>|
                #[trigger] completes(c, old(current)@, start as int, n as int, k as int) implies combo_listed(
                result@,
                old(result)@.len() as int,
                c,
            ) by {
                assert(c =~= c.subrange(0, k as int));
                assert(result@[result@.len() - 1]@ == c);
            }
        }
        return;
    }
    let mut i: usize = start;
    let ghost c0 = current@;
    while i < n
        invariant
            start <= i <= n,
            c0 == old(current)@,
            current@ == c0,
            c0.len() < k,
            forall|j: int| 0 <= j < c0.len() ==> #[trigger] c0[j] < start,
            forall|x: int, y: int| 0 <= x < y < c0.len() ==> #[trigger] c0[x] < #[trigger] c0[y],
            forall|m: int| 0 <= m < result@.len() ==> combination_ok(#[trigger] result@[m]@, n as int, k as int),
            result@.len() >= old(result)@.len(),
            forall|m: int| 0 <= m < old(result)@.len() ==> #[trigger] result@[m] == old(result)@[m],
            forall|c: Seq<usize>|
                #[trigger] completes(c, c0, start as int, n as int, k as int) && c[c0.len() as int] < i ==> combo_listed(
                    result@,
                    old(result)@.len() as int,
                    c,
                ),
        decreases n - i,
    {
        let ghost pre = result@;
        current.push(i);
        proof {
            assert forall|x: int, y: int| 0 <= x < y < current@.len() implies #[trigger] current@[x] < #[trigger] current@[y] by {
                if y == c0.len() {
                    assert(current@[x] == c0[x]);
                }
            }
        }
        let ghost cur1 = current@;
        generate_combinations(n, k, i + 1, current, result);
        current.pop();
        proof {
            assert(current@ =~= c0);
            assert forall|m: int| 0 <= m < old(result)@.len() implies #[trigger] result@[m] == old(result)@[m] by {
                assert(result@[m] == pre[m]);
            }
            assert forall|c: Seq<usize>|
                #[trigger] completes(c, c0, start as int, n as int, k as int) && c[c0.len() as int] < i + 1 implies combo_listed(
                result@,
                old(result)@.len() as int,
                c,
            ) by {
                if c[c0.len() as int] < i {
                    let j = choose|j: int| old(result)@.len() <= j < pre.len() && #[trigger] pre[j]@ == c;
                    assert(result@[j] == pre[j]);
                } else {
                    assert(cur1 == c0.push(i));
                    assert(c.subrange(0, cur1.len() as int) =~= cur1) by {
                        assert forall|x: int| 0 <= x < cur1.len() implies c.subrange(0, cur1.len() as int)[x] == cur1[x] by {
                            if x < c0.len() {
                                assert(c.subrange(0, c0.len() as int)[x] == c0[x]);
                            }
                        }
                    }
                    assert forall|x: int| cur1.len() <= x < k implies i + 1 <= #[trigger] c[x] by {
                        assert(c[c0.len() as int] < c[x]);
                    }
                    assert(completes(c, cur1, (i + 1) as int, n as int, k as int));
                }
            }
        }
        i = i + 1;
    }
    proof {
        assert forall|c: Seq<usize>| #[trigger] completes(c, c0, start as int, n as int, k as int) implies combo_listed(
            result@,
            old(result)@.len() as int,
            c,
        ) by {
            assert(c[c0.len() as int] < n);
        }
    }
}

/// All `k`-combinations of `0..n`, in lexicographic order.
pub fn combinations(n: usize, k: usize) -> (r: Vec<Vec<usize>>)
    ensures
        forall|i: int| 0 <= i < r@.len() ==> combination_ok(#[trigger] r@[i]@, n as int, k as int),
        forall|c: Seq<usize>| #[trigger] combination_ok(c, n as int, k as int) ==> combo_listed(r@, 0, c),
{
    let mut result: Vec<Vec<usize>> = Vec::new();
    let mut combo: Vec<usize> = Vec::new();
    if k > n {
        proof {
            assert forall|c: Seq<usize>| #[trigger] combination_ok(c, n as int, k as int) implies combo_listed(result@, 0, c) by {
                lemma_combination_len(c, n as int);
            }
        }
        return result;
    }
    generate_combinations(n, k, 0, &mut combo, &mut result);
    proof {
        assert forall|c: Seq<usize>| #[trigger] combination_ok(c, n as int, k as int) implies combo_listed(result@, 0, c) by {
            assert(c.subrange(0, 0) =~= combo@);
            assert(completes(c, combo@, 0, n as int, k as int));
        }
    }
    result
}

/// Every assignment with exactly `k` of `vars` true satisfies the clauses:
/// one "some variable true" clause per `(n - k + 1)`-combination, one "some
/// variable false" clause per `(k + 1)`-combination (the empty clause when
/// `k` exceeds the number of variables).
pub fn encode_exactly_k(vars: &[i32], k: usize) -> (r: Vec<Clause>)
    requires
        forall|i: int| 0 <= i < vars@.len() ==> #[trigger] vars@[i] >= 1,
    ensures
        forall|a: spec_fn(int) -> bool| #[trigger] count_true(a, var_ints(vars@)) == k ==> formula_sat(
            a,
            clauses_formula(r@),
        ),
        k > vars@.len() ==> forall|a: spec_fn(int) -> bool| !#[trigger] formula_sat(a, clauses_formula(r@)),
        forall|a: spec_fn(int) -> bool| #[trigger] formula_sat(a, clauses_formula(r@)) ==> count_true(a, var_ints(vars@)) == k,
{
    let ghost vs = var_ints(vars@);
    let n = vars.len();
    let mut clauses: Vec<Clause> = Vec::new();
    if k > n {
        clauses.push(Clause::new(Vec::new()));
        proof {
            assert forall|a: spec_fn(int) -> bool| !#[trigger] formula_sat(a, clauses_formula(clauses@)) by {
                let f = clauses_formula(clauses@);
                assert(f[0].len() == 0);
                if formula_sat(a, f) {
                    assert(clause_sat(a, f[0]));
                }
            }
            assert forall|a: spec_fn(int) -> bool| #[trigger] count_true(a, vs) == k implies formula_sat(
                a,
                clauses_formula(clauses@),
            ) by {
                lemma_counts(a, vs);
            }
        }
        return clauses;
    }
    if k > 0 {
        let combos = combinations(n, n - k + 1);
        let mut i: usize = 0;
        while i < combos.len()
            invariant
                vs == var_ints(vars@),
                n == vars@.len(),
                0 < k <= n,
                forall|m: int| 0 <= m < combos@.len() ==> combination_ok(#[trigger] combos@[m]@, n as int, n - k + 1),
                forall|m: int| 0 <= m < vars@.len() ==> #[trigger] vars@[m] >= 1,
                i <= combos@.len(),
                forall|a: spec_fn(int) -> bool| #[trigger] count_true(a, vs) == k ==> formula_sat(a, clauses_formula(clauses@)),
                forall|a: spec_fn(int) -> bool| #[trigger] formula_sat(a, clauses_formula(clauses@)) ==> forall|m: int|
                    0 <= m < i ==> #[trigger] some_val(a, vs, combos@[m]@, true),
            decreases combos@.len() - i,
        {
            let combo = &combos[i];
            proof {
                assert(combination_ok(combo@, n as int, n - k + 1));
            }
            let mut lits: Vec<Literal> = Vec::new();
            let mut j: usize = 0;
            while j < combo.len()
                invariant
                    j <= combo@.len(),
                    combination_ok(combo@, n as int, n - k + 1),
                    n == vars@.len(),
                    lits@.len() == j,
                    forall|x: int| 0 <= x < j ==> (#[trigger] lits@[x]).var == vars@[combo@[x] as int] && !lits@[x].negated,
                decreases combo@.len() - j,
            {
                proof {
                    assert(combo@[j as int] < n);
                }
                lits.push(Literal::positive(vars[combo[j]]));
                j = j + 1;
            }
            let ghost cs0 = clauses@;
            let c = Clause::new(lits);
            clauses.push(c);
            proof {
                assert(clauses_formula(clauses@) =~= clauses_formula(cs0).push(clause_ints(c)));
                assert forall|a: spec_fn(int) -> bool| #[trigger] count_true(a, vs) == k implies formula_sat(
                    a,
                    clauses_formula(clauses@),
                ) by {
                    lemma_formula_sat_push(a, clauses_formula(cs0), clause_ints(c));
                    let ci = clause_ints(c);
                    if !clause_sat(a, ci) {
                        assert forall|x: int| 0 <= x < combo@.len() implies a(vs[#[trigger] combo@[x] as int]) == false by {
                            assert(!lit_true(a, ci[x]));
                            assert(ci[x] == signed(lits@[x]));
                        }
                        lemma_combination_bound(a, vs, combo@, false);
                        lemma_counts(a, vs);
                    }
                }
                assert forall|a: spec_fn(int) -> bool| #[trigger] formula_sat(a, clauses_formula(clauses@)) implies forall|m: int|
                    0 <= m < i + 1 ==> #[trigger] some_val(a, vs, combos@[m]@, true) by {
                    lemma_formula_sat_push(a, clauses_formula(cs0), clause_ints(c));
                    let ci = clause_ints(c);
                    assert(clause_sat(a, ci));
                    let x = choose|x: int| 0 <= x < ci.len() && #[trigger] lit_true(a, ci[x]);
                    assert(ci[x] == signed(lits@[x]));
                    assert(vars@[combo@[x] as int] >= 1);
                    assert(a(vs[combo@[x] as int]) == true);
                    assert(some_val(a, vs, combos@[i as int]@, true));
                }
            }
            i = i + 1;
        }
        proof {
            assert forall|a: spec_fn(int) -> bool| #[trigger] formula_sat(a, clauses_formula(clauses@)) implies count_true(a, vs)
                >= k by {
                lemma_counts(a, vs);
                if count_false(a, vs) >= n - k + 1 {
                    lemma_combination_exists(a, vs, n - k + 1, false);
                    let cb = choose|cb: Seq<usize>| #[trigger] combination_ok(cb, vs.len() as int, n - k + 1) && !some_val(a, vs, cb, true);
                    assert(combo_listed(combos@, 0, cb));
                    let m = choose|m: int| 0 <= m < combos@.len() && #[trigger] combos@[m]@ == cb;
                    assert(some_val(a, vs, combos@[m]@, true));
                }
            }
        }
    }
    if k < n {
        let combos = combinations(n, k + 1);
        let mut i: usize = 0;
        while i < combos.len()
            invariant
                vs == var_ints(vars@),
                n == vars@.len(),
                k < n,
                forall|m: int| 0 <= m < combos@.len() ==> combination_ok(#[trigger] combos@[m]@, n as int, k + 1),
                forall|m: int| 0 <= m < vars@.len() ==> #[trigger] vars@[m] >= 1,
                i <= combos@.len(),
                forall|a: spec_fn(int) -> bool| #[trigger] count_true(a, vs) == k ==> formula_sat(a, clauses_formula(clauses@)),
                forall|a: spec_fn(int) -> bool| #[trigger] formula_sat(a, clauses_formula(clauses@)) ==> count_true(a, vs) >= k,
                forall|a: spec_fn(int) -> bool| #[trigger] formula_sat(a, clauses_formula(clauses@)) ==> forall|m: int|
                    0 <= m < i ==> #[trigger] some_val(a, vs, combos@[m]@, false),
            decreases combos@.len() - i,
        {
            let combo = &combos[i];
            proof {
                assert(combination_ok(combo@, n as int, k + 1));
            }
            let mut lits: Vec<Literal> = Vec::new();
            let mut j: usize = 0;
            while j < combo.len()
                invariant
                    j <= combo@.len(),
                    combination_ok(combo@, n as int, k + 1),
                    n == vars@.len(),
                    lits@.len() == j,
                    forall|x: int| 0 <= x < j ==> (#[trigger] lits@[x]).var == vars@[combo@[x] as int] && lits@[x].negated,
                decreases combo@.len() - j,
            {
                proof {
                    assert(combo@[j as int] < n);
                }
                lits.push(Literal::negative(vars[combo[j]]));
                j = j + 1;
            }
            let ghost cs0 = clauses@;
            let c = Clause::new(lits);
            clauses.push(c);
            proof {
                assert(clauses_formula(clauses@) =~= clauses_formula(cs0).push(clause_ints(c)));
                assert forall|a: spec_fn(int) -> bool| #[trigger] count_true(a, vs) == k implies formula_sat(
                    a,
                    clauses_formula(clauses@),
                ) by {
                    lemma_formula_sat_push(a, clauses_formula(cs0), clause_ints(c));
                    let ci = clause_ints(c);
                    if !clause_sat(a, ci) {
                        assert forall|x: int| 0 <= x < combo@.len() implies a(vs[#[trigger] combo@[x] as int]) == true by {
                            assert(!lit_true(a, ci[x]));
                            assert(ci[x] == signed(lits@[x]));
                            assert(vars@[combo@[x] as int] >= 1);
                        }
                        lemma_combination_bound(a, vs, combo@, true);
                    }
                }
                assert forall|a: spec_fn(int) -> bool| #[trigger] formula_sat(a, clauses_formula(clauses@)) implies count_true(a, vs)
                    >= k && forall|m: int| 0 <= m < i + 1 ==> #[trigger] some_val(a, vs, combos@[m]@, false) by {
                    lemma_formula_sat_push(a, clauses_formula(cs0), clause_ints(c));
                    let ci = clause_ints(c);
                    assert(clause_sat(a, ci));
                    let x = choose|x: int| 0 <= x < ci.len() && #[trigger] lit_true(a, ci[x]);
                    assert(ci[x] == signed(lits@[x]));
                    assert(vars@[combo@[x] as int] >= 1);
                    assert(a(vs[combo@[x] as int]) == false);
                    assert(some_val(a, vs, combos@[i as int]@, false));
                }
            }
            i = i + 1;
        }
        proof {
            assert forall|a: spec_fn(int) -> bool| #[trigger] formula_sat(a, clauses_formula(clauses@)) implies count_true(a, vs)
                <= k by {
                if count_true(a, vs) >= k + 1 {
                    lemma_combination_exists(a, vs, k + 1, true);
                    let cb = choose|cb: Seq<usize>| #[trigger] combination_ok(cb, vs.len() as int, k + 1) && !some_val(a, vs, cb, false);
                    assert(combo_listed(combos@, 0, cb));
                    let m = choose|m: int| 0 <= m < combos@.len() && #[trigger] combos@[m]@ == cb;
                    assert(some_val(a, vs, combos@[m]@, false));
                }
            }
        }
    }
    proof {
        assert forall|a: spec_fn(int) -> bool| #[trigger] formula_sat(a, clauses_formula(clauses@)) implies count_true(a, vs)
            == k by {
            lemma_counts(a, vs);
            if k < n {
            } else {
                if k > 0 {
                }
            }
        }
    }
    clauses
}

/// The variable "cell (`r`, `c`) holds a mine".
pub open spec fn mvar(cols: int, r: int, c: int) -> int {
    r * cols + c + 1
}

/// The variable of cell (`row`, `col`) on a board with `cols` columns.
pub fn var(cols: usize, row: usize, col: usize) -> (v: i32)
    requires
        row * cols + col + 1 <= i32::MAX,
    ensures
        v == mvar(cols as int, row as int, col as int),
{
    (row * cols + col + 1) as i32
}

/// `s` with (`r`, `c`) added when it lies on the board.
pub open spec fn push_on_board(s: Seq<(int, int)>, rows: int, cols: int, r: int, c: int) -> Seq<(int, int)> {
    if 0 <= r < rows && 0 <= c < cols { s.push((r, c)) } else { s }
}

/// The (up to eight) neighbours of (`r`, `c`), row by row.
pub open spec fn neighbor_cells(rows: int, cols: int, r: int, c: int) -> Seq<(int, int)> {
    let s1 = push_on_board(Seq::empty(), rows, cols, r - 1, c - 1);
    let s2 = push_on_board(s1, rows, cols, r - 1, c);
    let s3 = push_on_board(s2, rows, cols, r - 1, c + 1);
    let s4 = push_on_board(s3, rows, cols, r, c - 1);
    let s5 = push_on_board(s4, rows, cols, r, c + 1);
    let s6 = push_on_board(s5, rows, cols, r + 1, c - 1);
    let s7 = push_on_board(s6, rows, cols, r + 1, c);
    push_on_board(s7, rows, cols, r + 1, c + 1)
}

/// The mine variables of the unknown cells among `ns`.
pub open spec fn unknown_vars(board: Seq<Seq<Cell>>, cols: int, ns: Seq<(int, int)>) -> Seq<int>
    decreases ns.len(),
{
    if ns.len() == 0 {
        Seq::empty()
    } else {
        let p = unknown_vars(board, cols, ns.drop_last());
        let (r, c) = ns.last();
        if board[r][c] == Cell::Unknown {
            p.push(mvar(cols, r, c))
        } else {
            p
        }
    }
}

/// The number of revealed mines among `ns`.
pub open spec fn mine_count(board: Seq<Seq<Cell>>, ns: Seq<(int, int)>) -> nat
    decreases ns.len(),
{
    if ns.len() == 0 {
        0
    } else {
        let (r, c) = ns.last();
        mine_count(board, ns.drop_last()) + if board[r][c] == Cell::Mine { 1nat } else { 0nat }
    }
}

/// The board as nested sequences.
pub open spec fn board_cells(board: Seq<Vec<Cell>>) -> Seq<Seq<Cell>> {
    board.map_values(|row: Vec<Cell>| row@)
}

/// `a` places mines consistently with the board: revealed mines are mines,
/// numbered cells are not, and each number counts its neighbouring mines.
pub open spec fn consistent(a: spec_fn(int) -> bool, rows: int, cols: int, board: Seq<Seq<Cell>>) -> bool {
    forall|r: int, c: int| 0 <= r < rows && 0 <= c < cols ==> cell_consistent(a, rows, cols, board, r, c)
}

/// Cell (`r`, `c`) agrees with the placement `a`.
pub open spec fn cell_consistent(a: spec_fn(int) -> bool, rows: int, cols: int, board: Seq<Seq<Cell>>, r: int, c: int) -> bool {
    match board[r][c] {
        Cell::Mine => a(mvar(cols, r, c)),
        Cell::Number(n) => !a(mvar(cols, r, c)) && mine_count(board, neighbor_cells(rows, cols, r, c)) + count_true(
            a,
            unknown_vars(board, cols, neighbor_cells(rows, cols, r, c)),
        ) == n,
        Cell::Unknown => true,
    }
}

/// The board has `rows` rows of `cols` cells.
pub open spec fn board_shape(board: Seq<Seq<Cell>>, rows: int, cols: int) -> bool {
    board.len() == rows && forall|r: int| 0 <= r < rows ==> (#[trigger] board[r]).len() == cols
}

proof fn lemma_mvar_range(rows: int, cols: int, r: int, c: int)
    requires
        0 <= r < rows,
        0 <= c < cols,
    ensures
        1 <= mvar(cols, r, c) <= rows * cols,
{
    assert(r * cols + c + 1 <= rows * cols) by (nonlinear_arith)
        requires 0 <= r < rows, 0 <= c < cols;
    assert(r * cols >= 0) by (nonlinear_arith)
        requires 0 <= r, 0 <= c < cols;
}

/// Adds (`r`, `c`) to `v` when it lies on the board.
fn push_neighbor(v: &mut Vec<(usize, usize)>, rows: usize, cols: usize, r: i64, c: i64)
    requires
        rows < 0x4000_0000,
        cols < 0x4000_0000,
    ensures
        final(v)@.map_values(|p: (usize, usize)| (p.0 as int, p.1 as int)) == push_on_board(
            old(v)@.map_values(|p: (usize, usize)| (p.0 as int, p.1 as int)),
            rows as int,
            cols as int,
            r as int,
            c as int,
        ),
{
    if 0 <= r && r < rows as i64 && 0 <= c && c < cols as i64 {
        let ghost v0 = v@;
        v.push((r as usize, c as usize));
        proof {
            assert(v@.map_values(|p: (usize, usize)| (p.0 as int, p.1 as int)) =~= v0.map_values(
                |p: (usize, usize)| (p.0 as int, p.1 as int),
            ).push((r as int, c as int)));
        }
    }
}

/// The neighbours of (`r`, `c`).
pub fn neighbors(rows: usize, cols: usize, r: usize, c: usize) -> (v: Vec<(usize, usize)>)
    requires
        r < rows < 0x4000_0000,
        c < cols < 0x4000_0000,
    ensures
        v@.map_values(|p: (usize, usize)| (p.0 as int, p.1 as int)) == neighbor_cells(rows as int, cols as int, r as int, c as int),
{
    let mut v: Vec<(usize, usize)> = Vec::new();
    let ri = r as i64;
    let ci = c as i64;
    proof {
        assert(v@.map_values(|p: (usize, usize)| (p.0 as int, p.1 as int)) =~= Seq::<(int, int)>::empty());
    }
    push_neighbor(&mut v, rows, cols, ri - 1, ci - 1);
    push_neighbor(&mut v, rows, cols, ri - 1, ci);
    push_neighbor(&mut v, rows, cols, ri - 1, ci + 1);
    push_neighbor(&mut v, rows, cols, ri, ci - 1);
    push_neighbor(&mut v, rows, cols, ri, ci + 1);
    push_neighbor(&mut v, rows, cols, ri + 1, ci - 1);
    push_neighbor(&mut v, rows, cols, ri + 1, ci);
    push_neighbor(&mut v, rows, cols, ri + 1, ci + 1);
    v
}

/// Appends the one-literal clause `lit`.
fn push_unit(clauses: &mut Vec<Clause>, lit: Literal)
    ensures
        forall|a: spec_fn(int) -> bool|
            #[trigger] formula_sat(a, clauses_formula(final(clauses)@)) <==> formula_sat(
                a,
                clauses_formula(old(clauses)@),
            ) && lit_true(a, signed(lit)),
{
    let c = Clause::new(vec![lit]);
    let ghost cs0 = clauses@;
    clauses.push(c);
    proof {
        assert(clause_ints(c) =~= seq![signed(lit)]);
        assert(clauses_formula(clauses@) =~= clauses_formula(cs0).push(clause_ints(c)));
        assert forall|a: spec_fn(int) -> bool| #[trigger]
            formula_sat(a, clauses_formula(clauses@)) <==> formula_sat(a, clauses_formula(cs0)) && lit_true(a, signed(lit)) by {
            lemma_formula_sat_push(a, clauses_formula(cs0), clause_ints(c));
            let ci = clause_ints(c);
            if lit_true(a, signed(lit)) {
                assert(lit_true(a, ci[0]));
            }
        }
    }
}

/// Clauses that every placement consistent with the board satisfies: for a
/// number, "not a mine" and "exactly the missing count of the unknown
/// neighbours are mines" (the empty clause when the revealed neighbouring
/// mines already exceed it); for a revealed mine, "a mine".
pub fn generate_minesweeper_clauses(rows: usize, cols: usize, board: &Vec<Vec<Cell>>) -> (r: Vec<Clause>)
    requires
        board_shape(board_cells(board@), rows as int, cols as int),
        rows < 0x4000_0000,
        cols < 0x4000_0000,
        rows * cols < 0x3fff_0000,
    ensures
        forall|a: spec_fn(int) -> bool| #[trigger]
            consistent(a, rows as int, cols as int, board_cells(board@)) ==> formula_sat(a, clauses_formula(r@)),
        forall|a: spec_fn(int) -> bool| #[trigger] formula_sat(a, clauses_formula(r@)) ==> consistent(
            a,
            rows as int,
            cols as int,
            board_cells(board@),
        ),
{
    let ghost bv = board_cells(board@);
    let ghost rr = rows as int;
    let ghost cc = cols as int;
    let mut clauses: Vec<Clause> = Vec::new();
    let mut r: usize = 0;
    while r < rows
        invariant
            bv == board_cells(board@),
            rr == rows,
            cc == cols,
            board_shape(bv, rr, cc),
            rows < 0x4000_0000,
            cols < 0x4000_0000,
            rows * cols < 0x3fff_0000,
            r <= rows,
            forall|a: spec_fn(int) -> bool| #[trigger] consistent(a, rr, cc, bv) ==> formula_sat(a, clauses_formula(clauses@)),
            forall|a: spec_fn(int) -> bool| #[trigger] formula_sat(a, clauses_formula(clauses@)) ==> cells_done(a, rr, cc, bv, r as int, 0),
        decreases rows - r,
    {
        let mut c: usize = 0;
        while c < cols
            invariant
                bv == board_cells(board@),
                rr == rows,
                cc == cols,
                board_shape(bv, rr, cc),
                rows < 0x4000_0000,
                cols < 0x4000_0000,
                rows * cols < 0x3fff_0000,
                r < rows,
                c <= cols,
                forall|a: spec_fn(int) -> bool| #[trigger] consistent(a, rr, cc, bv) ==> formula_sat(a, clauses_formula(clauses@)),
                forall|a: spec_fn(int) -> bool| #[trigger] formula_sat(a, clauses_formula(clauses@)) ==> cells_done(a, rr, cc, bv, r as int, c as int),
            decreases cols - c,
        {
            proof {
                lemma_mvar_range(rr, cc, r as int, c as int);
                assert(bv[r as int].len() == cols);
            }
            let x = (r * cols + c + 1) as i32;
            let cell = board[r][c];
            proof {
                assert(cell == bv[r as int][c as int]);
            }
            match cell {
                Cell::Number(count) => {
                    let ghost c0 = clauses@;
                    push_unit(&mut clauses, Literal::negative(x));
                    let ns = neighbors(rows, cols, r, c);
                    let ghost nsv = ns@.map_values(|p: (usize, usize)| (p.0 as int, p.1 as int));
                    let mut unk: Vec<i32> = Vec::new();
                    let mut known: usize = 0;
                    let mut i: usize = 0;
                    while i < ns.len()
                        invariant
                            bv == board_cells(board@),
                            board_shape(bv, rr, cc),
                            rr == rows,
                            cc == cols,
                            rows < 0x4000_0000,
                            cols < 0x4000_0000,
                            rows * cols < 0x3fff_0000,
                            nsv == ns@.map_values(|p: (usize, usize)| (p.0 as int, p.1 as int)),
                            nsv == neighbor_cells(rr, cc, r as int, c as int),
                            i <= ns@.len(),
                            known <= i,
                            var_ints(unk@) == unknown_vars(bv, cc, nsv.take(i as int)),
                            known == mine_count(bv, nsv.take(i as int)),
                            forall|k: int| 0 <= k < unk@.len() ==> #[trigger] unk@[k] >= 1,
                        decreases ns@.len() - i,
                    {
                        let (nr, nc) = ns[i];
                        proof {
                            assert(nsv[i as int] == (nr as int, nc as int));
                            assert(0 <= nr < rows && 0 <= nc < cols) by {
                                lemma_neighbors_on_board(rr, cc, r as int, c as int, i as int);
                            }
                            assert(nsv.take(i + 1).drop_last() =~= nsv.take(i as int));
                            assert(nsv.take(i + 1).last() == (nr as int, nc as int));
                            assert(bv[nr as int].len() == cols);
                            lemma_mvar_range(rr, cc, nr as int, nc as int);
                        }
                        let nb = board[nr][nc];
                        proof {
                            assert(nb == bv[nr as int][nc as int]);
                        }
                        if nb == Cell::Unknown {
                            let ghost u0 = unk@;
                            unk.push((nr * cols + nc + 1) as i32);
                            proof {
                                assert(var_ints(unk@) =~= var_ints(u0).push(mvar(cc, nr as int, nc as int)));
                            }
                        } else if nb == Cell::Mine {
                            known = known + 1;
                        }
                        i = i + 1;
                    }
                    proof {
                        assert(nsv.take(ns@.len() as int) =~= nsv);
                    }
                    let ghost c1 = clauses@;
                    if known > count as usize {
                        clauses.push(Clause::new(Vec::new()));
                        proof {
                            assert forall|a: spec_fn(int) -> bool| #[trigger] consistent(a, rr, cc, bv) implies formula_sat(
                                a,
                                clauses_formula(clauses@),
                            ) by {
                                assert(cell_consistent(a, rr, cc, bv, r as int, c as int));
                            }
                            assert forall|a: spec_fn(int) -> bool| #[trigger] formula_sat(a, clauses_formula(clauses@)) implies cells_done(
                                a,
                                rr,
                                cc,
                                bv,
                                r as int,
                                c + 1,
                            ) by {
                                let f = clauses_formula(clauses@);
                                assert(f[f.len() - 1].len() == 0);
                                assert(clause_sat(a, f[f.len() - 1]));
                            }
                        }
                    } else {
                        let mut more = encode_exactly_k(unk.as_slice(), count as usize - known);
                        let ghost m0 = more@;
                        clauses.append(&mut more);
                        proof {
                            assert(clauses_formula(clauses@) =~= clauses_formula(c1) + clauses_formula(m0));
                            assert forall|a: spec_fn(int) -> bool| #[trigger] consistent(a, rr, cc, bv) implies formula_sat(
                                a,
                                clauses_formula(clauses@),
                            ) by {
                                assert(cell_consistent(a, rr, cc, bv, r as int, c as int));
                                assert(formula_sat(a, clauses_formula(c0)));
                                assert(formula_sat(a, clauses_formula(c1)));
                                assert(count_true(a, var_ints(unk@)) == count as usize - known);
                                assert(formula_sat(a, clauses_formula(m0)));
                                lemma_formula_sat_append(a, clauses_formula(c1), clauses_formula(m0));
                            }
                            assert forall|a: spec_fn(int) -> bool| #[trigger] formula_sat(a, clauses_formula(clauses@)) implies cells_done(
                                a,
                                rr,
                                cc,
                                bv,
                                r as int,
                                c + 1,
                            ) by {
                                lemma_formula_sat_append(a, clauses_formula(c1), clauses_formula(m0));
                                assert(formula_sat(a, clauses_formula(c0)));
                                assert(cells_done(a, rr, cc, bv, r as int, c as int));
                                assert(count_true(a, var_ints(unk@)) == count as usize - known);
                                assert(cell_consistent(a, rr, cc, bv, r as int, c as int));
                            }
                        }
                    }
                },
                Cell::Mine => {
                    let ghost c0 = clauses@;
                    push_unit(&mut clauses, Literal::positive(x));
                    proof {
                        assert forall|a: spec_fn(int) -> bool| #[trigger] consistent(a, rr, cc, bv) implies formula_sat(
                            a,
                            clauses_formula(clauses@),
                        ) by {
                            assert(cell_consistent(a, rr, cc, bv, r as int, c as int));
                        }
                        assert forall|a: spec_fn(int) -> bool| #[trigger] formula_sat(a, clauses_formula(clauses@)) implies cells_done(
                            a,
                            rr,
                            cc,
                            bv,
                            r as int,
                            c + 1,
                        ) by {
                            assert(formula_sat(a, clauses_formula(c0)));
                            assert(cells_done(a, rr, cc, bv, r as int, c as int));
                            assert(cell_consistent(a, rr, cc, bv, r as int, c as int));
                        }
                    }
                },
                Cell::Unknown => {
                    proof {
                        assert forall|a: spec_fn(int) -> bool| #[trigger] formula_sat(a, clauses_formula(clauses@)) implies cells_done(
                            a,
                            rr,
                            cc,
                            bv,
                            r as int,
                            c + 1,
                        ) by {
                            assert(cells_done(a, rr, cc, bv, r as int, c as int));
                            assert(cell_consistent(a, rr, cc, bv, r as int, c as int));
                        }
                    }
                },
            }
            c = c + 1;
        }
        proof {
            assert forall|a: spec_fn(int) -> bool| #[trigger] formula_sat(a, clauses_formula(clauses@)) implies cells_done(
                a,
                rr,
                cc,
                bv,
                r + 1,
                0,
            ) by {
                assert(cells_done(a, rr, cc, bv, r as int, c as int));
            }
        }
        r = r + 1;
    }
    proof {
        assert forall|a: spec_fn(int) -> bool| #[trigger] formula_sat(a, clauses_formula(clauses@)) implies consistent(
            a,
            rr,
            cc,
            bv,
        ) by {
            assert(cells_done(a, rr, cc, bv, r as int, 0));
        }
    }
    clauses
}

/// The cells before (`r`, `c`), row by row, agree with the placement `a`.
pub open spec fn cells_done(a: spec_fn(int) -> bool, rows: int, cols: int, board: Seq<Seq<Cell>>, r: int, c: int) -> bool {
    forall|r2: int, c2: int|
        0 <= r2 < rows && 0 <= c2 < cols && (r2 < r || (r2 == r && c2 < c)) ==> #[trigger] cell_consistent(
            a,
            rows,
            cols,
            board,
            r2,
            c2,
        )
}

/// Every neighbour lies on the board.
proof fn lemma_neighbors_on_board(rows: int, cols: int, r: int, c: int, i: int)
    requires
        0 <= i < neighbor_cells(rows, cols, r, c).len(),
    ensures
        0 <= neighbor_cells(rows, cols, r, c)[i].0 < rows,
        0 <= neighbor_cells(rows, cols, r, c)[i].1 < cols,
{
    let s1 = push_on_board(Seq::empty(), rows, cols, r - 1, c - 1);
    let s2 = push_on_board(s1, rows, cols, r - 1, c);
    let s3 = push_on_board(s2, rows, cols, r - 1, c + 1);
    let s4 = push_on_board(s3, rows, cols, r, c - 1);
    let s5 = push_on_board(s4, rows, cols, r, c + 1);
    let s6 = push_on_board(s5, rows, cols, r + 1, c - 1);
    let s7 = push_on_board(s6, rows, cols, r + 1, c);
    let s8 = push_on_board(s7, rows, cols, r + 1, c + 1);
    assert forall|j: int| 0 <= j < s1.len() implies 0 <= #[trigger] s1[j].0 < rows && 0 <= s1[j].1 < cols by {}
    assert forall|j: int| 0 <= j < s2.len() implies 0 <= #[trigger] s2[j].0 < rows && 0 <= s2[j].1 < cols by {
        if j < s1.len() {
            assert(s2[j] == s1[j]);
        }
    }
    assert forall|j: int| 0 <= j < s3.len() implies 0 <= #[trigger] s3[j].0 < rows && 0 <= s3[j].1 < cols by {
        if j < s2.len() {
            assert(s3[j] == s2[j]);
        }
    }
    assert forall|j: int| 0 <= j < s4.len() implies 0 <= #[trigger] s4[j].0 < rows && 0 <= s4[j].1 < cols by {
        if j < s3.len() {
            assert(s4[j] == s3[j]);
        }
    }
    assert forall|j: int| 0 <= j < s5.len() implies 0 <= #[trigger] s5[j].0 < rows && 0 <= s5[j].1 < cols by {
        if j < s4.len() {
            assert(s5[j] == s4[j]);
        }
    }
    assert forall|j: int| 0 <= j < s6.len() implies 0 <= #[trigger] s6[j].0 < rows && 0 <= s6[j].1 < cols by {
        if j < s5.len() {
            assert(s6[j] == s5[j]);
        }
    }
    assert forall|j: int| 0 <= j < s7.len() implies 0 <= #[trigger] s7[j].0 < rows && 0 <= s7[j].1 < cols by {
        if j < s6.len() {
            assert(s7[j] == s6[j]);
        }
    }
    assert forall|j: int| 0 <= j < s8.len() implies 0 <= #[trigger] s8[j].0 < rows && 0 <= s8[j].1 < cols by {
        if j < s7.len() {
            assert(s8[j] == s7[j]);
        }
    }
    assert(s8[i].0 == neighbor_cells(rows, cols, r, c)[i].0);
}

/// What can be said of a cell.
#[derive(Clone, Copy, Debug, PartialEq, Eq, Structural)]
pub enum Deduction {
    /// The cell was revealed.
    Revealed,
    /// Every consistent placement puts a mine there.
    MustBeMine,
    /// No consistent placement puts a mine there.
    MustBeSafe,
    /// Neither could be shown.
    Undetermined,
}

/// A copy of a list of clauses.
fn copy_clauses(cs: &Vec<Clause>) -> (r: Vec<Clause>)
    ensures
        clauses_formula(r@) == clauses_formula(cs@),
        r@.len() == cs@.len(),
        forall|i: int| 0 <= i < cs@.len() ==> (#[trigger] r@[i])@ == cs@[i]@,
{
    let mut r: Vec<Clause> = Vec::new();
    let mut i: usize = 0;
    while i < cs.len()
        invariant
            i <= cs@.len(),
            r@.len() == i,
            forall|j: int| 0 <= j < i ==> (#[trigger] r@[j])@ == cs@[j]@,
        decreases cs@.len() - i,
    {
        let src = &cs[i];
        let mut lits: Vec<Literal> = Vec::new();
        let mut k: usize = 0;
        while k < src.literals.len()
            invariant
                k <= src.literals@.len(),
                lits@ == src.literals@.subrange(0, k as int),
            decreases src.literals@.len() - k,
        {
            lits.push(src.literals[k]);
            k = k + 1;
        }
        proof {
            assert(src.literals@.subrange(0, src.literals@.len() as int) =~= src.literals@);
        }
        r.push(Clause::new(lits));
        i = i + 1;
    }
    proof {
        assert(clauses_formula(r@) =~= clauses_formula(cs@));
    }
    r
}

/// Whether the clauses together with `lit` are refuted: no assignment
/// satisfies the clauses and makes `lit` true.  The solver decides; clauses
/// too large for it are decided by trying every assignment.
fn refuted_with(base: &Vec<Clause>, lit: Literal) -> (b: bool)
    ensures
        b == forall|a: spec_fn(int) -> bool| #[trigger] formula_sat(a, clauses_formula(base@)) ==> !lit_true(a, signed(lit)),
{
    let mut cs = copy_clauses(base);
    let ghost c0 = cs@;
    push_unit(&mut cs, lit);
    let ghost f = clauses_formula(cs@);
    proof {
        assert forall|a: spec_fn(int) -> bool| #[trigger] formula_sat(a, f) <==> formula_sat(a, clauses_formula(base@))
            && lit_true(a, signed(lit)) by {
            assert(formula_sat(a, clauses_formula(cs@)) <==> formula_sat(a, clauses_formula(c0)) && lit_true(a, signed(lit)));
        }
        if !satisfiable(f) {
            assert forall|a: spec_fn(int) -> bool| #[trigger] formula_sat(a, clauses_formula(base@)) implies !lit_true(
                a,
                signed(lit),
            ) by {
                if lit_true(a, signed(lit)) {
                    assert(formula_sat(a, f));
                }
            }
        } else {
            let a = choose|a: spec_fn(int) -> bool| #[trigger] formula_sat(a, f);
            assert(formula_sat(a, clauses_formula(base@)) && lit_true(a, signed(lit)));
        }
    }
    if !solver_input_fits(&cs) {
        return !satisfiable_by_search(&cs);
    }
    proof {
        lemma_drop_empty_id(f);
    }
    let mut solver = CDCLSolver::new(cs);
    proof {
        assert(solver.formula() =~= f);
    }
    match solver.solve() {
        Ok(false) => true,
        _ => false,
    }
}

/// For every cell: revealed, or a mine in every consistent placement, or
/// safe in every one, or undetermined.  Each unknown cell is tested by
/// asking the solver for a placement with it safe, then with it a mine.
pub fn analyze_minesweeper(rows: usize, cols: usize, board: &Vec<Vec<Cell>>) -> (r: Vec<Vec<Deduction>>)
    requires
        board_shape(board_cells(board@), rows as int, cols as int),
        rows < 0x4000_0000,
        cols < 0x4000_0000,
        rows * cols < 0x3fff_0000,
    ensures
        r@.len() == rows,
        forall|i: int| 0 <= i < rows ==> (#[trigger] r@[i])@.len() == cols,
        forall|i: int, j: int| 0 <= i < rows && 0 <= j < cols ==> {
            let d = #[trigger] r@[i]@[j];
            &&& (d == Deduction::Revealed <==> board@[i]@[j] != Cell::Unknown)
            &&& (d == Deduction::MustBeMine ==> forall|a: spec_fn(int) -> bool|
                #[trigger] consistent(a, rows as int, cols as int, board_cells(board@)) ==> a(mvar(cols as int, i, j)))
            &&& (d == Deduction::MustBeSafe ==> forall|a: spec_fn(int) -> bool|
                #[trigger] consistent(a, rows as int, cols as int, board_cells(board@)) ==> !a(mvar(cols as int, i, j)))
            &&& (d == Deduction::MustBeSafe ==> exists|a: spec_fn(int) -> bool|
                #[trigger] consistent(a, rows as int, cols as int, board_cells(board@)) && !a(mvar(cols as int, i, j)))
            &&& (d == Deduction::Undetermined ==> (exists|a: spec_fn(int) -> bool|
                #[trigger] consistent(a, rows as int, cols as int, board_cells(board@)) && a(mvar(cols as int, i, j)))
                && (exists|a: spec_fn(int) -> bool|
                #[trigger] consistent(a, rows as int, cols as int, board_cells(board@)) && !a(mvar(cols as int, i, j))))
        },
{
    let ghost bv = board_cells(board@);
    let base = generate_minesweeper_clauses(rows, cols, board);
    let mut out: Vec<Vec<Deduction>> = Vec::new();
    let mut r: usize = 0;
    while r < rows
        invariant
            bv == board_cells(board@),
            board_shape(bv, rows as int, cols as int),
            rows < 0x4000_0000,
            cols < 0x4000_0000,
            rows * cols < 0x3fff_0000,
            forall|a: spec_fn(int) -> bool| #[trigger] consistent(a, rows as int, cols as int, bv) ==> formula_sat(
                a,
                clauses_formula(base@),
            ),
            forall|a: spec_fn(int) -> bool| #[trigger] formula_sat(a, clauses_formula(base@)) ==> consistent(
                a,
                rows as int,
                cols as int,
                bv,
            ),
            r <= rows,
            out@.len() == r,
            forall|i: int| 0 <= i < r ==> (#[trigger] out@[i])@.len() == cols,
            forall|i: int, j: int| 0 <= i < r && 0 <= j < cols ==> {
                let d = #[trigger] out@[i]@[j];
                &&& (d == Deduction::Revealed <==> board@[i]@[j] != Cell::Unknown)
                &&& (d == Deduction::MustBeMine ==> forall|a: spec_fn(int) -> bool|
                    #[trigger] consistent(a, rows as int, cols as int, bv) ==> a(mvar(cols as int, i, j)))
                &&& (d == Deduction::MustBeSafe ==> forall|a: spec_fn(int) -> bool|
                    #[trigger] consistent(a, rows as int, cols as int, bv) ==> !a(mvar(cols as int, i, j)))
                &&& (d == Deduction::MustBeSafe ==> exists|a: spec_fn(int) -> bool|
                    #[trigger] consistent(a, rows as int, cols as int, bv) && !a(mvar(cols as int, i, j)))
                &&& (d == Deduction::Undetermined ==> (exists|a: spec_fn(int) -> bool|
                    #[trigger] consistent(a, rows as int, cols as int, bv) && a(mvar(cols as int, i, j)))
                    && (exists|a: spec_fn(int) -> bool|
                    #[trigger] consistent(a, rows as int, cols as int, bv) && !a(mvar(cols as int, i, j))))
            },
        decreases rows - r,
    {
        let mut row: Vec<Deduction> = Vec::new();
        let mut c: usize = 0;
        while c < cols
            invariant
                bv == board_cells(board@),
                board_shape(bv, rows as int, cols as int),
                rows < 0x4000_0000,
                cols < 0x4000_0000,
                rows * cols < 0x3fff_0000,
                forall|a: spec_fn(int) -> bool| #[trigger] consistent(a, rows as int, cols as int, bv) ==> formula_sat(
                    a,
                    clauses_formula(base@),
                ),
                forall|a: spec_fn(int) -> bool| #[trigger] formula_sat(a, clauses_formula(base@)) ==> consistent(
                    a,
                    rows as int,
                    cols as int,
                    bv,
                ),
                r < rows,
                c <= cols,
                row@.len() == c,
                forall|j: int| 0 <= j < c ==> {
                    let d = #[trigger] row@[j];
                    &&& (d == Deduction::Revealed <==> board@[r as int]@[j] != Cell::Unknown)
                    &&& (d == Deduction::MustBeMine ==> forall|a: spec_fn(int) -> bool|
                        #[trigger] consistent(a, rows as int, cols as int, bv) ==> a(mvar(cols as int, r as int, j)))
                    &&& (d == Deduction::MustBeSafe ==> forall|a: spec_fn(int) -> bool|
                        #[trigger] consistent(a, rows as int, cols as int, bv) ==> !a(mvar(cols as int, r as int, j)))
                    &&& (d == Deduction::MustBeSafe ==> exists|a: spec_fn(int) -> bool|
                        #[trigger] consistent(a, rows as int, cols as int, bv) && !a(mvar(cols as int, r as int, j)))
                    &&& (d == Deduction::Undetermined ==> (exists|a: spec_fn(int) -> bool|
                        #[trigger] consistent(a, rows as int, cols as int, bv) && a(mvar(cols as int, r as int, j)))
                        && (exists|a: spec_fn(int) -> bool|
                        #[trigger] consistent(a, rows as int, cols as int, bv) && !a(mvar(cols as int, r as int, j))))
                },
            decreases cols - c,
        {
            proof {
                lemma_mvar_range(rows as int, cols as int, r as int, c as int);
                assert(bv[r as int].len() == cols);
            }
            if board[r][c] != Cell::Unknown {
                row.push(Deduction::Revealed);
            } else {
                let x = (r * cols + c + 1) as i32;
                let ln = Literal::negative(x);
                let lp = Literal::positive(x);
                let must_be_mine = refuted_with(&base, ln);
                let must_be_safe = refuted_with(&base, lp);
                let d = if must_be_mine {
                    Deduction::MustBeMine
                } else if must_be_safe {
                    Deduction::MustBeSafe
                } else {
                    Deduction::Undetermined
                };
                proof {
                    let xv = mvar(cols as int, r as int, c as int);
                    assert(x as int == xv);
                    assert(signed(ln) == -xv);
                    assert(signed(lp) == xv);
                    if !must_be_mine {
                        let a = choose|a: spec_fn(int) -> bool| #[trigger] formula_sat(a, clauses_formula(base@)) && !!lit_true(
                            a,
                            signed(ln),
                        );
                        assert(consistent(a, rows as int, cols as int, bv) && !a(xv));
                    }
                    if !must_be_safe {
                        let a = choose|a: spec_fn(int) -> bool| #[trigger] formula_sat(a, clauses_formula(base@)) && !!lit_true(
                            a,
                            signed(lp),
                        );
                        assert(consistent(a, rows as int, cols as int, bv) && a(xv));
                    }
                }
                row.push(d);
            }
            c = c + 1;
        }
        out.push(row);
        r = r + 1;
    }
    out
}

} // verus!
