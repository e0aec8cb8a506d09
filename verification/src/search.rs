//! Exhaustive search for a model of a formula given as clauses of signed
//! literals: every assignment of the variables is tried in turn.
use vstd::prelude::*;

use crate::literal::{clause_in_range, clause_ints, formula_in_range, clause_sat, clauses_formula, formula_sat, int_clauses, lit_true, satisfiable, signed, Clause};

verus! {

/// The assignment that makes variable `v` true exactly when `vals[v]` holds.
pub open spec fn vals_model(vals: Seq<bool>) -> spec_fn(int) -> bool {
    |v: int| 0 <= v < vals.len() && vals[v]
}

/// Some assignment that agrees with `vals` on the variables `0..k`
/// satisfies `f`.
pub open spec fn extends_to_model(f: Seq<Seq<int>>, vals: Seq<bool>, k: int) -> bool {
    exists|a: spec_fn(int) -> bool|
        #[trigger] formula_sat(a, f) && forall|v: int| 0 <= v < k ==> a(v) == vals[v]
}

/// Every literal of `f` lies in `-n..=n` (its variable is at most `n`).
pub open spec fn clauses_in_range(f: Seq<Seq<int>>, n: int) -> bool {
    forall|i: int, k: int| 0 <= i < f.len() && 0 <= k < f[i].len() ==> -n <= #[trigger] f[i][k] <= n
}

/// The formula written with 64-bit literals.
pub open spec fn wide_clauses(f: Seq<Vec<i64>>) -> Seq<Seq<int>> {
    f.map_values(|c: Vec<i64>| c@.map_values(|x: i64| x as int))
}

/// Two assignments that agree on the variables `0..=n` agree on a formula
/// over those variables.
pub proof fn lemma_formula_agree(f: Seq<Seq<int>>, n: int, a: spec_fn(int) -> bool, b: spec_fn(int) -> bool)
    requires
        clauses_in_range(f, n),
        forall|v: int| 0 <= v <= n ==> #[trigger] a(v) == b(v),
    ensures
        formula_sat(a, f) == formula_sat(b, f),
{
    assert forall|i: int| 0 <= i < f.len() implies #[trigger] clause_sat(a, f[i]) == clause_sat(b, f[i]) by {
        let c = f[i];
        if clause_sat(a, c) {
            let k = choose|k: int| 0 <= k < c.len() && #[trigger] lit_true(a, c[k]);
            assert(-n <= f[i][k] <= n);
            assert(lit_true(b, c[k]));
        }
        if clause_sat(b, c) {
            let k = choose|k: int| 0 <= k < c.len() && #[trigger] lit_true(b, c[k]);
            assert(-n <= f[i][k] <= n);
            assert(lit_true(a, c[k]));
        }
    }
    if formula_sat(a, f) {
        assert forall|i: int| 0 <= i < f.len() implies #[trigger] clause_sat(b, f[i]) by {
            assert(clause_sat(a, f[i]));
        }
    }
    if formula_sat(b, f) {
        assert forall|i: int| 0 <= i < f.len() implies #[trigger] clause_sat(a, f[i]) by {
            assert(clause_sat(b, f[i]));
        }
    }
}

/// Two assignments that agree on the variables `1..=n` agree on a formula
/// of non-zero literals over those variables.
pub proof fn lemma_formula_agree_nonzero(f: Seq<Seq<int>>, n: int, a: spec_fn(int) -> bool, b: spec_fn(int) -> bool)
    requires
        formula_in_range(f, n),
        forall|v: int| 1 <= v <= n ==> #[trigger] a(v) == b(v),
    ensures
        formula_sat(a, f) == formula_sat(b, f),
{
    assert forall|i: int| 0 <= i < f.len() implies #[trigger] clause_sat(a, f[i]) == clause_sat(b, f[i]) by {
        let c = f[i];
        assert(clause_in_range(c, n));
        if clause_sat(a, c) {
            let k = choose|k: int| 0 <= k < c.len() && #[trigger] lit_true(a, c[k]);
            assert(c[k] != 0 && -n <= c[k] <= n);
            assert(lit_true(b, c[k]));
        }
        if clause_sat(b, c) {
            let k = choose|k: int| 0 <= k < c.len() && #[trigger] lit_true(b, c[k]);
            assert(c[k] != 0 && -n <= c[k] <= n);
            assert(lit_true(a, c[k]));
        }
    }
    if formula_sat(a, f) {
        assert forall|i: int| 0 <= i < f.len() implies #[trigger] clause_sat(b, f[i]) by {
            assert(clause_sat(a, f[i]));
        }
    }
    if formula_sat(b, f) {
        assert forall|i: int| 0 <= i < f.len() implies #[trigger] clause_sat(a, f[i]) by {
            assert(clause_sat(b, f[i]));
        }
    }
}

/// Whether `vals` (read as an assignment) satisfies every clause.
fn formula_holds(f: &Vec<Vec<i64>>, n: usize, vals: &Vec<bool>) -> (b: bool)
    requires
        clauses_in_range(wide_clauses(f@), n as int),
        vals@.len() == n + 1,
        n <= 0x8000_0000,
    ensures
        b == formula_sat(vals_model(vals@), wide_clauses(f@)),
{
    let ghost a = vals_model(vals@);
    let ghost g = wide_clauses(f@);
    let mut i: usize = 0;
    while i < f.len()
        invariant
            i <= f@.len(),
            g == wide_clauses(f@),
            a == vals_model(vals@),
            vals@.len() == n + 1,
            n <= 0x8000_0000,
            clauses_in_range(g, n as int),
            forall|j: int| 0 <= j < i ==> #[trigger] clause_sat(a, g[j]),
        decreases f@.len() - i,
    {
        let c = &f[i];
        let ghost ci = g[i as int];
        proof {
            assert(ci == c@.map_values(|x: i64| x as int));
        }
        let mut k: usize = 0;
        let mut sat = false;
        while k < c.len()
            invariant
                i < f@.len(),
                g == wide_clauses(f@),
                k <= c@.len(),
                c@ == f@[i as int]@,
                ci == g[i as int],
                ci == c@.map_values(|x: i64| x as int),
                clauses_in_range(g, n as int),
                vals@.len() == n + 1,
                n <= 0x8000_0000,
                a == vals_model(vals@),
                sat == exists|j: int| 0 <= j < k && #[trigger] lit_true(a, ci[j]),
            decreases c@.len() - k,
        {
            let l = c[k];
            proof {
                assert(ci[k as int] == l as int);
                assert(-(n as int) <= g[i as int][k as int] <= n);
            }
            let t = if l > 0 { vals[l as usize] } else { !vals[(0 - l) as usize] };
            proof {
                assert(t == lit_true(a, ci[k as int]));
            }
            if t {
                sat = true;
            }
            k = k + 1;
        }
        if !sat {
            proof {
                assert(!clause_sat(a, ci));
            }
            return false;
        }
        i = i + 1;
    }
    true
}

/// Tries every value of the variables `k..=n`, those before `k` fixed by
/// `vals`; on success `vals` holds a model.
fn extend(f: &Vec<Vec<i64>>, n: usize, vals: &mut Vec<bool>, k: usize) -> (found: bool)
    requires
        clauses_in_range(wide_clauses(f@), n as int),
        old(vals)@.len() == n + 1,
        k <= n + 1,
        n <= 0x8000_0000,
    ensures
        final(vals)@.len() == n + 1,
        forall|v: int| 0 <= v < k ==> #[trigger] final(vals)@[v] == old(vals)@[v],
        found ==> formula_sat(vals_model(final(vals)@), wide_clauses(f@)),
        !found ==> !extends_to_model(wide_clauses(f@), old(vals)@, k as int),
    decreases n + 1 - k,
{
    let ghost g = wide_clauses(f@);
    let ghost v0 = vals@;
    if k == n + 1 {
        let b = formula_holds(f, n, vals);
        proof {
            if !b && extends_to_model(g, v0, k as int) {
                let a = choose|a: spec_fn(int) -> bool|
                    #[trigger] formula_sat(a, g) && forall|v: int| 0 <= v < k ==> a(v) == v0[v];
                lemma_formula_agree(g, n as int, a, vals_model(v0));
            }
        }
        return b;
    }
    vals.set(k, true);
    let ghost v1 = vals@;
    if extend(f, n, vals, k + 1) {
        return true;
    }
    vals.set(k, false);
    let ghost v2 = vals@;
    proof {
        assert forall|v: int| 0 <= v < k implies v2[v] == v0[v] by {}
    }
    if extend(f, n, vals, k + 1) {
        return true;
    }
    proof {
        if extends_to_model(g, v0, k as int) {
            let a = choose|a: spec_fn(int) -> bool|
                #[trigger] formula_sat(a, g) && forall|v: int| 0 <= v < k ==> a(v) == v0[v];
            if a(k as int) {
                assert forall|v: int| 0 <= v < k + 1 implies a(v) == v1[v] by {
                    if v < k {
                        assert(v1[v] == v0[v]);
                    }
                }
                assert(extends_to_model(g, v1, k + 1));
            } else {
                assert forall|v: int| 0 <= v < k + 1 implies a(v) == v2[v] by {}
                assert(extends_to_model(g, v2, k + 1));
            }
        }
    }
    false
}

/// A model of the clauses, found by trying every assignment of the
/// variables `0..=n`, or `None` when there is none.
pub fn find_model(f: &Vec<Vec<i64>>, n: usize) -> (r: Option<Vec<bool>>)
    requires
        clauses_in_range(wide_clauses(f@), n as int),
        n <= 0x8000_0000,
    ensures
        r matches Some(m) ==> m@.len() == n + 1 && formula_sat(vals_model(m@), wide_clauses(f@)),
        r is None ==> !satisfiable(wide_clauses(f@)),
{
    let mut vals: Vec<bool> = Vec::new();
    let mut i: usize = 0;
    while i <= n
        invariant
            i <= n + 1,
            n <= 0x8000_0000,
            vals@.len() == i,
        decreases n + 1 - i,
    {
        vals.push(false);
        i = i + 1;
    }
    let ghost v0 = vals@;
    if extend(f, n, &mut vals, 0) {
        Some(vals)
    } else {
        proof {
            if satisfiable(wide_clauses(f@)) {
                let a = choose|a: spec_fn(int) -> bool| #[trigger] formula_sat(a, wide_clauses(f@));
                assert(extends_to_model(wide_clauses(f@), v0, 0));
            }
        }
        None
    }
}

/// The formula with its literals widened to 64 bits, and a bound on its
/// variables.
pub fn widen_ints(f: &Vec<Vec<i32>>) -> (r: (Vec<Vec<i64>>, usize))
    ensures
        wide_clauses(r.0@) == int_clauses(f@),
        clauses_in_range(wide_clauses(r.0@), r.1 as int),
        r.1 <= 0x8000_0000,
{
    let mut out: Vec<Vec<i64>> = Vec::new();
    let mut n: usize = 0;
    let mut i: usize = 0;
    while i < f.len()
        invariant
            i <= f@.len(),
            n <= 0x8000_0000,
            out@.len() == i,
            forall|j: int| 0 <= j < i ==> (#[trigger] out@[j])@.map_values(|x: i64| x as int) == f@[j]@.map_values(
                |x: i32| x as int,
            ),
            forall|j: int, k: int| 0 <= j < i && 0 <= k < out@[j]@.len() ==> -n <= #[trigger] out@[j]@[k] <= n,
        decreases f@.len() - i,
    {
        let c = &f[i];
        let mut w: Vec<i64> = Vec::new();
        let mut k: usize = 0;
        while k < c.len()
            invariant
                k <= c@.len(),
                n <= 0x8000_0000,
                w@.len() == k,
                forall|x: int| 0 <= x < k ==> #[trigger] w@[x] == c@[x] as i64,
                forall|x: int| 0 <= x < k ==> -n <= #[trigger] w@[x] <= n,
                out@.len() == i,
                forall|j: int, kk: int| 0 <= j < i && 0 <= kk < out@[j]@.len() ==> -n <= #[trigger] out@[j]@[kk] <= n,
            decreases c@.len() - k,
        {
            let x = c[k] as i64;
            let m: usize = if x < 0 { (0 - x) as usize } else { x as usize };
            if m > n {
                n = m;
            }
            w.push(x);
            k = k + 1;
        }
        proof {
            assert(w@.map_values(|x: i64| x as int) =~= c@.map_values(|x: i32| x as int));
        }
        out.push(w);
        i = i + 1;
    }
    proof {
        assert(wide_clauses(out@) =~= int_clauses(f@));
    }
    (out, n)
}

/// Whether some assignment satisfies the clauses, decided by trying every
/// assignment of their variables.
pub fn satisfiable_by_search(cs: &Vec<Clause>) -> (b: bool)
    ensures
        b == satisfiable(clauses_formula(cs@)),
{
    let r = model_by_search(cs);
    match r {
        Some(m) => {
            proof {
                assert(formula_sat(vals_model(m@), clauses_formula(cs@)));
            }
            true
        },
        None => false,
    }
}

/// A model of the clauses found by trying every assignment of their
/// variables, or `None` when there is none.
pub fn model_by_search(cs: &Vec<Clause>) -> (r: Option<Vec<bool>>)
    ensures
        r matches Some(m) ==> formula_sat(vals_model(m@), clauses_formula(cs@)),
        r is None ==> !satisfiable(clauses_formula(cs@)),
{
    let mut out: Vec<Vec<i64>> = Vec::new();
    let mut n: usize = 0;
    let mut i: usize = 0;
    while i < cs.len()
        invariant
            i <= cs@.len(),
            n <= 0x8000_0000,
            out@.len() == i,
            forall|j: int| 0 <= j < i ==> (#[trigger] out@[j])@.map_values(|x: i64| x as int) == clause_ints(cs@[j]),
            forall|j: int, k: int| 0 <= j < i && 0 <= k < out@[j]@.len() ==> -n <= #[trigger] out@[j]@[k] <= n,
        decreases cs@.len() - i,
    {
        let c = &cs[i].literals;
        let mut w: Vec<i64> = Vec::new();
        let mut k: usize = 0;
        while k < c.len()
            invariant
                i < cs@.len(),
                c@ == cs@[i as int].literals@,
                k <= c@.len(),
                n <= 0x8000_0000,
                w@.len() == k,
                forall|x: int| 0 <= x < k ==> #[trigger] w@[x] == signed(c@[x]),
                forall|x: int| 0 <= x < k ==> -n <= #[trigger] w@[x] <= n,
                out@.len() == i,
                forall|j: int, kk: int| 0 <= j < i && 0 <= kk < out@[j]@.len() ==> -n <= #[trigger] out@[j]@[kk] <= n,
            decreases c@.len() - k,
        {
            let l = c[k];
            let x: i64 = if l.negated { 0 - (l.var as i64) } else { l.var as i64 };
            let m: usize = if x < 0 { (0 - x) as usize } else { x as usize };
            if m > n {
                n = m;
            }
            w.push(x);
            k = k + 1;
        }
        proof {
            assert(w@.map_values(|x: i64| x as int) =~= clause_ints(cs@[i as int]));
        }
        out.push(w);
        i = i + 1;
    }
    proof {
        assert(wide_clauses(out@) =~= clauses_formula(cs@));
    }
    find_model(&out, n)
}

} // verus!
