//! Exact cover: choose subsets so that every element `1..=n` lies in exactly
//! one chosen subset.  Variable `i + 1` says that subset `i` is chosen; an
//! element listed twice in one subset counts twice.
use vstd::prelude::*;
use crate::encode::{exactly_one, no_two_true, push_at_least_one, push_at_most_one, some_true, var_ints};
use crate::literal::{clause_ints, clause_sat, clauses_formula, formula_sat, satisfiable, Clause};
use crate::solver::{lemma_drop_empty_id, lemma_sat_agree_below_max, solver_input_fits, CDCLSolver, SolverError};

verus! {

/// The largest number of subsets (one variable each).
pub const MAX_SUBSETS: usize = 0x3fff_0000;

/// The variable `i + 1` of subset `i`, once for each time `e` is listed in
/// `s` (the subset `i`).
pub open spec fn occurrences_in(s: Seq<usize>, e: int, i: int) -> Seq<int>
    decreases s.len(),
{
    if s.len() == 0 {
        Seq::empty()
    } else if s.last() == e {
        occurrences_in(s.drop_last(), e, i).push(i + 1)
    } else {
        occurrences_in(s.drop_last(), e, i)
    }
}

/// The variables of the subsets that list `e`, once per listing, subsets in
/// order.
pub open spec fn occurrences(subsets: Seq<Seq<usize>>, e: int) -> Seq<int>
    decreases subsets.len(),
{
    if subsets.len() == 0 {
        Seq::empty()
    } else {
        occurrences(subsets.drop_last(), e) + occurrences_in(subsets.last(), e, subsets.len() - 1)
    }
}

/// Choosing the subsets true under `a` covers each element `1..=n` exactly
/// once.
pub open spec fn exact_cover_ok(a: spec_fn(int) -> bool, n: int, subsets: Seq<Seq<usize>>) -> bool {
    forall|e: int| 1 <= e <= n ==> exactly_one(a, #[trigger] occurrences(subsets, e))
}

/// The subsets as nested sequences.
pub open spec fn subsets_view(subsets: Seq<Vec<usize>>) -> Seq<Seq<usize>> {
    subsets.map_values(|s: Vec<usize>| s@)
}

/// The choice of subsets as an assignment of their variables.
pub open spec fn choice_fn(sel: Seq<bool>) -> spec_fn(int) -> bool {
    |v: int| 1 <= v <= sel.len() && sel[v - 1]
}

proof fn lemma_occurrences_range(subsets: Seq<Seq<usize>>, e: int)
    ensures
        forall|k: int| 0 <= k < occurrences(subsets, e).len() ==> 1 <= #[trigger] occurrences(subsets, e)[k] <= subsets.len(),
    decreases subsets.len(),
{
    if subsets.len() > 0 {
        lemma_occurrences_range(subsets.drop_last(), e);
        lemma_occurrences_in_range(subsets.last(), e, subsets.len() - 1);
        let p = occurrences(subsets.drop_last(), e);
        let q = occurrences_in(subsets.last(), e, subsets.len() - 1);
        assert forall|k: int| 0 <= k < (p + q).len() implies 1 <= #[trigger] (p + q)[k] <= subsets.len() by {
            if k < p.len() {
                assert((p + q)[k] == p[k]);
            } else {
                assert((p + q)[k] == q[k - p.len()]);
            }
        }
    }
}

proof fn lemma_occurrences_in_range(s: Seq<usize>, e: int, i: int)
    ensures
        forall|k: int| 0 <= k < occurrences_in(s, e, i).len() ==> #[trigger] occurrences_in(s, e, i)[k] == i + 1,
    decreases s.len(),
{
    if s.len() > 0 {
        lemma_occurrences_in_range(s.drop_last(), e, i);
        let p = occurrences_in(s.drop_last(), e, i);
        if s.last() == e {
            assert forall|k: int| 0 <= k < p.push(i + 1).len() implies #[trigger] p.push(i + 1)[k] == i + 1 by {
                if k < p.len() {
                    assert(p.push(i + 1)[k] == p[k]);
                }
            }
        }
    }
}

/// For each element `0..=n`, the variables of the subsets that list it (the
/// element lists of [`occurrences`]).
fn element_lists(n: usize, subsets: &Vec<Vec<usize>>) -> (r: Vec<Vec<i32>>)
    requires
        n < MAX_SUBSETS,
        subsets@.len() < MAX_SUBSETS,
    ensures
        r@.len() == n + 1,
        forall|e: int| 0 <= e <= n ==> var_ints((#[trigger] r@[e])@) == occurrences(subsets_view(subsets@), e),
{
    let ghost sv = subsets_view(subsets@);
    let mut lists: Vec<Vec<i32>> = Vec::new();
    let mut e: usize = 0;
    while e <= n
        invariant
            n < MAX_SUBSETS,
            e <= n + 1,
            lists@.len() == e,
            forall|x: int| 0 <= x < e ==> (#[trigger] lists@[x])@.len() == 0,
        decreases n + 1 - e,
    {
        lists.push(Vec::new());
        e = e + 1;
    }
    let mut i: usize = 0;
    proof {
        assert forall|x: int| 0 <= x <= n implies var_ints((#[trigger] lists@[x])@) == occurrences(sv.take(0), x) by {
            assert(var_ints(lists@[x]@) =~= Seq::<int>::empty());
        }
    }
    while i < subsets.len()
        invariant
            n < MAX_SUBSETS,
            subsets@.len() < MAX_SUBSETS,
            sv == subsets_view(subsets@),
            i <= subsets@.len(),
            lists@.len() == n + 1,
            forall|x: int| 0 <= x <= n ==> var_ints((#[trigger] lists@[x])@) == occurrences(sv.take(i as int), x),
        decreases subsets@.len() - i,
    {
        let s = &subsets[i];
        let ghost l0 = lists@;
        let mut j: usize = 0;
        while j < s.len()
            invariant
                n < MAX_SUBSETS,
                subsets@.len() < MAX_SUBSETS,
                sv == subsets_view(subsets@),
                i < subsets@.len(),
                s@ == sv[i as int],
                j <= s@.len(),
                lists@.len() == n + 1,
                forall|x: int| 0 <= x <= n ==> var_ints((#[trigger] lists@[x])@) == occurrences(sv.take(i as int), x)
                    + occurrences_in(s@.take(j as int), x, i as int),
            decreases s@.len() - j,
        {
            let elem = s[j];
            let ghost lb = lists@;
            proof {
                assert(s@.take(j + 1).drop_last() =~= s@.take(j as int));
                assert(s@.take(j + 1).last() == elem);
            }
            if elem <= n {
                let mut row = lists[elem].clone();
                row.push((i + 1) as i32);
                lists.set(elem, row);
                proof {
                    assert forall|x: int| 0 <= x <= n implies var_ints((#[trigger] lists@[x])@) == occurrences(
                        sv.take(i as int),
                        x,
                    ) + occurrences_in(s@.take(j + 1), x, i as int) by {
                        if x == elem {
                            assert(var_ints(lists@[x]@) =~= var_ints(lb[x]@).push(i + 1));
                        } else {
                            assert(lists@[x] == lb[x]);
                        }
                    }
                }
            } else {
                proof {
                    assert forall|x: int| 0 <= x <= n implies var_ints((#[trigger] lists@[x])@) == occurrences(
                        sv.take(i as int),
                        x,
                    ) + occurrences_in(s@.take(j + 1), x, i as int) by {
                        assert(x != elem);
                    }
                }
            }
            j = j + 1;
        }
        proof {
            assert(s@.take(s@.len() as int) =~= s@);
            assert(sv.take(i + 1).drop_last() =~= sv.take(i as int));
            assert(sv.take(i + 1).last() == sv[i as int]);
            assert forall|x: int| 0 <= x <= n implies var_ints((#[trigger] lists@[x])@) == occurrences(sv.take(i + 1), x) by {}
        }
        i = i + 1;
    }
    proof {
        assert(sv.take(subsets@.len() as int) =~= sv);
    }
    lists
}

/// "Exactly one" depends only on the values of the listed variables.
proof fn lemma_exactly_one_agree(a: spec_fn(int) -> bool, b: spec_fn(int) -> bool, vs: Seq<int>)
    requires
        forall|k: int| 0 <= k < vs.len() ==> a(#[trigger] vs[k]) == b(vs[k]),
    ensures
        exactly_one(a, vs) == exactly_one(b, vs),
{
    if some_true(a, vs) {
        let k = choose|k: int| 0 <= k < vs.len() && #[trigger] a(vs[k]);
        assert(b(vs[k]));
    }
    if some_true(b, vs) {
        let k = choose|k: int| 0 <= k < vs.len() && #[trigger] b(vs[k]);
        assert(a(vs[k]));
    }
    assert(no_two_true(a, vs) == no_two_true(b, vs)) by {
        if no_two_true(a, vs) {
            assert forall|p: int, q: int| 0 <= p < q < vs.len() implies !(#[trigger] b(vs[p]) && #[trigger] b(vs[q])) by {
                assert(!(a(vs[p]) && a(vs[q])));
            }
        }
        if no_two_true(b, vs) {
            assert forall|p: int, q: int| 0 <= p < q < vs.len() implies !(#[trigger] a(vs[p]) && #[trigger] a(vs[q])) by {
                assert(!(b(vs[p]) && b(vs[q])));
            }
        }
    }
}

/// Clauses that hold exactly when the chosen subsets cover every element
/// `1..=num_elements` exactly once (an element no subset lists gives the
/// empty clause).
pub fn generate_exact_cover_clauses(num_elements: usize, subsets: &Vec<Vec<usize>>) -> (r: Vec<Clause>)
    requires
        num_elements < MAX_SUBSETS,
        subsets@.len() < MAX_SUBSETS,
    ensures
        forall|a: spec_fn(int) -> bool| #[trigger]
            formula_sat(a, clauses_formula(r@)) <==> exact_cover_ok(a, num_elements as int, subsets_view(subsets@)),
{
    let ghost sv = subsets_view(subsets@);
    let n = num_elements;
    let lists = element_lists(n, subsets);
    let mut clauses: Vec<Clause> = Vec::new();
    let ghost c0 = clauses@;
    let mut e: usize = 1;
    while e <= n
        invariant
            n < MAX_SUBSETS,
            subsets@.len() < MAX_SUBSETS,
            sv == subsets_view(subsets@),
            lists@.len() == n + 1,
            forall|x: int| 0 <= x <= n ==> var_ints((#[trigger] lists@[x])@) == occurrences(sv, x),
            1 <= e <= n + 1,
            forall|a: spec_fn(int) -> bool| #[trigger] formula_sat(a, clauses_formula(clauses@)) <==> forall|x: int|
                1 <= x < e ==> exactly_one(a, #[trigger] occurrences(sv, x)),
        decreases n + 1 - e,
    {
        let list = &lists[e];
        let ghost occ = occurrences(sv, e as int);
        let ghost c1 = clauses@;
        proof {
            assert(var_ints(list@) == occ);
            lemma_occurrences_range(sv, e as int);
            assert forall|k: int| 0 <= k < list@.len() implies 1 <= #[trigger] list@[k] <= MAX_SUBSETS by {
                assert(var_ints(list@)[k] == list@[k] as int);
            }
        }
        if list.len() == 0 {
            let c = Clause::new(Vec::new());
            clauses.push(c);
            proof {
                assert(clause_ints(c) =~= Seq::<int>::empty());
                assert(clauses_formula(clauses@) =~= clauses_formula(c1).push(Seq::<int>::empty()));
                assert forall|a: spec_fn(int) -> bool| #[trigger] formula_sat(a, clauses_formula(clauses@)) <==> forall|x: int|
                    1 <= x < e + 1 ==> exactly_one(a, #[trigger] occurrences(sv, x)) by {
                    crate::encode::lemma_formula_sat_push(a, clauses_formula(c1), Seq::<int>::empty());
                    assert(!clause_sat(a, Seq::<int>::empty()));
                    assert(occ.len() == 0);
                    if forall|x: int| 1 <= x < e + 1 ==> exactly_one(a, #[trigger] occurrences(sv, x)) {
                        assert(exactly_one(a, occurrences(sv, e as int)));
                    }
                }
            }
        } else {
            push_at_least_one(&mut clauses, list, Ghost(MAX_SUBSETS as int));
            let ghost c2 = clauses@;
            push_at_most_one(&mut clauses, list, Ghost(MAX_SUBSETS as int));
            proof {
                assert forall|a: spec_fn(int) -> bool| #[trigger] formula_sat(a, clauses_formula(clauses@)) <==> forall|x: int|
                    1 <= x < e + 1 ==> exactly_one(a, #[trigger] occurrences(sv, x)) by {
                    assert(formula_sat(a, clauses_formula(c2)) <==> formula_sat(a, clauses_formula(c1)) && some_true(a, occ));
                    if forall|x: int| 1 <= x < e + 1 ==> exactly_one(a, #[trigger] occurrences(sv, x)) {
                        assert(exactly_one(a, occurrences(sv, e as int)));
                    }
                }
            }
        }
        e = e + 1;
    }
    clauses
}

/// Finds subsets that cover every element `1..=num_elements` exactly once.
/// `Ok(Some(sel))` marks the chosen subsets; `Ok(None)` means no choice
/// works.
pub fn solve_exact_cover(num_elements: usize, subsets: &Vec<Vec<usize>>) -> (r: Result<Option<Vec<bool>>, SolverError>)
    requires
        num_elements < MAX_SUBSETS,
        subsets@.len() < MAX_SUBSETS,
    ensures
        r matches Ok(Some(sel)) ==> sel@.len() == subsets@.len() && exact_cover_ok(
            choice_fn(sel@),
            num_elements as int,
            subsets_view(subsets@),
        ),
        r matches Ok(None) ==> forall|a: spec_fn(int) -> bool|
            !#[trigger] exact_cover_ok(a, num_elements as int, subsets_view(subsets@)),
{
    let ghost sv = subsets_view(subsets@);
    let n = num_elements;
    let clauses = generate_exact_cover_clauses(n, subsets);
    let ghost cs = clauses@;
    let ghost f = clauses_formula(cs);
    if !solver_input_fits(&clauses) {
        let mut i: usize = 0;
        while i < clauses.len()
            invariant
                i <= clauses@.len(),
                n == num_elements,
                sv == subsets_view(subsets@),
                cs == clauses@,
                f == clauses_formula(cs),
                forall|a: spec_fn(int) -> bool| #[trigger]
                    formula_sat(a, f) <==> exact_cover_ok(a, n as int, sv),
            decreases clauses@.len() - i,
        {
            if clauses[i].literals.len() == 0 {
                proof {
                    assert forall|a: spec_fn(int) -> bool| !#[trigger] exact_cover_ok(a, n as int, sv) by {
                        if exact_cover_ok(a, n as int, sv) {
                            assert(formula_sat(a, f));
                            assert(f[i as int].len() == 0);
                            assert(clause_sat(a, f[i as int]));
                        }
                    }
                }
                return Ok(None);
            }
            i = i + 1;
        }
        return Err(SolverError::InternalError("Instance too large for the solver".to_string()));
    }
    proof {
        lemma_drop_empty_id(f);
    }
    let mut solver = CDCLSolver::new(clauses);
    proof {
        assert(solver.formula() =~= f);
    }
    match solver.solve() {
        Err(e) => {
            return Err(e);
        },
        Ok(false) => {
            proof {
                assert forall|a: spec_fn(int) -> bool| !#[trigger] exact_cover_ok(a, n as int, sv) by {
                    if exact_cover_ok(a, n as int, sv) {
                        assert(formula_sat(a, f));
                    }
                }
            }
            return Ok(None);
        },
        Ok(true) => {},
    }
    let ghost m = solver.model();
    let ghost nv = solver.nvars();
    let ghost a = |x: int| x <= nv && m(x);
    proof {
        lemma_sat_agree_below_max(cs, m, a);
        assert(exact_cover_ok(a, n as int, sv));
    }
    let mut sel: Vec<bool> = Vec::new();
    let mut i: usize = 0;
    while i < subsets.len()
        invariant
            subsets@.len() < MAX_SUBSETS,
            i <= subsets@.len(),
            solver.inv(),
            m == solver.model(),
            nv == solver.nvars(),
            sel@.len() == i,
            forall|j: int| 0 <= j < i ==> #[trigger] sel@[j] == (j + 1 <= nv && m(j + 1)),
        decreases subsets@.len() - i,
    {
        sel.push(solver.get_value((i + 1) as i32) == Some(true));
        i = i + 1;
    }
    proof {
        let b = choice_fn(sel@);
        assert forall|e: int| 1 <= e <= n implies exactly_one(b, #[trigger] occurrences(sv, e)) by {
            let occ = occurrences(sv, e);
            lemma_occurrences_range(sv, e);
            assert forall|k: int| 0 <= k < occ.len() implies a(#[trigger] occ[k]) == b(occ[k]) by {
                assert(1 <= occ[k] <= sv.len());
                assert(sel@[occ[k] - 1] == (occ[k] - 1 + 1 <= nv && m(occ[k] - 1 + 1)));
            }
            lemma_exactly_one_agree(a, b, occ);
            assert(exactly_one(a, occ));
        }
    }
    Ok(Some(sel))
}

} // verus!
