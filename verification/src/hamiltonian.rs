//! Hamiltonian paths and cycles: an order of the vertices that visits each
//! one exactly once, with consecutive vertices joined by edges (and, for a
//! cycle, the last joined to the first).  Variable `(v - 1) * n + p` says
//! that vertex `v` stands at position `p` (both from 1).
use vstd::prelude::*;
use crate::encode::{
    exactly_one, no_two_true, push_at_least_one, push_at_most_one, push_not_both, some_true, var_ints,
};
use crate::literal::{clauses_formula, clauses_wf, formula_sat, satisfiable, Clause};
use crate::solver::{lemma_drop_empty_id, lemma_sat_agree_below_max, solver_input_fits, CDCLSolver, SolverError};

verus! {

/// The variable "vertex `v` is at position `p`".
pub open spec fn hvar(n: int, v: int, p: int) -> int {
    (v - 1) * n + p
}

/// The position variables of vertex `v`.
pub open spec fn vertex_vars(n: int, v: int) -> Seq<int> {
    Seq::new(n as nat, |i: int| hvar(n, v, i + 1))
}

/// The vertex variables of position `p`.
pub open spec fn position_vars(n: int, p: int) -> Seq<int> {
    Seq::new(n as nat, |i: int| hvar(n, i + 1, p))
}

/// Some edge joins `u` and `v`.
pub open spec fn adjacent(edges: Seq<(usize, usize)>, u: int, v: int) -> bool {
    exists|i: int| 0 <= i < edges.len() && ((edges[i].0 == u && edges[i].1 == v) || (edges[i].0 == v && edges[i].1 == u))
}

/// What the formula says of an assignment: every vertex has one position,
/// every position one vertex, vertices at consecutive positions (and, for a
/// cycle, at the last and the first) are joined by an edge.
pub open spec fn ham_encoding(a: spec_fn(int) -> bool, n: int, edges: Seq<(usize, usize)>, cycle: bool) -> bool {
    &&& forall|v: int| 1 <= v <= n ==> exactly_one(a, #[trigger] vertex_vars(n, v))
    &&& forall|p: int| 1 <= p <= n ==> exactly_one(a, #[trigger] position_vars(n, p))
    &&& forall|p: int, v1: int, v2: int|
        1 <= p < n && 1 <= v1 <= n && 1 <= v2 <= n && v1 != v2 && !adjacent(edges, v1, v2) ==> !(a(
            #[trigger] hvar(n, v1, p),
        ) && a(#[trigger] hvar(n, v2, p + 1)))
    &&& cycle ==> forall|v1: int, v2: int|
        1 <= v1 <= n && 1 <= v2 <= n && v1 != v2 && !adjacent(edges, v1, v2) ==> !(a(
            #[trigger] hvar(n, v1, n),
        ) && a(#[trigger] hvar(n, v2, 1)))
}

/// `path` visits every vertex `1..=n` exactly once, consecutive vertices
/// are joined by an edge, and for a cycle the last is joined to the first.
pub open spec fn ham_ok(path: Seq<int>, n: int, edges: Seq<(usize, usize)>, cycle: bool) -> bool {
    &&& path.len() == n
    &&& forall|i: int| 0 <= i < n ==> 1 <= #[trigger] path[i] <= n
    &&& forall|i: int, j: int| 0 <= i < j < n ==> #[trigger] path[i] != #[trigger] path[j]
    &&& forall|v: int| 1 <= v <= n ==> #[trigger] path.contains(v)
    &&& forall|i: int| 0 <= i < n - 1 ==> adjacent(edges, #[trigger] path[i], path[i + 1])
    &&& cycle && n >= 2 ==> adjacent(edges, path[n - 1], path[0])
}

/// The edges mention only vertices up to `n`.
pub open spec fn edges_within(edges: Seq<(usize, usize)>, n: int) -> bool {
    forall|i: int| 0 <= i < edges.len() ==> (#[trigger] edges[i]).0 <= n && edges[i].1 <= n
}

proof fn lemma_hvar_range(n: int, v: int, p: int)
    requires
        1 <= v <= n,
        1 <= p <= n,
    ensures
        1 <= hvar(n, v, p) <= n * n,
{
    assert((v - 1) * n + p <= n * n) by (nonlinear_arith)
        requires 1 <= v <= n, 1 <= p <= n;
    assert((v - 1) * n >= 0) by (nonlinear_arith)
        requires 1 <= v, 1 <= n;
}

/// The adjacency matrix of the edges, indexed `0..=n` both ways.
fn adjacency(n: usize, edges: &Vec<(usize, usize)>) -> (m: Vec<Vec<bool>>)
    requires
        edges_within(edges@, n as int),
        n < 0x8000,
    ensures
        m@.len() == n + 1,
        forall|u: int| 0 <= u <= n ==> (#[trigger] m@[u])@.len() == n + 1,
        forall|u: int, v: int| 0 <= u <= n && 0 <= v <= n ==> #[trigger] m@[u]@[v] == adjacent(edges@, u, v),
{
    let mut m: Vec<Vec<bool>> = Vec::new();
    let mut u: usize = 0;
    while u <= n
        invariant
            n < 0x8000,
            u <= n + 1,
            m@.len() == u,
            forall|x: int| 0 <= x < u ==> (#[trigger] m@[x])@.len() == n + 1 && forall|y: int|
                0 <= y <= n ==> !m@[x]@[y],
        decreases n + 1 - u,
    {
        let mut row: Vec<bool> = Vec::new();
        let mut v: usize = 0;
        while v <= n
            invariant
                n < 0x8000,
                v <= n + 1,
                row@.len() == v,
                forall|y: int| 0 <= y < v ==> !#[trigger] row@[y],
            decreases n + 1 - v,
        {
            row.push(false);
            v = v + 1;
        }
        m.push(row);
        u = u + 1;
    }
    let mut i: usize = 0;
    while i < edges.len()
        invariant
            n < 0x8000,
            edges_within(edges@, n as int),
            i <= edges@.len(),
            m@.len() == n + 1,
            forall|x: int| 0 <= x <= n ==> (#[trigger] m@[x])@.len() == n + 1,
            forall|x: int, y: int| 0 <= x <= n && 0 <= y <= n ==> #[trigger] m@[x]@[y] == adjacent(
                edges@.take(i as int),
                x,
                y,
            ),
        decreases edges@.len() - i,
    {
        let (a, b) = edges[i];
        proof {
            assert(edges@[i as int].0 <= n && edges@[i as int].1 <= n);
        }
        let ghost m0 = m@;
        let mut ra = m[a].clone();
        ra.set(b, true);
        m.set(a, ra);
        let mut rb = m[b].clone();
        rb.set(a, true);
        m.set(b, rb);
        proof {
            let t0 = edges@.take(i as int);
            let t1 = edges@.take(i + 1);
            assert forall|x: int, y: int| 0 <= x <= n && 0 <= y <= n implies #[trigger] m@[x]@[y] == adjacent(t1, x, y) by {
                let hit = (x == a && y == b) || (x == b && y == a);
                if adjacent(t0, x, y) {
                    let k = choose|k: int| 0 <= k < t0.len() && ((t0[k].0 == x && t0[k].1 == y) || (t0[k].0 == y && t0[k].1 == x));
                    assert(t1[k] == t0[k]);
                }
                if hit {
                    assert(t1[i as int] == (a, b));
                }
                if adjacent(t1, x, y) {
                    let k = choose|k: int| 0 <= k < t1.len() && ((t1[k].0 == x && t1[k].1 == y) || (t1[k].0 == y && t1[k].1 == x));
                    if k < i {
                        assert(t0[k] == t1[k]);
                    }
                }
            }
        }
        i = i + 1;
    }
    proof {
        assert(edges@.take(edges@.len() as int) =~= edges@);
    }
    m
}

/// The variables of vertex `v` (`by_vertex`) or of position `v`.
fn group_vars(n: usize, v: usize, by_vertex: bool) -> (r: Vec<i32>)
    requires
        1 <= v <= n,
        n < 0x8000,
    ensures
        var_ints(r@) == group(n as int, v as int, by_vertex),
        forall|k: int| 0 <= k < r@.len() ==> 1 <= #[trigger] r@[k] <= n * n,
{
    let mut r: Vec<i32> = Vec::new();
    let mut i: usize = 1;
    while i <= n
        invariant
            1 <= v <= n,
            n < 0x8000,
            1 <= i <= n + 1,
            r@.len() == i - 1,
            forall|k: int| 0 <= k < r@.len() ==> #[trigger] r@[k] == if by_vertex {
                hvar(n as int, v as int, k + 1)
            } else {
                hvar(n as int, k + 1, v as int)
            },
            forall|k: int| 0 <= k < r@.len() ==> 1 <= #[trigger] r@[k] <= n * n,
        decreases n + 1 - i,
    {
        proof {
            lemma_hvar_range(n as int, v as int, i as int);
            lemma_hvar_range(n as int, i as int, v as int);
            assert(n * n < 0x4000_0000) by (nonlinear_arith)
                requires n < 0x8000;
        }
        let x = if by_vertex { (v - 1) * n + i } else { (i - 1) * n + v };
        r.push(x as i32);
        i = i + 1;
    }
    proof {
        if by_vertex {
            assert(var_ints(r@) =~= vertex_vars(n as int, v as int));
        } else {
            assert(var_ints(r@) =~= position_vars(n as int, v as int));
        }
    }
    r
}

/// The groups `1..k` (vertices or positions) have at least one true
/// variable (`alo`) or no two true variables.
pub open spec fn groups_part(a: spec_fn(int) -> bool, n: int, k: int, by_vertex: bool, alo: bool) -> bool {
    forall|v: int| 1 <= v < k ==> group_holds(a, #[trigger] group(n, v, by_vertex), alo)
}

/// The variables of vertex `v` (`by_vertex`) or of position `v`.
pub open spec fn group(n: int, v: int, by_vertex: bool) -> Seq<int> {
    if by_vertex { vertex_vars(n, v) } else { position_vars(n, v) }
}

/// At least one (`alo`) or at most one of the variables `g` is true.
pub open spec fn group_holds(a: spec_fn(int) -> bool, g: Seq<int>, alo: bool) -> bool {
    if alo { some_true(a, g) } else { no_two_true(a, g) }
}

/// Appends, for every vertex (or position), "at least one" (`alo`) or "at
/// most one" of its variables.
fn push_groups(clauses: &mut Vec<Clause>, n: usize, by_vertex: bool, alo: bool)
    requires
        n < 0x8000,
    ensures
        forall|a: spec_fn(int) -> bool|
            #[trigger] formula_sat(a, clauses_formula(final(clauses)@)) <==> formula_sat(
                a,
                clauses_formula(old(clauses)@),
            ) && groups_part(a, n as int, n + 1, by_vertex, alo),
{
    let ghost c0 = clauses@;
    let mut v: usize = 1;
    while v <= n
        invariant
            n < 0x8000,
            1 <= v <= n + 1,
            forall|a: spec_fn(int) -> bool|
                #[trigger] formula_sat(a, clauses_formula(clauses@)) <==> formula_sat(a, clauses_formula(c0))
                    && groups_part(a, n as int, v as int, by_vertex, alo),
        decreases n + 1 - v,
    {
        let g = group_vars(n, v, by_vertex);
        let ghost c1 = clauses@;
        if alo {
            push_at_least_one(clauses, &g, Ghost((n * n) as int));
        } else {
            push_at_most_one(clauses, &g, Ghost((n * n) as int));
        }
        proof {
            assert forall|a: spec_fn(int) -> bool| #[trigger]
                formula_sat(a, clauses_formula(clauses@)) <==> formula_sat(a, clauses_formula(c0))
                    && groups_part(a, n as int, v + 1, by_vertex, alo) by {
                assert(formula_sat(a, clauses_formula(c1)) <==> formula_sat(a, clauses_formula(c0))
                    && groups_part(a, n as int, v as int, by_vertex, alo));
                let gv = group(n as int, v as int, by_vertex);
                let here = group_holds(a, gv, alo);
                assert(formula_sat(a, clauses_formula(clauses@)) <==> formula_sat(a, clauses_formula(c1)) && here);
                if groups_part(a, n as int, v + 1, by_vertex, alo) {
                    assert(here);
                }
            }
        }
        v = v + 1;
    }
}

/// The consecutive pairs `(p, v1, v2)` visited before `(p0, w1, w2)` (in
/// the order p, then v1, then v2) respect the edges.
pub open spec fn steps_part(a: spec_fn(int) -> bool, n: int, edges: Seq<(usize, usize)>, p0: int, w1: int, w2: int) -> bool {
    forall|p: int, v1: int, v2: int|
        1 <= p < n && 1 <= v1 <= n && 1 <= v2 <= n && v1 != v2 && !adjacent(edges, v1, v2) && (p < p0 || (p == p0
            && (v1 < w1 || (v1 == w1 && v2 < w2)))) ==> !(a(#[trigger] hvar(n, v1, p)) && a(
            #[trigger] hvar(n, v2, p + 1),
        ))
}

/// The pairs `(v1, v2)` at the last and first positions visited before
/// `(w1, w2)` respect the edges.
pub open spec fn wrap_part(a: spec_fn(int) -> bool, n: int, edges: Seq<(usize, usize)>, w1: int, w2: int) -> bool {
    forall|v1: int, v2: int|
        1 <= v1 <= n && 1 <= v2 <= n && v1 != v2 && !adjacent(edges, v1, v2) && (v1 < w1 || (v1 == w1 && v2 < w2))
            ==> !(a(#[trigger] hvar(n, v1, n)) && a(#[trigger] hvar(n, v2, 1)))
}

/// Appends, for every position `p` in `1..n`, "no two vertices without an
/// edge stand at `p` and `p + 1`".
fn push_steps(clauses: &mut Vec<Clause>, n: usize, adj: &Vec<Vec<bool>>, Ghost(edges): Ghost<Seq<(usize, usize)>>)
    requires
        n < 0x8000,
        adj@.len() == n + 1,
        forall|u: int| 0 <= u <= n ==> (#[trigger] adj@[u])@.len() == n + 1,
        forall|u: int, v: int| 0 <= u <= n && 0 <= v <= n ==> #[trigger] adj@[u]@[v] == adjacent(edges, u, v),
    ensures
        forall|a: spec_fn(int) -> bool|
            #[trigger] formula_sat(a, clauses_formula(final(clauses)@)) <==> formula_sat(
                a,
                clauses_formula(old(clauses)@),
            ) && steps_part(a, n as int, edges, n as int, 1, 1),
{
    let ghost c0 = clauses@;
    proof {
        assert(n * n < 0x4000_0000) by (nonlinear_arith)
            requires n < 0x8000;
    }
    let mut p: usize = 1;
    while p < n
        invariant
            n < 0x8000,
            n * n < 0x4000_0000,
            adj@.len() == n + 1,
            forall|u: int| 0 <= u <= n ==> (#[trigger] adj@[u])@.len() == n + 1,
            forall|u: int, v: int| 0 <= u <= n && 0 <= v <= n ==> #[trigger] adj@[u]@[v] == adjacent(edges, u, v),
            1 <= p <= n || n == 0,
            forall|a: spec_fn(int) -> bool|
                #[trigger] formula_sat(a, clauses_formula(clauses@)) <==> formula_sat(a, clauses_formula(c0))
                    && steps_part(a, n as int, edges, p as int, 1, 1),
        decreases n - p,
    {
        let mut v1: usize = 1;
        while v1 <= n
            invariant
                n < 0x8000,
                n * n < 0x4000_0000,
                adj@.len() == n + 1,
                forall|u: int| 0 <= u <= n ==> (#[trigger] adj@[u])@.len() == n + 1,
                forall|u: int, v: int| 0 <= u <= n && 0 <= v <= n ==> #[trigger] adj@[u]@[v] == adjacent(edges, u, v),
                1 <= p < n,
                1 <= v1 <= n + 1,
                forall|a: spec_fn(int) -> bool|
                    #[trigger] formula_sat(a, clauses_formula(clauses@)) <==> formula_sat(a, clauses_formula(c0))
                        && steps_part(a, n as int, edges, p as int, v1 as int, 1),
            decreases n + 1 - v1,
        {
            let mut v2: usize = 1;
            while v2 <= n
                invariant
                    n < 0x8000,
                    n * n < 0x4000_0000,
                    adj@.len() == n + 1,
                    forall|u: int| 0 <= u <= n ==> (#[trigger] adj@[u])@.len() == n + 1,
                    forall|u: int, v: int| 0 <= u <= n && 0 <= v <= n ==> #[trigger] adj@[u]@[v] == adjacent(edges, u, v),
                    1 <= p < n,
                    1 <= v1 <= n,
                    1 <= v2 <= n + 1,
                    forall|a: spec_fn(int) -> bool|
                        #[trigger] formula_sat(a, clauses_formula(clauses@)) <==> formula_sat(a, clauses_formula(c0))
                            && steps_part(a, n as int, edges, p as int, v1 as int, v2 as int),
                decreases n + 1 - v2,
            {
                let ghost c1 = clauses@;
                proof {
                    lemma_hvar_range(n as int, v1 as int, p as int);
                    lemma_hvar_range(n as int, v2 as int, p + 1);
                }
                if v1 != v2 && !adj[v1][v2] {
                    let x = ((v1 - 1) * n + p) as i32;
                    let y = ((v2 - 1) * n + p + 1) as i32;
                    push_not_both(clauses, x, y);
                    proof {
                        assert forall|a: spec_fn(int) -> bool| #[trigger]
                            formula_sat(a, clauses_formula(clauses@)) <==> formula_sat(a, clauses_formula(c0))
                                && steps_part(a, n as int, edges, p as int, v1 as int, v2 + 1) by {
                            assert(formula_sat(a, clauses_formula(c1)) <==> formula_sat(a, clauses_formula(c0))
                                && steps_part(a, n as int, edges, p as int, v1 as int, v2 as int));
                            assert(x == hvar(n as int, v1 as int, p as int));
                            assert(y == hvar(n as int, v2 as int, p + 1));
                        }
                    }
                } else {
                    proof {
                        assert forall|a: spec_fn(int) -> bool|
                            #[trigger] steps_part(a, n as int, edges, p as int, v1 as int, v2 as int) implies steps_part(
                                a,
                                n as int,
                                edges,
                                p as int,
                                v1 as int,
                                v2 + 1,
                            ) by {
                            if v1 != v2 {
                                assert(adjacent(edges, v1 as int, v2 as int));
                            }
                        }
                    }
                }
                v2 = v2 + 1;
            }
            v1 = v1 + 1;
        }
        p = p + 1;
    }
}

/// Appends "no two vertices without an edge stand at positions `n` and 1".
fn push_wrap(clauses: &mut Vec<Clause>, n: usize, adj: &Vec<Vec<bool>>, Ghost(edges): Ghost<Seq<(usize, usize)>>)
    requires
        n < 0x8000,
        adj@.len() == n + 1,
        forall|u: int| 0 <= u <= n ==> (#[trigger] adj@[u])@.len() == n + 1,
        forall|u: int, v: int| 0 <= u <= n && 0 <= v <= n ==> #[trigger] adj@[u]@[v] == adjacent(edges, u, v),
    ensures
        forall|a: spec_fn(int) -> bool|
            #[trigger] formula_sat(a, clauses_formula(final(clauses)@)) <==> formula_sat(
                a,
                clauses_formula(old(clauses)@),
            ) && wrap_part(a, n as int, edges, n + 1, 1),
{
    let ghost c0 = clauses@;
    proof {
        assert(n * n < 0x4000_0000) by (nonlinear_arith)
            requires n < 0x8000;
    }
    let mut v1: usize = 1;
    while v1 <= n
        invariant
            n < 0x8000,
            n * n < 0x4000_0000,
            adj@.len() == n + 1,
            forall|u: int| 0 <= u <= n ==> (#[trigger] adj@[u])@.len() == n + 1,
            forall|u: int, v: int| 0 <= u <= n && 0 <= v <= n ==> #[trigger] adj@[u]@[v] == adjacent(edges, u, v),
            1 <= v1 <= n + 1,
            forall|a: spec_fn(int) -> bool|
                #[trigger] formula_sat(a, clauses_formula(clauses@)) <==> formula_sat(a, clauses_formula(c0))
                    && wrap_part(a, n as int, edges, v1 as int, 1),
        decreases n + 1 - v1,
    {
        let mut v2: usize = 1;
        while v2 <= n
            invariant
                n < 0x8000,
                n * n < 0x4000_0000,
                adj@.len() == n + 1,
                forall|u: int| 0 <= u <= n ==> (#[trigger] adj@[u])@.len() == n + 1,
                forall|u: int, v: int| 0 <= u <= n && 0 <= v <= n ==> #[trigger] adj@[u]@[v] == adjacent(edges, u, v),
                1 <= v1 <= n,
                1 <= v2 <= n + 1,
                forall|a: spec_fn(int) -> bool|
                    #[trigger] formula_sat(a, clauses_formula(clauses@)) <==> formula_sat(a, clauses_formula(c0))
                        && wrap_part(a, n as int, edges, v1 as int, v2 as int),
            decreases n + 1 - v2,
        {
            let ghost c1 = clauses@;
            proof {
                lemma_hvar_range(n as int, v1 as int, n as int);
                lemma_hvar_range(n as int, v2 as int, 1);
            }
            if v1 != v2 && !adj[v1][v2] {
                let x = ((v1 - 1) * n + n) as i32;
                let y = ((v2 - 1) * n + 1) as i32;
                push_not_both(clauses, x, y);
                proof {
                    assert forall|a: spec_fn(int) -> bool| #[trigger]
                        formula_sat(a, clauses_formula(clauses@)) <==> formula_sat(a, clauses_formula(c0))
                            && wrap_part(a, n as int, edges, v1 as int, v2 + 1) by {
                        assert(formula_sat(a, clauses_formula(c1)) <==> formula_sat(a, clauses_formula(c0))
                            && wrap_part(a, n as int, edges, v1 as int, v2 as int));
                        assert(x == hvar(n as int, v1 as int, n as int));
                        assert(y == hvar(n as int, v2 as int, 1));
                    }
                }
            } else {
                proof {
                    assert forall|a: spec_fn(int) -> bool|
                        #[trigger] wrap_part(a, n as int, edges, v1 as int, v2 as int) implies wrap_part(
                            a,
                            n as int,
                            edges,
                            v1 as int,
                            v2 + 1,
                        ) by {
                        if v1 != v2 {
                            assert(adjacent(edges, v1 as int, v2 as int));
                        }
                    }
                }
            }
            v2 = v2 + 1;
        }
        v1 = v1 + 1;
    }
}

/// Clauses that hold exactly when the assignment places the `n` vertices
/// along a Hamiltonian path of the graph (a cycle when `find_cycle`).
pub fn generate_hamiltonian_clauses(num_vertices: usize, edges: &Vec<(usize, usize)>, find_cycle: bool) -> (r: Vec<Clause>)
    requires
        num_vertices < 0x8000,
        edges_within(edges@, num_vertices as int),
    ensures
        forall|a: spec_fn(int) -> bool| #[trigger]
            formula_sat(a, clauses_formula(r@)) <==> ham_encoding(a, num_vertices as int, edges@, find_cycle),
{
    let n = num_vertices;
    let adj = adjacency(n, edges);
    let mut clauses: Vec<Clause> = Vec::new();
    let ghost c0 = clauses@;
    push_groups(&mut clauses, n, true, true);
    let ghost c1 = clauses@;
    push_groups(&mut clauses, n, true, false);
    let ghost c2 = clauses@;
    push_groups(&mut clauses, n, false, true);
    let ghost c3 = clauses@;
    push_groups(&mut clauses, n, false, false);
    let ghost c4 = clauses@;
    push_steps(&mut clauses, n, &adj, Ghost(edges@));
    let ghost c5 = clauses@;
    if find_cycle {
        push_wrap(&mut clauses, n, &adj, Ghost(edges@));
    }
    proof {
        let ni = n as int;
        assert forall|a: spec_fn(int) -> bool| #[trigger]
            formula_sat(a, clauses_formula(clauses@)) <==> ham_encoding(a, ni, edges@, find_cycle) by {
            assert(formula_sat(a, clauses_formula(c0)));
            let vert = groups_part(a, ni, ni + 1, true, true) && groups_part(a, ni, ni + 1, true, false);
            let posi = groups_part(a, ni, ni + 1, false, true) && groups_part(a, ni, ni + 1, false, false);
            let steps = steps_part(a, ni, edges@, ni, 1, 1);
            let wrap = find_cycle ==> wrap_part(a, ni, edges@, ni + 1, 1);
            assert(formula_sat(a, clauses_formula(c5)) <==> vert && posi && steps);
            assert(formula_sat(a, clauses_formula(clauses@)) <==> vert && posi && steps && wrap);
            assert(vert <==> forall|v: int| 1 <= v <= ni ==> exactly_one(a, #[trigger] vertex_vars(ni, v))) by {
                if vert {
                    assert forall|v: int| 1 <= v <= ni implies exactly_one(a, #[trigger] vertex_vars(ni, v)) by {
                        assert(group_holds(a, group(ni, v, true), true));
                        assert(group_holds(a, group(ni, v, true), false));
                    }
                }
                if forall|v: int| 1 <= v <= ni ==> exactly_one(a, #[trigger] vertex_vars(ni, v)) {
                    assert forall|v: int| 1 <= v < ni + 1 implies group_holds(a, #[trigger] group(ni, v, true), true) by {
                        assert(exactly_one(a, vertex_vars(ni, v)));
                    }
                    assert forall|v: int| 1 <= v < ni + 1 implies group_holds(a, #[trigger] group(ni, v, true), false) by {
                        assert(exactly_one(a, vertex_vars(ni, v)));
                    }
                }
            }
            assert(posi <==> forall|p: int| 1 <= p <= ni ==> exactly_one(a, #[trigger] position_vars(ni, p))) by {
                if posi {
                    assert forall|p: int| 1 <= p <= ni implies exactly_one(a, #[trigger] position_vars(ni, p)) by {
                        assert(group_holds(a, group(ni, p, false), true));
                        assert(group_holds(a, group(ni, p, false), false));
                    }
                }
                if forall|p: int| 1 <= p <= ni ==> exactly_one(a, #[trigger] position_vars(ni, p)) {
                    assert forall|p: int| 1 <= p < ni + 1 implies group_holds(a, #[trigger] group(ni, p, false), true) by {
                        assert(exactly_one(a, position_vars(ni, p)));
                    }
                    assert forall|p: int| 1 <= p < ni + 1 implies group_holds(a, #[trigger] group(ni, p, false), false) by {
                        assert(exactly_one(a, position_vars(ni, p)));
                    }
                }
            }
        }
    }
    clauses
}

/// The assignment that places vertex `path[p - 1]` at position `p`.
pub open spec fn path_assignment(path: Seq<int>, n: int) -> spec_fn(int) -> bool {
    |x: int| n > 0 && 1 <= x <= n * n && path[(x - 1) % n] == (x - 1) / n + 1
}

proof fn lemma_path_assignment(path: Seq<int>, n: int, v: int, p: int)
    requires
        1 <= v <= n,
        1 <= p <= n,
    ensures
        path_assignment(path, n)(hvar(n, v, p)) == (path[p - 1] == v),
{
    lemma_hvar_range(n, v, p);
    vstd::arithmetic::div_mod::lemma_fundamental_div_mod_converse((v - 1) * n + (p - 1), n, v - 1, p - 1);
}

/// Every Hamiltonian path (or cycle) gives an assignment that satisfies the
/// formula: the formula is satisfiable whenever the graph has one.
pub proof fn lemma_hamiltonian_complete(path: Seq<int>, n: int, edges: Seq<(usize, usize)>, cycle: bool)
    requires
        ham_ok(path, n, edges, cycle),
    ensures
        ham_encoding(path_assignment(path, n), n, edges, cycle),
{
    let a = path_assignment(path, n);
    assert forall|v: int| 1 <= v <= n implies exactly_one(a, #[trigger] vertex_vars(n, v)) by {
        let g = vertex_vars(n, v);
        assert(path.contains(v));
        let i = choose|i: int| 0 <= i < path.len() && path[i] == v;
        lemma_path_assignment(path, n, v, i + 1);
        assert(a(g[i]));
        assert forall|x: int, y: int| 0 <= x < y < g.len() implies !(#[trigger] a(g[x]) && #[trigger] a(g[y])) by {
            lemma_path_assignment(path, n, v, x + 1);
            lemma_path_assignment(path, n, v, y + 1);
        }
    }
    assert forall|p: int| 1 <= p <= n implies exactly_one(a, #[trigger] position_vars(n, p)) by {
        let g = position_vars(n, p);
        let v = path[p - 1];
        lemma_path_assignment(path, n, v, p);
        assert(a(g[v - 1]));
        assert forall|x: int, y: int| 0 <= x < y < g.len() implies !(#[trigger] a(g[x]) && #[trigger] a(g[y])) by {
            lemma_path_assignment(path, n, x + 1, p);
            lemma_path_assignment(path, n, y + 1, p);
        }
    }
    assert forall|p: int, v1: int, v2: int|
        1 <= p < n && 1 <= v1 <= n && 1 <= v2 <= n && v1 != v2 && !adjacent(edges, v1, v2) implies !(a(
            #[trigger] hvar(n, v1, p),
        ) && a(#[trigger] hvar(n, v2, p + 1))) by {
        lemma_path_assignment(path, n, v1, p);
        lemma_path_assignment(path, n, v2, p + 1);
        assert(adjacent(edges, path[p - 1], path[p - 1 + 1]));
    }
    if cycle {
        assert forall|v1: int, v2: int|
            1 <= v1 <= n && 1 <= v2 <= n && v1 != v2 && !adjacent(edges, v1, v2) implies !(a(
                #[trigger] hvar(n, v1, n),
            ) && a(#[trigger] hvar(n, v2, 1))) by {
            lemma_path_assignment(path, n, v1, n);
            lemma_path_assignment(path, n, v2, 1);
        }
    }
}

proof fn lemma_vertex_unique(a: spec_fn(int) -> bool, n: int, v: int, p1: int, p2: int)
    requires
        no_two_true(a, vertex_vars(n, v)),
        1 <= p1 <= n,
        1 <= p2 <= n,
        a(hvar(n, v, p1)),
        a(hvar(n, v, p2)),
    ensures
        p1 == p2,
{
    let g = vertex_vars(n, v);
    assert(g[p1 - 1] == hvar(n, v, p1));
    assert(g[p2 - 1] == hvar(n, v, p2));
    if p1 < p2 {
        assert(!(a(g[p1 - 1]) && a(g[p2 - 1])));
    } else if p2 < p1 {
        assert(!(a(g[p2 - 1]) && a(g[p1 - 1])));
    }
}

proof fn lemma_position_unique(a: spec_fn(int) -> bool, n: int, p: int, v1: int, v2: int)
    requires
        no_two_true(a, position_vars(n, p)),
        1 <= v1 <= n,
        1 <= v2 <= n,
        a(hvar(n, v1, p)),
        a(hvar(n, v2, p)),
    ensures
        v1 == v2,
{
    let g = position_vars(n, p);
    assert(g[v1 - 1] == hvar(n, v1, p));
    assert(g[v2 - 1] == hvar(n, v2, p));
    if v1 < v2 {
        assert(!(a(g[v1 - 1]) && a(g[v2 - 1])));
    } else if v2 < v1 {
        assert(!(a(g[v2 - 1]) && a(g[v1 - 1])));
    }
}

/// The path is a Hamiltonian path (cycle) when each position holds the
/// vertex the assignment places there.
proof fn lemma_extracted_path(a: spec_fn(int) -> bool, path: Seq<int>, n: int, edges: Seq<(usize, usize)>, cycle: bool)
    requires
        ham_encoding(a, n, edges, cycle),
        path.len() == n,
        forall|q: int| 0 <= q < n ==> 1 <= #[trigger] path[q] <= n && a(hvar(n, path[q], q + 1)),
    ensures
        ham_ok(path, n, edges, cycle),
{
    assert forall|i: int, j: int| 0 <= i < j < n implies #[trigger] path[i] != #[trigger] path[j] by {
        if path[i] == path[j] {
            assert(exactly_one(a, vertex_vars(n, path[i])));
            lemma_vertex_unique(a, n, path[i], i + 1, j + 1);
        }
    }
    assert forall|v: int| 1 <= v <= n implies #[trigger] path.contains(v) by {
        let g = vertex_vars(n, v);
        assert(exactly_one(a, g));
        let k = choose|k: int| 0 <= k < g.len() && #[trigger] a(g[k]);
        assert(a(hvar(n, v, k + 1)));
        assert(exactly_one(a, position_vars(n, k + 1)));
        lemma_position_unique(a, n, k + 1, v, path[k]);
        assert(path[k] == v);
    }
    assert forall|i: int| 0 <= i < n - 1 implies adjacent(edges, #[trigger] path[i], path[i + 1]) by {
        assert(path[i] != path[i + 1]);
        assert(a(hvar(n, path[i], i + 1)));
        assert(a(hvar(n, path[i + 1], i + 1 + 1)));
    }
    if cycle && n >= 2 {
        assert(path[n - 1] != path[0]);
        assert(a(hvar(n, path[n - 1], n - 1 + 1)));
        assert(a(hvar(n, path[0], 0int + 1)));
    }
}

/// Searches for a Hamiltonian path (cycle when `find_cycle`) of the graph on
/// vertices `1..=num_vertices`.  `Ok(Some(path))` lists the vertices in
/// order; `Ok(None)` means the graph has none.
pub fn find_hamiltonian(num_vertices: usize, edges: &Vec<(usize, usize)>, find_cycle: bool) -> (r: Result<
    Option<Vec<usize>>,
    SolverError,
>)
    requires
        num_vertices < 0x8000,
        edges_within(edges@, num_vertices as int),
    ensures
        r matches Ok(Some(path)) ==> ham_ok(
            path@.map_values(|v: usize| v as int),
            num_vertices as int,
            edges@,
            find_cycle,
        ),
        r matches Ok(None) ==> forall|path: Seq<int>|
            !#[trigger] ham_ok(path, num_vertices as int, edges@, find_cycle),
{
    let n = num_vertices;
    let clauses = generate_hamiltonian_clauses(n, edges, find_cycle);
    if !solver_input_fits(&clauses) {
        return Err(SolverError::InternalError("Graph too large for the solver".to_string()));
    }
    let ghost cs = clauses@;
    let ghost f = clauses_formula(cs);
    proof {
        lemma_drop_empty_id(f);
    }
    let mut solver = CDCLSolver::new(clauses);
    proof {
        assert(solver.formula() =~= f);
    }
    match solver.solve() {
        Err(e) => {
            return Err(e);
        },
        Ok(false) => {
            proof {
                assert forall|path: Seq<int>| !#[trigger] ham_ok(path, n as int, edges@, find_cycle) by {
                    if ham_ok(path, n as int, edges@, find_cycle) {
                        lemma_hamiltonian_complete(path, n as int, edges@, find_cycle);
                        assert(formula_sat(path_assignment(path, n as int), f));
                    }
                }
            }
            return Ok(None);
        },
        Ok(true) => {},
    }
    let ghost m = solver.model();
    let ghost nv = solver.nvars();
    let ghost a = |x: int| x <= nv && m(x);
    proof {
        lemma_sat_agree_below_max(cs, m, a);
        assert(ham_encoding(a, n as int, edges@, find_cycle));
        assert(n * n < 0x4000_0000) by (nonlinear_arith)
            requires n < 0x8000;
    }
    let mut path: Vec<usize> = Vec::new();
    let mut i: usize = 0;
    while i < n
        invariant
            i <= n,
            path@.len() == i,
            forall|q: int| 0 <= q < i ==> #[trigger] path@[q] == 0,
        decreases n - i,
    {
        path.push(0);
        i = i + 1;
    }
    let mut v: usize = 1;
    while v <= n
        invariant
            n < 0x8000,
            n * n < 0x4000_0000,
            1 <= v <= n + 1,
            solver.inv(),
            m == solver.model(),
            nv == solver.nvars(),
            a == (|x: int| x <= nv && m(x)),
            ham_encoding(a, n as int, edges@, find_cycle),
            path@.len() == n,
            forall|q: int| 0 <= q < n && #[trigger] path@[q] != 0 ==> 1 <= path@[q] < v && a(
                hvar(n as int, path@[q] as int, q + 1),
            ),
            forall|w: int, p: int| 1 <= w < v && 1 <= p <= n && #[trigger] a(hvar(n as int, w, p)) ==> path@[p - 1] == w,
        decreases n + 1 - v,
    {
        let mut p: usize = 1;
        let mut found = false;
        while p <= n
            invariant
                n < 0x8000,
                n * n < 0x4000_0000,
                1 <= v <= n,
                1 <= p <= n + 1,
                solver.inv(),
                m == solver.model(),
                nv == solver.nvars(),
                a == (|x: int| x <= nv && m(x)),
                ham_encoding(a, n as int, edges@, find_cycle),
                path@.len() == n,
                forall|q: int| 0 <= q < n && #[trigger] path@[q] != 0 ==> 1 <= path@[q] <= v && a(
                    hvar(n as int, path@[q] as int, q + 1),
                ),
                forall|w: int, p2: int| 1 <= w < v && 1 <= p2 <= n && #[trigger] a(hvar(n as int, w, p2)) ==> path@[p2 - 1] == w,
                !found ==> forall|p2: int| 1 <= p2 < p ==> !#[trigger] a(hvar(n as int, v as int, p2)),
                found ==> forall|p2: int| 1 <= p2 <= n && #[trigger] a(hvar(n as int, v as int, p2)) ==> path@[p2 - 1] == v,
            decreases n + 1 - p,
        {
            proof {
                lemma_hvar_range(n as int, v as int, p as int);
            }
            let x = ((v - 1) * n + p) as i32;
            if !found && solver.get_value(x) == Some(true) {
                proof {
                    assert(a(hvar(n as int, v as int, p as int)));
                    let old_val = path@[p - 1];
                    if old_val != 0 {
                        assert(exactly_one(a, position_vars(n as int, p as int)));
                        lemma_position_unique(a, n as int, p as int, old_val as int, v as int);
                    }
                    assert forall|p2: int| 1 <= p2 <= n && #[trigger] a(hvar(n as int, v as int, p2)) implies p2 == p by {
                        assert(exactly_one(a, vertex_vars(n as int, v as int)));
                        lemma_vertex_unique(a, n as int, v as int, p2, p as int);
                    }
                }
                path.set(p - 1, v);
                found = true;
            }
            p = p + 1;
        }
        proof {
            if !found {
                let g = vertex_vars(n as int, v as int);
                assert(exactly_one(a, g));
                let k = choose|k: int| 0 <= k < g.len() && #[trigger] a(g[k]);
                assert(a(hvar(n as int, v as int, k + 1)));
            }
        }
        v = v + 1;
    }
    proof {
        let ps = path@.map_values(|x: usize| x as int);
        assert forall|q: int| 0 <= q < n implies 1 <= #[trigger] ps[q] <= n && a(hvar(n as int, ps[q], q + 1)) by {
            let g = position_vars(n as int, q + 1);
            assert(exactly_one(a, g));
            let k = choose|k: int| 0 <= k < g.len() && #[trigger] a(g[k]);
            assert(a(hvar(n as int, k + 1, q + 1)));
            assert(path@[q] == k + 1);
        }
        lemma_extracted_path(a, ps, n as int, edges@, find_cycle);
    }
    Ok(Some(path))
}

} // verus!
