//! Graph colouring with `k` colours: every vertex gets one colour and the
//! two ends of an edge differ.  Variable `(v - 1) * k + c` says that vertex
//! `v` has colour `c` (both from 1).
use vstd::prelude::*;
use crate::encode::{exactly_one, no_two_true, push_at_least_one, push_at_most_one, push_not_both, some_true, var_ints};
use crate::literal::{clauses_formula, formula_sat, satisfiable, Clause};
use crate::solver::{lemma_drop_empty_id, lemma_sat_agree_below_max, solver_input_fits, CDCLSolver, SolverError};

verus! {

/// The largest variable number the colouring uses.
pub const MAX_COLOR_VAR: usize = 0x3fff_0000;

/// The variable "vertex `v` has colour `c`".
pub open spec fn color_var(k: int, v: int, c: int) -> int {
    (v - 1) * k + c
}

/// The colour variables of vertex `v`.
pub open spec fn color_vars(k: int, v: int) -> Seq<int> {
    Seq::new(k as nat, |i: int| color_var(k, v, i + 1))
}

/// What the formula says of an assignment: each vertex `1..=n` has exactly
/// one colour, and the ends of each edge never share a colour.
pub open spec fn coloring_encoding(a: spec_fn(int) -> bool, n: int, k: int, edges: Seq<(usize, usize)>) -> bool {
    &&& forall|v: int| 1 <= v <= n ==> exactly_one(a, #[trigger] color_vars(k, v))
    &&& forall|i: int, c: int|
        0 <= i < edges.len() && 1 <= c <= k ==> !(a(#[trigger] color_var(k, edges[i].0 as int, c)) && a(
            color_var(k, edges[i].1 as int, c),
        ))
}

/// `col` gives each vertex `1..=n` a colour in `1..=k`, different at the two
/// ends of every edge between such vertices.
pub open spec fn proper_coloring(col: Seq<int>, n: int, k: int, edges: Seq<(usize, usize)>) -> bool {
    &&& col.len() == n
    &&& forall|v: int| 0 <= v < n ==> 1 <= #[trigger] col[v] <= k
    &&& forall|i: int|
        0 <= i < edges.len() && 1 <= (#[trigger] edges[i]).0 <= n && 1 <= edges[i].1 <= n ==> col[edges[i].0 - 1]
            != col[edges[i].1 - 1]
}

/// Vertex numbers start at 1, and all variables stay below the bound.
pub open spec fn coloring_input_ok(n: int, k: int, edges: Seq<(usize, usize)>) -> bool {
    &&& n <= MAX_COLOR_VAR
    &&& n * k <= MAX_COLOR_VAR
    &&& forall|i: int| 0 <= i < edges.len() ==> 1 <= (#[trigger] edges[i]).0 && 1 <= edges[i].1 && edges[i].0 * k
        <= MAX_COLOR_VAR && edges[i].1 * k <= MAX_COLOR_VAR
}

proof fn lemma_color_var_range(k: int, v: int, c: int)
    requires
        1 <= v,
        1 <= c <= k,
        v * k <= MAX_COLOR_VAR,
    ensures
        1 <= color_var(k, v, c) <= v * k,
{
    assert((v - 1) * k + c <= v * k) by (nonlinear_arith)
        requires 1 <= v, 1 <= c <= k;
    assert((v - 1) * k >= 0) by (nonlinear_arith)
        requires 1 <= v, 1 <= k;
}

/// The colour variables of vertex `v`.
fn vertex_color_vars(k: usize, v: usize) -> (r: Vec<i32>)
    requires
        1 <= v,
        v * k <= MAX_COLOR_VAR,
    ensures
        var_ints(r@) == color_vars(k as int, v as int),
        forall|j: int| 0 <= j < r@.len() ==> 1 <= #[trigger] r@[j] <= MAX_COLOR_VAR,
{
    let mut r: Vec<i32> = Vec::new();
    let mut c: usize = 1;
    while c <= k
        invariant
            1 <= v,
            v * k <= MAX_COLOR_VAR,
            1 <= c <= k + 1,
            r@.len() == c - 1,
            forall|j: int| 0 <= j < r@.len() ==> #[trigger] r@[j] == color_var(k as int, v as int, j + 1),
            forall|j: int| 0 <= j < r@.len() ==> 1 <= #[trigger] r@[j] <= MAX_COLOR_VAR,
        decreases k + 1 - c,
    {
        proof {
            lemma_color_var_range(k as int, v as int, c as int);
        }
        r.push(((v - 1) * k + c) as i32);
        c = c + 1;
    }
    proof {
        assert(var_ints(r@) =~= color_vars(k as int, v as int));
    }
    r
}

/// The vertices before `w` have at least one colour (`alo`), or at most one.
pub open spec fn vertices_part(a: spec_fn(int) -> bool, k: int, w: int, alo: bool) -> bool {
    forall|v: int| 1 <= v < w ==> if alo {
        some_true(a, #[trigger] color_vars(k, v))
    } else {
        no_two_true(a, #[trigger] color_vars(k, v))
    }
}

/// The edges before `i`, and colours before `c` of edge `i`, are respected.
pub open spec fn edges_part(a: spec_fn(int) -> bool, k: int, edges: Seq<(usize, usize)>, i0: int, c0: int) -> bool {
    forall|i: int, c: int|
        0 <= i < edges.len() && 1 <= c <= k && (i < i0 || (i == i0 && c < c0)) ==> !(a(
            #[trigger] color_var(k, edges[i].0 as int, c),
        ) && a(color_var(k, edges[i].1 as int, c)))
}

/// Appends "at least one colour" (`alo`) or "at most one colour" for every
/// vertex.
fn push_vertex_groups(clauses: &mut Vec<Clause>, n: usize, k: usize, alo: bool)
    requires
        n <= MAX_COLOR_VAR,
        n * k <= MAX_COLOR_VAR,
    ensures
        forall|a: spec_fn(int) -> bool|
            #[trigger] formula_sat(a, clauses_formula(final(clauses)@)) <==> formula_sat(
                a,
                clauses_formula(old(clauses)@),
            ) && vertices_part(a, k as int, n + 1, alo),
{
    let ghost c0 = clauses@;
    let mut v: usize = 1;
    while v <= n
        invariant
            n <= MAX_COLOR_VAR,
            n * k <= MAX_COLOR_VAR,
            1 <= v <= n + 1,
            forall|a: spec_fn(int) -> bool|
                #[trigger] formula_sat(a, clauses_formula(clauses@)) <==> formula_sat(a, clauses_formula(c0))
                    && vertices_part(a, k as int, v as int, alo),
        decreases n + 1 - v,
    {
        proof {
            assert(v * k <= n * k) by (nonlinear_arith)
                requires v <= n;
        }
        let g = vertex_color_vars(k, v);
        let ghost c1 = clauses@;
        if alo {
            push_at_least_one(clauses, &g, Ghost(MAX_COLOR_VAR as int));
        } else {
            push_at_most_one(clauses, &g, Ghost(MAX_COLOR_VAR as int));
        }
        proof {
            assert forall|a: spec_fn(int) -> bool| #[trigger]
                formula_sat(a, clauses_formula(clauses@)) <==> formula_sat(a, clauses_formula(c0))
                    && vertices_part(a, k as int, v + 1, alo) by {
                assert(formula_sat(a, clauses_formula(c1)) <==> formula_sat(a, clauses_formula(c0))
                    && vertices_part(a, k as int, v as int, alo));
                if vertices_part(a, k as int, v + 1, alo) {
                    if alo {
                        assert(some_true(a, color_vars(k as int, v as int)));
                    } else {
                        assert(no_two_true(a, color_vars(k as int, v as int)));
                    }
                }
            }
        }
        v = v + 1;
    }
}

/// Clauses that hold exactly when every vertex `1..=num_vertices` has one of
/// `num_colors` colours and no edge joins two vertices of the same colour.
pub fn generate_coloring_clauses(num_vertices: usize, num_colors: usize, edges: &Vec<(usize, usize)>) -> (r: Vec<Clause>)
    requires
        coloring_input_ok(num_vertices as int, num_colors as int, edges@),
    ensures
        forall|a: spec_fn(int) -> bool| #[trigger]
            formula_sat(a, clauses_formula(r@)) <==> coloring_encoding(a, num_vertices as int, num_colors as int, edges@),
{
    let n = num_vertices;
    let k = num_colors;
    let ghost ki = k as int;
    let mut clauses: Vec<Clause> = Vec::new();
    let ghost c0 = clauses@;
    push_vertex_groups(&mut clauses, n, k, true);
    push_vertex_groups(&mut clauses, n, k, false);
    let ghost c2 = clauses@;
    let mut i: usize = 0;
    while i < edges.len()
        invariant
            coloring_input_ok(n as int, ki, edges@),
            ki == k,
            i <= edges@.len(),
            forall|a: spec_fn(int) -> bool|
                #[trigger] formula_sat(a, clauses_formula(clauses@)) <==> formula_sat(a, clauses_formula(c2))
                    && edges_part(a, ki, edges@, i as int, 1),
        decreases edges@.len() - i,
    {
        let (v1, v2) = edges[i];
        proof {
            assert(1 <= edges@[i as int].0 && 1 <= edges@[i as int].1);
        }
        let mut c: usize = 1;
        while c <= k
            invariant
                coloring_input_ok(n as int, ki, edges@),
                ki == k,
                i < edges@.len(),
                (v1, v2) == edges@[i as int],
                1 <= v1,
                1 <= v2,
                v1 * k <= MAX_COLOR_VAR,
                v2 * k <= MAX_COLOR_VAR,
                1 <= c <= k + 1,
                forall|a: spec_fn(int) -> bool|
                    #[trigger] formula_sat(a, clauses_formula(clauses@)) <==> formula_sat(a, clauses_formula(c2))
                        && edges_part(a, ki, edges@, i as int, c as int),
            decreases k + 1 - c,
        {
            proof {
                lemma_color_var_range(ki, v1 as int, c as int);
                lemma_color_var_range(ki, v2 as int, c as int);
            }
            let x = ((v1 - 1) * k + c) as i32;
            let y = ((v2 - 1) * k + c) as i32;
            let ghost c1 = clauses@;
            push_not_both(&mut clauses, x, y);
            proof {
                assert forall|a: spec_fn(int) -> bool| #[trigger]
                    formula_sat(a, clauses_formula(clauses@)) <==> formula_sat(a, clauses_formula(c2))
                        && edges_part(a, ki, edges@, i as int, c + 1) by {
                    assert(formula_sat(a, clauses_formula(c1)) <==> formula_sat(a, clauses_formula(c2))
                        && edges_part(a, ki, edges@, i as int, c as int));
                    assert(x == color_var(ki, edges@[i as int].0 as int, c as int));
                    assert(y == color_var(ki, edges@[i as int].1 as int, c as int));
                }
            }
            c = c + 1;
        }
        proof {
            assert forall|a: spec_fn(int) -> bool|
                #[trigger] edges_part(a, ki, edges@, i as int, c as int) == edges_part(a, ki, edges@, i + 1, 1) by {}
        }
        i = i + 1;
    }
    proof {
        assert forall|a: spec_fn(int) -> bool| #[trigger]
            formula_sat(a, clauses_formula(clauses@)) <==> coloring_encoding(a, n as int, ki, edges@) by {
            assert(formula_sat(a, clauses_formula(c0)));
            let both = vertices_part(a, ki, n + 1, true) && vertices_part(a, ki, n + 1, false);
            assert(formula_sat(a, clauses_formula(c2)) <==> both);
            if both {
                assert forall|v: int| 1 <= v <= n implies exactly_one(a, #[trigger] color_vars(ki, v)) by {
                    assert(some_true(a, color_vars(ki, v)));
                    assert(no_two_true(a, color_vars(ki, v)));
                }
            }
            if forall|v: int| 1 <= v <= n ==> exactly_one(a, #[trigger] color_vars(ki, v)) {
                assert forall|v: int| 1 <= v < n + 1 implies some_true(a, #[trigger] color_vars(ki, v)) by {
                    assert(exactly_one(a, color_vars(ki, v)));
                }
                assert forall|v: int| 1 <= v < n + 1 implies no_two_true(a, #[trigger] color_vars(ki, v)) by {
                    assert(exactly_one(a, color_vars(ki, v)));
                }
            }
        }
    }
    clauses
}

/// The assignment that gives vertex `v` the colour `col[v - 1]` (and no
/// colour to vertices beyond `col`).
pub open spec fn coloring_assignment(col: Seq<int>, k: int) -> spec_fn(int) -> bool {
    |x: int| k > 0 && x >= 1 && (x - 1) / k < col.len() && col[(x - 1) / k] == (x - 1) % k + 1
}

proof fn lemma_coloring_assignment(col: Seq<int>, k: int, v: int, c: int)
    requires
        1 <= v,
        1 <= c <= k,
    ensures
        coloring_assignment(col, k)(color_var(k, v, c)) == (v - 1 < col.len() && col[v - 1] == c),
{
    vstd::arithmetic::div_mod::lemma_fundamental_div_mod_converse((v - 1) * k + (c - 1), k, v - 1, c - 1);
    assert((v - 1) * k >= 0) by (nonlinear_arith)
        requires 1 <= v, 1 <= k;
}

/// Every proper colouring satisfies the formula: the formula is satisfiable
/// whenever the graph can be coloured.
pub proof fn lemma_coloring_complete(col: Seq<int>, n: int, k: int, edges: Seq<(usize, usize)>)
    requires
        proper_coloring(col, n, k, edges),
        forall|i: int| 0 <= i < edges.len() ==> 1 <= (#[trigger] edges[i]).0 && 1 <= edges[i].1,
    ensures
        coloring_encoding(coloring_assignment(col, k), n, k, edges),
{
    let a = coloring_assignment(col, k);
    assert forall|v: int| 1 <= v <= n implies exactly_one(a, #[trigger] color_vars(k, v)) by {
        let g = color_vars(k, v);
        let c = col[v - 1];
        lemma_coloring_assignment(col, k, v, c);
        assert(a(g[c - 1]));
        assert forall|x: int, y: int| 0 <= x < y < g.len() implies !(#[trigger] a(g[x]) && #[trigger] a(g[y])) by {
            lemma_coloring_assignment(col, k, v, x + 1);
            lemma_coloring_assignment(col, k, v, y + 1);
        }
    }
    assert forall|i: int, c: int| 0 <= i < edges.len() && 1 <= c <= k implies !(a(
        #[trigger] color_var(k, edges[i].0 as int, c),
    ) && a(color_var(k, edges[i].1 as int, c))) by {
        lemma_coloring_assignment(col, k, edges[i].0 as int, c);
        lemma_coloring_assignment(col, k, edges[i].1 as int, c);
    }
}

/// Colours the graph on vertices `1..=num_vertices` with `num_colors`
/// colours.  `Ok(Some(col))` gives vertex `v` the colour `col[v - 1]`;
/// `Ok(None)` means no colouring exists.
pub fn color_graph(num_vertices: usize, num_colors: usize, edges: &Vec<(usize, usize)>) -> (r: Result<
    Option<Vec<usize>>,
    SolverError,
>)
    requires
        coloring_input_ok(num_vertices as int, num_colors as int, edges@),
    ensures
        r matches Ok(Some(col)) ==> proper_coloring(
            col@.map_values(|c: usize| c as int),
            num_vertices as int,
            num_colors as int,
            edges@,
        ),
        r matches Ok(None) ==> forall|col: Seq<int>|
            !#[trigger] proper_coloring(col, num_vertices as int, num_colors as int, edges@),
{
    let n = num_vertices;
    let k = num_colors;
    if k == 0 {
        if n == 0 {
            return Ok(Some(Vec::new()));
        }
        proof {
            assert forall|col: Seq<int>| !#[trigger] proper_coloring(col, n as int, 0, edges@) by {
                if proper_coloring(col, n as int, 0, edges@) {
                    assert(1 <= col[0] <= 0);
                }
            }
        }
        return Ok(None);
    }
    let clauses = generate_coloring_clauses(n, k, edges);
    if !solver_input_fits(&clauses) {
        return Err(SolverError::InternalError("Graph too large for the solver".to_string()));
    }
    let ghost cs = clauses@;
    let ghost f = clauses_formula(cs);
    proof {
        lemma_drop_empty_id(f);
    }
    let mut solver = CDCLSolver::new(clauses);
    proof {
        assert(solver.formula() =~= f);
    }
    match solver.solve() {
        Err(e) => {
            return Err(e);
        },
        Ok(false) => {
            proof {
                assert forall|col: Seq<int>| !#[trigger] proper_coloring(col, n as int, k as int, edges@) by {
                    if proper_coloring(col, n as int, k as int, edges@) {
                        lemma_coloring_complete(col, n as int, k as int, edges@);
                        assert(formula_sat(coloring_assignment(col, k as int), f));
                    }
                }
            }
            return Ok(None);
        },
        Ok(true) => {},
    }
    let ghost m = solver.model();
    let ghost nv = solver.nvars();
    let ghost a = |x: int| x <= nv && m(x);
    proof {
        lemma_sat_agree_below_max(cs, m, a);
        assert(coloring_encoding(a, n as int, k as int, edges@));
    }
    let mut col: Vec<usize> = Vec::new();
    let mut v: usize = 1;
    while v <= n
        invariant
            coloring_input_ok(n as int, k as int, edges@),
            k >= 1,
            1 <= v <= n + 1,
            solver.inv(),
            m == solver.model(),
            nv == solver.nvars(),
            a == (|x: int| x <= nv && m(x)),
            coloring_encoding(a, n as int, k as int, edges@),
            col@.len() == v - 1,
            forall|w: int| 0 <= w < v - 1 ==> 1 <= #[trigger] col@[w] <= k && a(color_var(k as int, w + 1, col@[w] as int)),
        decreases n + 1 - v,
    {
        proof {
            assert(v * k <= n * k) by (nonlinear_arith)
                requires v <= n;
        }
        let mut c: usize = 1;
        let mut found: usize = 0;
        while c <= k
            invariant
                coloring_input_ok(n as int, k as int, edges@),
                1 <= v <= n,
                v * k <= MAX_COLOR_VAR,
                1 <= c <= k + 1,
                solver.inv(),
                m == solver.model(),
                nv == solver.nvars(),
                a == (|x: int| x <= nv && m(x)),
                found == 0 ==> forall|c2: int| 1 <= c2 < c ==> !#[trigger] a(color_var(k as int, v as int, c2)),
                found != 0 ==> 1 <= found <= k && a(color_var(k as int, v as int, found as int)),
            decreases k + 1 - c,
        {
            proof {
                lemma_color_var_range(k as int, v as int, c as int);
            }
            let x = ((v - 1) * k + c) as i32;
            if found == 0 && solver.get_value(x) == Some(true) {
                found = c;
            }
            c = c + 1;
        }
        proof {
            if found == 0 {
                let g = color_vars(k as int, v as int);
                assert(exactly_one(a, g));
                let j = choose|j: int| 0 <= j < g.len() && #[trigger] a(g[j]);
                assert(a(color_var(k as int, v as int, j + 1)));
            }
        }
        col.push(found);
        v = v + 1;
    }
    proof {
        let cols = col@.map_values(|c: usize| c as int);
        assert forall|i: int|
            0 <= i < edges@.len() && 1 <= (#[trigger] edges@[i]).0 <= n && 1 <= edges@[i].1 <= n implies cols[edges@[i].0 - 1]
                != cols[edges@[i].1 - 1] by {
            let e0 = edges@[i].0 as int;
            let e1 = edges@[i].1 as int;
            let c0 = cols[e0 - 1];
            assert(a(color_var(k as int, e0, c0)));
            if cols[e1 - 1] == c0 {
                assert(a(color_var(k as int, e1, c0)));
                assert(!(a(color_var(k as int, e0, c0)) && a(color_var(k as int, e1, c0))));
            }
        }
    }
    Ok(Some(col))
}

} // verus!
