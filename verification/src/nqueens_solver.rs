//! The N-queens puzzle as a satisfiability problem.
//!
//! Variable `var(n, row, col)` (row and column in `1..=n`) means "a queen
//! stands on (`row`, `col`)".  The clauses ask for exactly one queen per row
//! and per column, and for no two queens on a common diagonal.
use vstd::prelude::*;
use crate::encode::{clauses_bounded, exactly_one, lemma_formula_sat_push, no_two_true, push_at_least_one, push_at_most_one, some_true, var_ints};
use crate::literal::{clause_ints, clause_sat, clauses_formula, formula_sat, lit_true, Clause, Literal};
use crate::search::{model_by_search, vals_model};
use crate::literal::satisfiable;
use crate::solver::{lemma_drop_empty_id, lemma_sat_agree_below_max, solver_input_fits, CDCLSolver, SolverError};

verus! {

/// Largest board size whose variables fit in an `i32`.
pub const MAX_BOARD: usize = 46340;

/// The variable of "a queen stands on (`row`, `col`)" on an `n`-board.
pub open spec fn qvar(n: int, row: int, col: int) -> int {
    (row - 1) * n + col
}

/// Row or column `x` of an `n`-board.
pub open spec fn on_board(n: int, x: int) -> bool {
    1 <= x <= n
}

/// The variables of row `x` (`is_row`) or column `x`, in order.
pub open spec fn line_vars(n: int, is_row: bool, x: int) -> Seq<int> {
    Seq::new(n as nat, |k: int| if is_row { qvar(n, x, k + 1) } else { qvar(n, k + 1, x) })
}

/// No two queens on a common diagonal going down-right (`down`) or
/// down-left.
pub open spec fn diagonals_ok(a: spec_fn(int) -> bool, n: int, down: bool) -> bool {
    forall|r1: int, c1: int, r2: int, c2: int|
        on_board(n, r1) && on_board(n, c1) && on_board(n, r2) && on_board(n, c2) && r1 < r2 && (if down {
            c2 - c1
        } else {
            c1 - c2
        }) == r2 - r1 ==> !(#[trigger] a(qvar(n, r1, c1)) && #[trigger] a(qvar(n, r2, c2)))
}

/// A placement of queens that no two attack each other, with one queen in
/// every row and every column.
pub open spec fn queens_ok(a: spec_fn(int) -> bool, n: int) -> bool {
    &&& forall|x: int| on_board(n, x) ==> #[trigger] exactly_one(a, line_vars(n, true, x))
    &&& forall|x: int| on_board(n, x) ==> #[trigger] exactly_one(a, line_vars(n, false, x))
    &&& diagonals_ok(a, n, true)
    &&& diagonals_ok(a, n, false)
}

/// Variables of the board lie in `1..=n*n`.
pub proof fn lemma_qvar_range(n: int, row: int, col: int)
    requires
        on_board(n, row),
        on_board(n, col),
    ensures
        1 <= qvar(n, row, col) <= n * n,
{
    assert((row - 1) * n + col <= n * n) by (nonlinear_arith)
        requires
            1 <= row <= n,
            1 <= col <= n,
    ;
    assert((row - 1) * n >= 0) by (nonlinear_arith)
        requires
            1 <= row <= n,
    ;
}

/// The variable of "a queen stands on (`row`, `col`)".
pub fn var(n: usize, row: usize, col: usize) -> (v: i32)
    requires
        n <= MAX_BOARD,
        on_board(n as int, row as int),
        on_board(n as int, col as int),
    ensures
        v == qvar(n as int, row as int, col as int),
        1 <= v <= n * n,
{
    proof {
        lemma_qvar_range(n as int, row as int, col as int);
        assert(n * n <= 46340 * 46340) by (nonlinear_arith)
            requires
                n <= 46340,
        ;
    }
    ((row - 1) * n + col) as i32
}

/// The variables of a row or column.
fn line_vars_vec(n: usize, is_row: bool, x: usize) -> (v: Vec<i32>)
    requires
        n <= MAX_BOARD,
        on_board(n as int, x as int),
    ensures
        var_ints(v@) == line_vars(n as int, is_row, x as int),
        forall|k: int| 0 <= k < v@.len() ==> 1 <= #[trigger] v@[k] <= n * n,
{
    let mut v: Vec<i32> = Vec::new();
    let mut k: usize = 0;
    while k < n
        invariant
            n <= MAX_BOARD,
            on_board(n as int, x as int),
            k <= n,
            v@.len() == k,
            forall|j: int| 0 <= j < k ==> #[trigger] v@[j] as int == line_vars(n as int, is_row, x as int)[j],
            forall|j: int| 0 <= j < v@.len() ==> 1 <= #[trigger] v@[j] <= n * n,
        decreases n - k,
    {
        let w = if is_row { var(n, x, k + 1) } else { var(n, k + 1, x) };
        v.push(w);
        k = k + 1;
    }
    proof {
        assert(var_ints(v@) =~= line_vars(n as int, is_row, x as int));
    }
    v
}

/// Lines of one kind checked so far: every line before `x`.
pub open spec fn lines_done(a: spec_fn(int) -> bool, n: int, is_row: bool, at_least: bool, x: int) -> bool {
    forall|y: int| 1 <= y < x && y <= n ==> #[trigger] line_holds(a, n, is_row, at_least, y)
}

/// "At least one" (or "at most one") queen on a line.
pub open spec fn line_holds(a: spec_fn(int) -> bool, n: int, is_row: bool, at_least: bool, x: int) -> bool {
    if at_least {
        some_true(a, line_vars(n, is_row, x))
    } else {
        no_two_true(a, line_vars(n, is_row, x))
    }
}

/// Appends, for every row (or every column) in order, "at least one" (or
/// "at most one") queen on it.
fn push_lines(clauses: &mut Vec<Clause>, n: usize, is_row: bool, at_least: bool)
    requires
        n <= MAX_BOARD,
    ensures
        clauses_bounded(old(clauses)@, n * n) ==> clauses_bounded(final(clauses)@, n * n),
        forall|a: spec_fn(int) -> bool|
            #[trigger] formula_sat(a, clauses_formula(final(clauses)@)) <==> formula_sat(
                a,
                clauses_formula(old(clauses)@),
            ) && lines_done(a, n as int, is_row, at_least, n + 1),
{
    let ghost old_cs = clauses@;
    let mut x: usize = 1;
    while x <= n
        invariant
            n <= MAX_BOARD,
            1 <= x <= n + 1,
            clauses_bounded(old_cs, n * n) ==> clauses_bounded(clauses@, n * n),
            forall|a: spec_fn(int) -> bool|
                #[trigger] formula_sat(a, clauses_formula(clauses@)) <==> formula_sat(a, clauses_formula(old_cs))
                    && lines_done(a, n as int, is_row, at_least, x as int),
        decreases n + 1 - x,
    {
        let vars = line_vars_vec(n, is_row, x);
        if at_least {
            push_at_least_one(clauses, &vars, Ghost(n * n));
        } else {
            push_at_most_one(clauses, &vars, Ghost(n * n));
        }
        proof {
            assert forall|a: spec_fn(int) -> bool| #![trigger lines_done(a, n as int, is_row, at_least, x + 1)]
                lines_done(a, n as int, is_row, at_least, x + 1) == (lines_done(a, n as int, is_row, at_least, x as int)
                    && line_holds(a, n as int, is_row, at_least, x as int)) by {
                if lines_done(a, n as int, is_row, at_least, x as int) && line_holds(a, n as int, is_row, at_least, x as int) {
                    assert forall|y: int| 1 <= y < x + 1 && y <= n implies #[trigger] line_holds(a, n as int, is_row, at_least, y) by {
                        if y == x {
                        }
                    }
                }
            }
        }
        x = x + 1;
    }
}

/// Diagonal pairs checked so far: all pairs whose first cell comes before
/// (`r1`, `c1`) row by row, and those from (`r1`, `c1`) whose second row is
/// below `r2`.
pub open spec fn diag_done(a: spec_fn(int) -> bool, n: int, down: bool, r1: int, c1: int, r2: int) -> bool {
    forall|p1: int, q1: int, p2: int, q2: int|
        on_board(n, p1) && on_board(n, q1) && on_board(n, p2) && on_board(n, q2) && p1 < p2 && (if down {
            q2 - q1
        } else {
            q1 - q2
        }) == p2 - p1 && (p1 < r1 || (p1 == r1 && q1 < c1) || (p1 == r1 && q1 == c1 && p2 < r2)) ==> !(
        #[trigger] a(qvar(n, p1, q1)) && #[trigger] a(qvar(n, p2, q2)))
}

/// Appends `(¬x ∨ ¬y)` for every pair of cells on a common diagonal going
/// down-right (`down`) or down-left, by first cell row by row, then by the
/// second cell's row.
fn push_diagonals(clauses: &mut Vec<Clause>, n: usize, down: bool)
    requires
        n <= MAX_BOARD,
    ensures
        clauses_bounded(old(clauses)@, n * n) ==> clauses_bounded(final(clauses)@, n * n),
        forall|a: spec_fn(int) -> bool|
            #[trigger] formula_sat(a, clauses_formula(final(clauses)@)) <==> formula_sat(
                a,
                clauses_formula(old(clauses)@),
            ) && diagonals_ok(a, n as int, down),
{
    let ghost old_cs = clauses@;
    let ghost ni = n as int;
    let mut r1: usize = 1;
    while r1 <= n
        invariant
            n <= MAX_BOARD,
            ni == n,
            1 <= r1 <= n + 1,
            clauses_bounded(old_cs, n * n) ==> clauses_bounded(clauses@, n * n),
            forall|a: spec_fn(int) -> bool|
                #[trigger] formula_sat(a, clauses_formula(clauses@)) <==> formula_sat(a, clauses_formula(old_cs))
                    && diag_done(a, ni, down, r1 as int, 1, 1),
        decreases n + 1 - r1,
    {
        let mut c1: usize = 1;
        while c1 <= n
            invariant
                n <= MAX_BOARD,
                ni == n,
                1 <= r1 <= n,
                1 <= c1 <= n + 1,
                clauses_bounded(old_cs, n * n) ==> clauses_bounded(clauses@, n * n),
                forall|a: spec_fn(int) -> bool|
                    #[trigger] formula_sat(a, clauses_formula(clauses@)) <==> formula_sat(a, clauses_formula(old_cs))
                        && diag_done(a, ni, down, r1 as int, c1 as int, 1),
            decreases n + 1 - c1,
        {
            proof {
                assert forall|a: spec_fn(int) -> bool| #![trigger diag_done(a, ni, down, r1 as int, c1 as int, 1)]
                    diag_done(a, ni, down, r1 as int, c1 as int, 1) == diag_done(a, ni, down, r1 as int, c1 as int, r1 + 1) by {
                }
            }
            let mut r2: usize = r1 + 1;
            while r2 <= n
                invariant
                    n <= MAX_BOARD,
                    ni == n,
                    1 <= r1 <= n,
                    1 <= c1 <= n,
                    r1 + 1 <= r2 <= n + 1,
                    clauses_bounded(old_cs, n * n) ==> clauses_bounded(clauses@, n * n),
                    forall|a: spec_fn(int) -> bool|
                        #[trigger] formula_sat(a, clauses_formula(clauses@)) <==> formula_sat(a, clauses_formula(old_cs))
                            && diag_done(a, ni, down, r1 as int, c1 as int, r2 as int),
                decreases n + 1 - r2,
            {
                let d = r2 - r1;
                let in_range = if down { c1 + d <= n } else { c1 > d };
                if in_range {
                    let c2 = if down { c1 + d } else { c1 - d };
                    let v1 = var(n, r1, c1);
                    let v2 = var(n, r2, c2);
                    let cl = Clause::new(vec![Literal::negative(v1), Literal::negative(v2)]);
                    let ghost cs0 = clauses@;
                    clauses.push(cl);
                    proof {
                        assert(clauses_formula(clauses@) =~= clauses_formula(cs0).push(clause_ints(cl)));
                        let ci = clause_ints(cl);
                        assert(ci =~= seq![-(v1 as int), -(v2 as int)]);
                        assert forall|a: spec_fn(int) -> bool| #[trigger]
                            formula_sat(a, clauses_formula(clauses@)) <==> formula_sat(a, clauses_formula(old_cs))
                                && diag_done(a, ni, down, r1 as int, c1 as int, r2 + 1) by {
                            lemma_formula_sat_push(a, clauses_formula(cs0), ci);
                            assert(clause_sat(a, ci) <==> !(a(v1 as int) && a(v2 as int))) by {
                                if clause_sat(a, ci) {
                                    let k = choose|k: int| 0 <= k < ci.len() && #[trigger] lit_true(a, ci[k]);
                                }
                                if !a(v1 as int) {
                                    assert(lit_true(a, ci[0]));
                                } else if !a(v2 as int) {
                                    assert(lit_true(a, ci[1]));
                                }
                            }
                            if diag_done(a, ni, down, r1 as int, c1 as int, r2 + 1) {
                                assert(!(a(qvar(ni, r1 as int, c1 as int)) && a(qvar(ni, r2 as int, c2 as int))));
                            }
                            if diag_done(a, ni, down, r1 as int, c1 as int, r2 as int) && !(a(v1 as int) && a(v2 as int)) {
                                assert forall|p1: int, q1: int, p2: int, q2: int|
                                    on_board(ni, p1) && on_board(ni, q1) && on_board(ni, p2) && on_board(ni, q2) && p1 < p2
                                        && (if down { q2 - q1 } else { q1 - q2 }) == p2 - p1 && (p1 < r1 || (p1 == r1 && q1 < c1) || (
                                    p1 == r1 && q1 == c1 && p2 < r2 + 1)) implies !(#[trigger] a(qvar(ni, p1, q1)) && #[trigger] a(
                                    qvar(ni, p2, q2))) by {
                                    if p1 == r1 && q1 == c1 && p2 == r2 {
                                        assert(q2 == c2);
                                    }
                                }
                            }
                        }
                        if clauses_bounded(old_cs, n * n) {
                            assert forall|p: int, k: int|
                                0 <= p < clauses@.len() && 0 <= k < clauses@[p]@.len() implies 1 <= (
                                #[trigger] clauses@[p]@[k]).var <= n * n by {
                                if p < cs0.len() {
                                    assert(clauses@[p] == cs0[p]);
                                }
                            }
                        }
                    }
                } else {
                    proof {
                        assert forall|a: spec_fn(int) -> bool| #![trigger diag_done(a, ni, down, r1 as int, c1 as int, r2 + 1)]
                            diag_done(a, ni, down, r1 as int, c1 as int, r2 + 1) == diag_done(a, ni, down, r1 as int, c1 as int, r2 as int) by {
                        }
                    }
                }
                r2 = r2 + 1;
            }
            proof {
                assert forall|a: spec_fn(int) -> bool| #![trigger diag_done(a, ni, down, r1 as int, c1 as int, n + 1)]
                    diag_done(a, ni, down, r1 as int, c1 as int, n + 1) == diag_done(a, ni, down, r1 as int, c1 + 1, 1) by {
                }
            }
            c1 = c1 + 1;
        }
        proof {
            assert forall|a: spec_fn(int) -> bool| #![trigger diag_done(a, ni, down, r1 as int, n + 1, 1)]
                diag_done(a, ni, down, r1 as int, n + 1, 1) == diag_done(a, ni, down, r1 + 1, 1, 1) by {
            }
        }
        r1 = r1 + 1;
    }
    proof {
        assert forall|a: spec_fn(int) -> bool| #![trigger diagonals_ok(a, ni, down)]
            diag_done(a, ni, down, n + 1, 1, 1) == diagonals_ok(a, ni, down) by {
        }
    }
}

/// The N-queens clauses: an assignment satisfies them exactly when it
/// places one queen in every row and every column with no two on a common
/// diagonal.
pub fn generate_nqueens_clauses(n: usize) -> (r: Vec<Clause>)
    requires
        n <= MAX_BOARD,
    ensures
        clauses_bounded(r@, n * n),
        forall|a: spec_fn(int) -> bool| #[trigger] formula_sat(a, clauses_formula(r@)) <==> queens_ok(a, n as int),
{
    let mut clauses: Vec<Clause> = Vec::new();
    let ghost c0 = clauses@;
    push_lines(&mut clauses, n, true, true);
    push_lines(&mut clauses, n, true, false);
    push_lines(&mut clauses, n, false, true);
    push_lines(&mut clauses, n, false, false);
    push_diagonals(&mut clauses, n, true);
    push_diagonals(&mut clauses, n, false);
    proof {
        assert(clauses_formula(c0) =~= Seq::<Seq<int>>::empty());
        let ni = n as int;
        assert forall|a: spec_fn(int) -> bool| #[trigger] formula_sat(a, clauses_formula(clauses@)) <==> queens_ok(a, ni) by {
            let rows = lines_done(a, ni, true, true, ni + 1) && lines_done(a, ni, true, false, ni + 1);
            let cols = lines_done(a, ni, false, true, ni + 1) && lines_done(a, ni, false, false, ni + 1);
            if rows && cols {
                assert forall|x: int| on_board(ni, x) implies #[trigger] exactly_one(a, line_vars(ni, true, x)) by {
                    assert(line_holds(a, ni, true, true, x));
                    assert(line_holds(a, ni, true, false, x));
                }
                assert forall|x: int| on_board(ni, x) implies #[trigger] exactly_one(a, line_vars(ni, false, x)) by {
                    assert(line_holds(a, ni, false, true, x));
                    assert(line_holds(a, ni, false, false, x));
                }
            }
            if queens_ok(a, ni) {
                assert forall|is_row: bool, al: bool| #![trigger lines_done(a, ni, is_row, al, ni + 1)]
                    lines_done(a, ni, is_row, al, ni + 1) by {
                    assert forall|y: int| 1 <= y < ni + 1 && y <= ni implies #[trigger] line_holds(a, ni, is_row, al, y) by {
                        assert(exactly_one(a, line_vars(ni, is_row, y)));
                    }
                }
                assert(rows && cols);
            }
        }
        assert forall|p: int, k: int|
            0 <= p < c0.len() && 0 <= k < c0[p]@.len() implies 1 <= (#[trigger] c0[p]@[k]).var <= n * n by {
        }
    }
    clauses
}


/// A copy of a clause.
fn copy_clause(c: &Clause) -> (r: Clause)
    ensures
        r@ == c@,
{
    let mut lits: Vec<Literal> = Vec::new();
    let mut k: usize = 0;
    while k < c.literals.len()
        invariant
            k <= c.literals@.len(),
            lits@ == c.literals@.subrange(0, k as int),
        decreases c.literals@.len() - k,
    {
        let l = c.literals[k];
        lits.push(l);
        k = k + 1;
        proof {
            assert(lits@ =~= c.literals@.subrange(0, k as int));
        }
    }
    proof {
        assert(c.literals@.subrange(0, c.literals@.len() as int) =~= c.literals@);
    }
    Clause::new(lits)
}

/// The board of queens that assignment `a` places on an `n`-board (rows
/// and columns from 0).
pub open spec fn board_of(a: spec_fn(int) -> bool, n: int) -> Seq<Seq<bool>> {
    Seq::new(n as nat, |r: int| Seq::new(n as nat, |c: int| a(qvar(n, r + 1, c + 1))))
}

/// `b` is the board of a placement of `n` queens.
pub open spec fn valid_board(b: Seq<Seq<bool>>, n: int) -> bool {
    exists|a: spec_fn(int) -> bool| #[trigger] queens_ok(a, n) && board_of(a, n) == b
}

/// `bs` lists distinct boards of placements of `n` queens, and, when
/// `complete`, every such board.
pub open spec fn lists_boards(bs: Seq<Seq<Seq<bool>>>, n: int, complete: bool) -> bool {
    &&& bs.no_duplicates()
    &&& forall|i: int| 0 <= i < bs.len() ==> valid_board(#[trigger] bs[i], n)
    &&& complete ==> forall|b: Seq<Seq<bool>>| valid_board(b, n) ==> #[trigger] bs.contains(b)
}

/// A complete list of the boards of placements of `n` queens has as many
/// entries as there are such boards.
pub proof fn lemma_count_is_number_of_boards(bs: Seq<Seq<Seq<bool>>>, n: int)
    requires
        lists_boards(bs, n, true),
    ensures
        Set::new(|b: Seq<Seq<bool>>| valid_board(b, n)).finite(),
        Set::new(|b: Seq<Seq<bool>>| valid_board(b, n)).len() == bs.len(),
{
    let st = Set::new(|b: Seq<Seq<bool>>| valid_board(b, n));
    assert(bs.to_set() =~= st) by {
        assert forall|b: Seq<Seq<bool>>| bs.to_set().contains(b) <==> st.contains(b) by {
            if bs.contains(b) {
                let i = choose|i: int| 0 <= i < bs.len() && bs[i] == b;
                assert(valid_board(bs[i], n));
            }
        }
    }
    bs.unique_seq_to_set();
    vstd::seq_lib::seq_to_set_is_finite(bs);
}

/// Two placements of `n` queens with different boards: some queen of the
/// first is missing from the second.
proof fn lemma_board_differs(a: spec_fn(int) -> bool, a2: spec_fn(int) -> bool, n: int)
    requires
        0 <= n,
        queens_ok(a, n),
        queens_ok(a2, n),
        board_of(a, n) != board_of(a2, n),
    ensures
        exists|r: int, c: int| 0 <= r < n && 0 <= c < n && #[trigger] a(qvar(n, r + 1, c + 1)) && !a2(qvar(n, r + 1, c + 1)),
{
    if !exists|r: int, c: int| 0 <= r < n && 0 <= c < n && #[trigger] a(qvar(n, r + 1, c + 1)) && !a2(qvar(n, r + 1, c + 1)) {
        let b1 = board_of(a, n);
        let b2 = board_of(a2, n);
        assert forall|x: int, y: int| on_board(n, x) && on_board(n, y) implies #[trigger] a(qvar(n, x, y)) == a2(qvar(n, x, y)) by {
            let r = x - 1;
            let c = y - 1;
            assert(qvar(n, r + 1, c + 1) == qvar(n, x, y));
            let vs = line_vars(n, true, x);
            assert(on_board(n, x));
            assert(exactly_one(a, vs));
            assert(exactly_one(a2, vs));
            if a(qvar(n, x, c + 1)) {
                assert(a2(qvar(n, x, c + 1)));
            }
            if a2(qvar(n, x, c + 1)) && !a(qvar(n, x, c + 1)) {
                let k = choose|k: int| 0 <= k < vs.len() && #[trigger] a(vs[k]);
                assert(vs[k] == qvar(n, x, k + 1));
                assert(a2(vs[k]));
                assert(vs[c] == qvar(n, x, c + 1));
                assert(k != c);
                if k < c {
                    assert(!(a2(vs[k]) && a2(vs[c])));
                } else {
                    assert(!(a2(vs[c]) && a2(vs[k])));
                }
            }
        }
        assert forall|r: int| 0 <= r < b1.len() implies b1[r] =~= b2[r] by {
            assert forall|c: int| 0 <= c < b1[r].len() implies b1[r][c] == b2[r][c] by {
                assert(b1[r][c] == a(qvar(n, r + 1, c + 1)));
                assert(b2[r][c] == a2(qvar(n, r + 1, c + 1)));
                assert(b1.len() == n);
                assert(b1[r].len() == n);
                assert(on_board(n, r + 1) && on_board(n, c + 1));
                let q = qvar(n, r + 1, c + 1);
                assert(a(q) == a2(q));
            }
        }
        assert(b1 =~= b2);
    }
}

/// The board of a model of the clauses, or `None` when they have no model.
/// The solver decides; clauses too large for it are decided by trying every
/// assignment.
fn board_model(all: Vec<Clause>, n: usize) -> (r: Option<Vec<Vec<bool>>>)
    requires
        n <= MAX_BOARD,
    ensures
        r is None ==> !satisfiable(clauses_formula(all@)),
        r matches Some(b) ==> exists|a: spec_fn(int) -> bool| #[trigger] formula_sat(a, clauses_formula(all@))
            && b@.map_values(|row: Vec<bool>| row@) == board_of(a, n as int),
{
    let ghost cs = all@;
    let ghost f = clauses_formula(all@);
    let ghost a: spec_fn(int) -> bool;
    let mut from_solver = false;
    let mut m: Vec<bool> = Vec::new();
    let mut solver_opt: Option<CDCLSolver> = None;
    if solver_input_fits(&all) {
        proof {
            lemma_drop_empty_id(f);
        }
        let mut solver = CDCLSolver::new(all);
        proof {
            assert(solver.formula() =~= f);
        }
        match solver.solve() {
            Ok(true) => {},
            _ => {
                return None;
            },
        }
        let ghost sm = solver.model();
        let ghost nv = solver.nvars();
        proof {
            a = |x: int| x <= nv && sm(x);
            lemma_sat_agree_below_max(cs, sm, a);
        }
        let mut b: Vec<Vec<bool>> = Vec::new();
        let mut r: usize = 0;
        while r < n
            invariant
                n <= MAX_BOARD,
                solver.inv(),
                sm == solver.model(),
                nv == solver.nvars(),
                a == (|x: int| x <= nv && sm(x)),
                r <= n,
                b@.len() == r,
                forall|r2: int| 0 <= r2 < r ==> (#[trigger] b@[r2])@ == board_of(a, n as int)[r2],
            decreases n - r,
        {
            let mut row: Vec<bool> = Vec::new();
            let mut c: usize = 0;
            while c < n
                invariant
                    n <= MAX_BOARD,
                    solver.inv(),
                    sm == solver.model(),
                    nv == solver.nvars(),
                    a == (|x: int| x <= nv && sm(x)),
                    r < n,
                    c <= n,
                    row@.len() == c,
                    forall|c2: int| 0 <= c2 < c ==> #[trigger] row@[c2] == a(qvar(n as int, r + 1, c2 + 1)),
                decreases n - c,
            {
                let v = var(n, r + 1, c + 1);
                row.push(solver.get_value(v) == Some(true));
                c = c + 1;
            }
            proof {
                assert(row@ =~= board_of(a, n as int)[r as int]);
            }
            b.push(row);
            r = r + 1;
        }
        proof {
            assert(b@.map_values(|row: Vec<bool>| row@) =~= board_of(a, n as int));
        }
        return Some(b);
    }
    let found = model_by_search(&all);
    let mv = match found {
        None => {
            return None;
        },
        Some(mv) => mv,
    };
    proof {
        a = vals_model(mv@);
    }
    let mut b: Vec<Vec<bool>> = Vec::new();
    let mut r: usize = 0;
    while r < n
        invariant
            n <= MAX_BOARD,
            a == vals_model(mv@),
            r <= n,
            b@.len() == r,
            forall|r2: int| 0 <= r2 < r ==> (#[trigger] b@[r2])@ == board_of(a, n as int)[r2],
        decreases n - r,
    {
        let mut row: Vec<bool> = Vec::new();
        let mut c: usize = 0;
        while c < n
            invariant
                n <= MAX_BOARD,
                a == vals_model(mv@),
                r < n,
                c <= n,
                row@.len() == c,
                forall|c2: int| 0 <= c2 < c ==> #[trigger] row@[c2] == a(qvar(n as int, r + 1, c2 + 1)),
            decreases n - c,
        {
            let v = var(n, r + 1, c + 1) as usize;
            row.push(v < mv.len() && mv[v]);
            c = c + 1;
        }
        proof {
            assert(row@ =~= board_of(a, n as int)[r as int]);
        }
        b.push(row);
        r = r + 1;
    }
    proof {
        assert(b@.map_values(|row: Vec<bool>| row@) =~= board_of(a, n as int));
    }
    Some(b)
}

/// The clauses `base` followed by copies of `extra`.
fn with_clauses(base: Vec<Clause>, extra: &Vec<Clause>) -> (all: Vec<Clause>)
    ensures
        clauses_formula(all@) == clauses_formula(base@) + clauses_formula(extra@),
{
    let ghost b0 = base@;
    let mut all = base;
    let mut k: usize = 0;
    while k < extra.len()
        invariant
            k <= extra@.len(),
            clauses_formula(all@) == clauses_formula(b0) + clauses_formula(extra@.subrange(0, k as int)),
        decreases extra@.len() - k,
    {
        let ghost a0 = all@;
        let c = copy_clause(&extra[k]);
        all.push(c);
        k = k + 1;
        proof {
            assert(clause_ints(c) == clause_ints(extra@[k - 1]));
            assert(clauses_formula(all@) =~= clauses_formula(a0).push(clause_ints(c)));
            assert(clauses_formula(extra@.subrange(0, k as int)) =~= clauses_formula(extra@.subrange(0, k - 1)).push(
                clause_ints(extra@[k - 1]),
            ));
            assert(clauses_formula(all@) =~= clauses_formula(b0) + clauses_formula(extra@.subrange(0, k as int)));
        }
    }
    proof {
        assert(extra@.subrange(0, extra@.len() as int) =~= extra@);
    }
    all
}

/// The clause "some queen of the board `b` is missing": it holds for a
/// placement exactly when its board differs from `b`.
fn blocking_clause(b: &Vec<Vec<bool>>, n: usize, Ghost(a): Ghost<spec_fn(int) -> bool>) -> (cl: Clause)
    requires
        n <= MAX_BOARD,
        queens_ok(a, n as int),
        b@.map_values(|row: Vec<bool>| row@) == board_of(a, n as int),
    ensures
        forall|a2: spec_fn(int) -> bool| #[trigger] queens_ok(a2, n as int) ==> (clause_sat(a2, clause_ints(cl))
            <==> board_of(a2, n as int) != board_of(a, n as int)),
{
    let ghost bd = board_of(a, n as int);
    let ghost ni = n as int;
    let mut blk: Vec<Literal> = Vec::new();
    let ghost mut cells: Seq<(int, int)> = Seq::empty();
    let mut r: usize = 0;
    while r < n
        invariant
            n <= MAX_BOARD,
            ni == n as int,
            b@.map_values(|row: Vec<bool>| row@) == bd,
            bd == board_of(a, ni),
            r <= n,
            cells.len() == blk@.len(),
            forall|j: int| 0 <= j < blk@.len() ==> {
                let (r2, c2) = #[trigger] cells[j];
                &&& 0 <= r2 < ni && 0 <= c2 < ni
                &&& blk@[j].negated
                &&& blk@[j].var == qvar(ni, r2 + 1, c2 + 1)
                &&& a(qvar(ni, r2 + 1, c2 + 1))
            },
            forall|r2: int, c2: int| 0 <= r2 < r && 0 <= c2 < ni && #[trigger] a(qvar(ni, r2 + 1, c2 + 1))
                ==> cells.contains((r2, c2)),
        decreases n - r,
    {
        let mut c: usize = 0;
        while c < n
            invariant
                n <= MAX_BOARD,
                ni == n as int,
                b@.map_values(|row: Vec<bool>| row@) == bd,
                bd == board_of(a, ni),
                r < n,
                c <= n,
                cells.len() == blk@.len(),
                forall|j: int| 0 <= j < blk@.len() ==> {
                    let (r2, c2) = #[trigger] cells[j];
                    &&& 0 <= r2 < ni && 0 <= c2 < ni
                    &&& blk@[j].negated
                    &&& blk@[j].var == qvar(ni, r2 + 1, c2 + 1)
                    &&& a(qvar(ni, r2 + 1, c2 + 1))
                },
                forall|r2: int, c2: int|
                    (0 <= r2 < r && 0 <= c2 < ni || r2 == r && 0 <= c2 < c) && #[trigger] a(qvar(ni, r2 + 1, c2 + 1))
                        ==> cells.contains((r2, c2)),
            decreases n - c,
        {
            proof {
                assert(bd.len() == ni);
                assert(b@.map_values(|row: Vec<bool>| row@)[r as int] == b@[r as int]@);
                assert(bd[r as int][c as int] == a(qvar(ni, r + 1, c + 1)));
            }
            if b[r][c] {
                let v = var(n, r + 1, c + 1);
                let ghost c0 = cells;
                let ghost b0 = blk@;
                blk.push(Literal::negative(v));
                proof {
                    cells = cells.push((r as int, c as int));
                    assert forall|j: int| 0 <= j < blk@.len() implies {
                        let (r2, c2) = #[trigger] cells[j];
                        &&& 0 <= r2 < ni && 0 <= c2 < ni
                        &&& blk@[j].negated
                        &&& blk@[j].var == qvar(ni, r2 + 1, c2 + 1)
                        &&& a(qvar(ni, r2 + 1, c2 + 1))
                    } by {
                        if j < b0.len() {
                            assert(cells[j] == c0[j] && blk@[j] == b0[j]);
                        }
                    }
                    assert forall|r2: int, c2: int|
                        (0 <= r2 < r && 0 <= c2 < ni || r2 == r && 0 <= c2 < c + 1) && #[trigger] a(qvar(ni, r2 + 1, c2 + 1))
                            implies cells.contains((r2, c2)) by {
                        if r2 == r && c2 == c {
                            assert(cells[c0.len() as int] == (r2, c2));
                        } else {
                            let j = choose|j: int| 0 <= j < c0.len() && c0[j] == (r2, c2);
                            assert(cells[j] == c0[j]);
                        }
                    }
                }
            }
            c = c + 1;
        }
        r = r + 1;
    }
    let cl = Clause::new(blk);
    proof {
        let bc = clause_ints(cl);
        assert forall|a2: spec_fn(int) -> bool| #[trigger] queens_ok(a2, ni) implies (clause_sat(a2, bc)
            <==> board_of(a2, ni) != bd) by {
            if clause_sat(a2, bc) {
                let j = choose|j: int| 0 <= j < bc.len() && #[trigger] lit_true(a2, bc[j]);
                let (r2, c2) = cells[j];
                lemma_qvar_range(ni, r2 + 1, c2 + 1);
                assert(bc[j] == -qvar(ni, r2 + 1, c2 + 1));
                assert(!a2(qvar(ni, r2 + 1, c2 + 1)));
                assert(board_of(a2, ni)[r2][c2] != bd[r2][c2]);
            }
            if board_of(a2, ni) != bd {
                lemma_board_differs(a, a2, ni);
                let (r2, c2) = choose|r2: int, c2: int|
                    0 <= r2 < ni && 0 <= c2 < ni && #[trigger] a(qvar(ni, r2 + 1, c2 + 1)) && !a2(qvar(ni, r2 + 1, c2 + 1));
                assert(cells.contains((r2, c2)));
                let j = choose|j: int| 0 <= j < cells.len() && cells[j] == (r2, c2);
                lemma_qvar_range(ni, r2 + 1, c2 + 1);
                assert(bc[j] == -qvar(ni, r2 + 1, c2 + 1));
                assert(lit_true(a2, bc[j]));
            }
        }
    }
    cl
}

/// Adding a new board to a list of distinct boards of placements, and the
/// clause that blocks it to the clauses that block the others.
proof fn lemma_count_step(
    found: Seq<Seq<Seq<bool>>>,
    bl: Seq<Seq<int>>,
    bc: Seq<int>,
    a: spec_fn(int) -> bool,
    n: int,
)
    requires
        lists_boards(found, n, false),
        queens_ok(a, n),
        !found.contains(board_of(a, n)),
        forall|a2: spec_fn(int) -> bool| #[trigger] queens_ok(a2, n) ==> (formula_sat(a2, bl) <==> !found.contains(
            board_of(a2, n),
        )),
        forall|a2: spec_fn(int) -> bool| #[trigger] queens_ok(a2, n) ==> (clause_sat(a2, bc) <==> board_of(a2, n)
            != board_of(a, n)),
    ensures
        lists_boards(found.push(board_of(a, n)), n, false),
        forall|a2: spec_fn(int) -> bool| #[trigger] queens_ok(a2, n) ==> (formula_sat(a2, bl.push(bc)) <==> !found.push(
            board_of(a, n),
        ).contains(board_of(a2, n))),
{
    let bd = board_of(a, n);
    let f1 = found.push(bd);
    assert(valid_board(bd, n));
    assert forall|a2: spec_fn(int) -> bool| #[trigger] queens_ok(a2, n) implies (formula_sat(a2, bl.push(bc))
        <==> !f1.contains(board_of(a2, n))) by {
        lemma_formula_sat_push(a2, bl, bc);
        let b2 = board_of(a2, n);
        if f1.contains(b2) {
            let i = choose|i: int| 0 <= i < f1.len() && f1[i] == b2;
            if i < found.len() {
                assert(found[i] == f1[i]);
                assert(found.contains(b2));
            }
        }
        if found.contains(b2) {
            let i = choose|i: int| 0 <= i < found.len() && found[i] == b2;
            assert(f1[i] == found[i]);
        }
        if b2 == bd {
            assert(f1[found.len() as int] == bd);
        }
    }
    assert forall|i: int, j: int| 0 <= i < f1.len() && 0 <= j < f1.len() && i != j implies f1[i] != f1[j] by {
        if i < found.len() && j < found.len() {
            assert(f1[i] == found[i] && f1[j] == found[j]);
        } else if i < found.len() {
            assert(f1[i] == found[i]);
            if f1[i] == f1[j] {
                assert(found.contains(bd));
            }
        } else if j < found.len() {
            assert(f1[j] == found[j]);
            if f1[i] == f1[j] {
                assert(found.contains(bd));
            }
        }
    }
    assert forall|i: int| 0 <= i < f1.len() implies valid_board(#[trigger] f1[i], n) by {
        if i < found.len() {
            assert(f1[i] == found[i]);
        }
    }
}

/// The number of placements on an `n`-board, counted by solving again and
/// again, each time blocking the queens of the placement found, until no
/// placement is left.  The count is the number of distinct boards of
/// placements (a complete `lists_boards`), unless it reaches `usize::MAX`,
/// in which case at least that many distinct boards exist.
pub fn count_solutions(n: usize) -> (r: usize)
    requires
        n <= MAX_BOARD,
    ensures
        r > 0 ==> exists|a: spec_fn(int) -> bool| #[trigger] queens_ok(a, n as int),
        exists|bs: Seq<Seq<Seq<bool>>>| bs.len() == r && #[trigger] lists_boards(bs, n as int, false) && (r < usize::MAX
            ==> lists_boards(bs, n as int, true)),
{
    let mut count: usize = 0;
    let mut blocking: Vec<Clause> = Vec::new();
    let ghost mut found: Seq<Seq<Seq<bool>>> = Seq::empty();
    let ghost ni = n as int;
    while count < usize::MAX
        invariant
            n <= MAX_BOARD,
            ni == n as int,
            found.len() == count,
            lists_boards(found, ni, false),
            count > 0 ==> exists|a: spec_fn(int) -> bool| #[trigger] queens_ok(a, ni),
            forall|a: spec_fn(int) -> bool| #[trigger] queens_ok(a, ni) ==> (formula_sat(a, clauses_formula(blocking@))
                <==> !found.contains(board_of(a, ni))),
        ensures
            found.len() == count,
            lists_boards(found, ni, false),
            count > 0 ==> exists|a: spec_fn(int) -> bool| #[trigger] queens_ok(a, ni),
            count < usize::MAX ==> lists_boards(found, ni, true),
        decreases usize::MAX - count,
    {
        let base = generate_nqueens_clauses(n);
        let ghost fb = clauses_formula(base@);
        let all = with_clauses(base, &blocking);
        let ghost f = clauses_formula(all@);
        proof {
            assert forall|a: spec_fn(int) -> bool| #[trigger] formula_sat(a, f) <==> queens_ok(a, ni) && !found.contains(
                board_of(a, ni),
            ) by {
                crate::encode::lemma_formula_sat_append(a, fb, clauses_formula(blocking@));
            }
        }
        match board_model(all, n) {
            None => {
                proof {
                    assert forall|b: Seq<Seq<bool>>| valid_board(b, ni) implies #[trigger] found.contains(b) by {
                        let a = choose|a: spec_fn(int) -> bool| #[trigger] queens_ok(a, ni) && board_of(a, ni) == b;
                        if !found.contains(b) {
                            assert(formula_sat(a, f));
                        }
                    }
                }
                break;
            },
            Some(b) => {
                let ghost a = choose|a: spec_fn(int) -> bool| #[trigger] formula_sat(a, f)
                    && b@.map_values(|row: Vec<bool>| row@) == board_of(a, ni);
                proof {
                    assert(queens_ok(a, ni) && !found.contains(board_of(a, ni)));
                }
                let cl = blocking_clause(&b, n, Ghost(a));
                let ghost bl0 = clauses_formula(blocking@);
                blocking.push(cl);
                count = count + 1;
                proof {
                    lemma_count_step(found, bl0, clause_ints(cl), a, ni);
                    assert(clauses_formula(blocking@) =~= bl0.push(clause_ints(cl)));
                    found = found.push(board_of(a, ni));
                }
            },
        }
    }
    proof {
        assert(lists_boards(found, ni, false) && (count < usize::MAX ==> lists_boards(found, ni, true)));
    }
    count
}

/// The board `b` (rows and columns from 0) shows where assignment `a` puts
/// queens on an `n`-board.
pub open spec fn board_shows(b: Seq<Vec<bool>>, a: spec_fn(int) -> bool, n: int) -> bool {
    &&& b.len() == n
    &&& forall|row: int| 0 <= row < n ==> (#[trigger] b[row])@.len() == n
    &&& forall|row: int, col: int|
        0 <= row < n && 0 <= col < n ==> #[trigger] b[row]@[col] == a(qvar(n, row + 1, col + 1))
}

/// Places `n` queens: `Ok(Some(board))` marks the squares that hold a queen
/// (rows and columns from 0) in a placement with one queen in every row and
/// column and none sharing a diagonal; `Ok(None)` means there is none.
pub fn solve_nqueens(n: usize) -> (r: Result<Option<Vec<Vec<bool>>>, SolverError>)
    requires
        n <= MAX_BOARD,
    ensures
        r matches Ok(Some(b)) ==> exists|a: spec_fn(int) -> bool| #[trigger] queens_ok(a, n as int) && board_shows(b@, a, n as int),
        r matches Ok(None) ==> forall|a: spec_fn(int) -> bool| !#[trigger] queens_ok(a, n as int),
{
    let clauses = generate_nqueens_clauses(n);
    if !solver_input_fits(&clauses) {
        return Err(SolverError::InternalError("Board too large for the solver".to_string()));
    }
    let ghost cs = clauses@;
    let ghost f = clauses_formula(cs);
    proof {
        lemma_drop_empty_id(f);
    }
    let mut solver = CDCLSolver::new(clauses);
    proof {
        assert(solver.formula() =~= f);
    }
    match solver.solve() {
        Err(e) => {
            return Err(e);
        },
        Ok(false) => {
            proof {
                assert forall|a: spec_fn(int) -> bool| !#[trigger] queens_ok(a, n as int) by {
                    if queens_ok(a, n as int) {
                        assert(formula_sat(a, f));
                    }
                }
            }
            return Ok(None);
        },
        Ok(true) => {},
    }
    let ghost m = solver.model();
    let ghost nv = solver.nvars();
    let ghost a = |x: int| x <= nv && m(x);
    proof {
        lemma_sat_agree_below_max(cs, m, a);
        assert(queens_ok(a, n as int));
    }
    let mut board: Vec<Vec<bool>> = Vec::new();
    let mut r: usize = 1;
    while r <= n
        invariant
            n <= MAX_BOARD,
            1 <= r <= n + 1,
            solver.inv(),
            m == solver.model(),
            nv == solver.nvars(),
            a == (|x: int| x <= nv && m(x)),
            board@.len() == r - 1,
            forall|row: int| 0 <= row < r - 1 ==> (#[trigger] board@[row])@.len() == n,
            forall|row: int, col: int|
                0 <= row < r - 1 && 0 <= col < n ==> #[trigger] board@[row]@[col] == a(qvar(n as int, row + 1, col + 1)),
        decreases n + 1 - r,
    {
        let mut line: Vec<bool> = Vec::new();
        let mut c: usize = 1;
        while c <= n
            invariant
                n <= MAX_BOARD,
                1 <= r <= n,
                1 <= c <= n + 1,
                solver.inv(),
                m == solver.model(),
                nv == solver.nvars(),
                a == (|x: int| x <= nv && m(x)),
                line@.len() == c - 1,
                forall|col: int| 0 <= col < c - 1 ==> #[trigger] line@[col] == a(qvar(n as int, r as int, col + 1)),
            decreases n + 1 - c,
        {
            let v = var(n, r, c);
            line.push(solver.get_value(v) == Some(true));
            c = c + 1;
        }
        board.push(line);
        r = r + 1;
    }
    proof {
        assert(board_shows(board@, a, n as int));
    }
    Ok(Some(board))
}

} // verus!
