//! Generation of Sudoku puzzles with a unique solution: a complete grid is
//! found by the solver, then clues are removed in random order as long as
//! the solution stays unique.
use vstd::prelude::*;
use crate::encode::clauses_bounded;
use crate::literal::{clause_ints, clause_sat, clauses_formula, formula_sat, lit_true, satisfiable, Clause, Literal};
use crate::search::satisfiable_by_search;
use crate::solver::{drop_empty, lemma_drop_empty_id, solver_input_fits, CDCLSolver, SolverError};
use crate::sudoku_solver::{add_clues, clues_hold, clues_ok, digit_true, in_1_9, sudoku_rules, var_spec};
pub use crate::sudoku_solver::{decode_var, var};
use crate::text::{chars_eq, str_chars, string_from_chars};
use crate::expr::digit_char;
use rand::seq::SliceRandom;
use rand::Rng;

verus! {

/// The Sudoku rules as clauses, without clues: an assignment satisfies them
/// exactly when it fills the grid by the rules.
pub fn generate_sudoku_clauses() -> (r: Vec<Clause>)
    ensures
        clauses_bounded(r@, 729),
        r@.len() == 11988,
        forall|a: spec_fn(int) -> bool| #[trigger] formula_sat(a, clauses_formula(r@)) <==> sudoku_rules(a),
{
    let none: Vec<(usize, usize, usize)> = Vec::new();
    let r = crate::sudoku_solver::generate_sudoku_clauses(none.as_slice());
    proof {
        assert forall|a: spec_fn(int) -> bool| #[trigger] formula_sat(a, clauses_formula(r@)) <==> sudoku_rules(a) by {
            assert(clues_hold(a, none@));
        }
    }
    r
}

/// What the grid records for cell (`row`, `col`): 0 when no digit is true
/// there, otherwise the largest true digit.
pub open spec fn cell_reading(s: &CDCLSolver, row: int, col: int, x: int) -> bool {
    ||| x == 0 && forall|d: int| in_1_9(d) ==> !#[trigger] digit_true(s, row, col, d)
    ||| in_1_9(x) && digit_true(s, row, col, x) && forall|d: int| x < d <= 9 ==> !#[trigger] digit_true(s, row, col, d)
}

/// The grid read off the solver's assignment, rows of 9 digits; a cell with
/// no true digit reads 0, one with several reads the largest.
pub fn extract_solution(solver: &CDCLSolver) -> (g: Vec<Vec<u8>>)
    requires
        solver.inv(),
    ensures
        g@.len() == 9,
        forall|row: int| 0 <= row < 9 ==> (#[trigger] g@[row])@.len() == 9,
        forall|row: int, col: int|
            0 <= row < 9 && 0 <= col < 9 ==> cell_reading(solver, row + 1, col + 1, #[trigger] g@[row]@[col] as int),
{
    let mut grid: Vec<u8> = Vec::new();
    let mut i: usize = 0;
    while i < 81
        invariant
            i <= 81,
            grid@.len() == i,
            forall|j: int| 0 <= j < i ==> #[trigger] grid@[j] == 0,
        decreases 81 - i,
    {
        grid.push(0);
        i = i + 1;
    }
    let mut v: i32 = 1;
    while v <= 729
        invariant
            solver.inv(),
            1 <= v <= 730,
            grid@.len() == 81,
            forall|row: int, col: int|
                in_1_9(row) && in_1_9(col) ==> {
                    let x = #[trigger] grid@[9 * (row - 1) + (col - 1)] as int;
                    &&& (x == 0 ==> forall|d: int| in_1_9(d) && var_spec(row, col, d) < v ==> !#[trigger] digit_true(solver, row, col, d))
                    &&& (x != 0 ==> in_1_9(x) && var_spec(row, col, x) < v && digit_true(solver, row, col, x) && forall|d: int|
                        x < d <= 9 && var_spec(row, col, d) < v ==> !#[trigger] digit_true(solver, row, col, d))
                },
        decreases 730 - v,
    {
        let val = solver.get_value(v);
        let (row, col, digit) = decode_var(v);
        let idx = (row - 1) * 9 + (col - 1);
        let ghost g0 = grid@;
        if val == Some(true) {
            grid.set(idx, digit as u8);
        }
        proof {
            assert forall|r2: int, c2: int| in_1_9(r2) && in_1_9(c2) implies {
                let x = #[trigger] grid@[9 * (r2 - 1) + (c2 - 1)] as int;
                &&& (x == 0 ==> forall|d: int| in_1_9(d) && var_spec(r2, c2, d) < v + 1 ==> !#[trigger] digit_true(solver, r2, c2, d))
                &&& (x != 0 ==> in_1_9(x) && var_spec(r2, c2, x) < v + 1 && digit_true(solver, r2, c2, x) && forall|d: int|
                    x < d <= 9 && var_spec(r2, c2, d) < v + 1 ==> !#[trigger] digit_true(solver, r2, c2, d))
            } by {
                let i2 = 9 * (r2 - 1) + (c2 - 1);
                assert forall|d: int| in_1_9(d) && var_spec(r2, c2, d) == v implies r2 == row && c2 == col && d == digit by {
                    crate::sudoku_solver::lemma_var_injective(r2, c2, d, row as int, col as int, digit as int);
                }
                if r2 != row || c2 != col {
                    assert(i2 != idx);
                    assert(grid@[i2] == g0[i2]);
                }
            }
        }
        v = v + 1;
    }
    let mut out: Vec<Vec<u8>> = Vec::new();
    let mut r: usize = 0;
    while r < 9
        invariant
            grid@.len() == 81,
            r <= 9,
            out@.len() == r,
            forall|row: int| 0 <= row < r ==> (#[trigger] out@[row])@.len() == 9 && forall|col: int|
                0 <= col < 9 ==> out@[row]@[col] == grid@[9 * row + col],
        decreases 9 - r,
    {
        let mut line: Vec<u8> = Vec::new();
        let mut c: usize = 0;
        while c < 9
            invariant
                r < 9,
                grid@.len() == 81,
                c <= 9,
                line@.len() == c,
                forall|col: int| 0 <= col < c ==> #[trigger] line@[col] == grid@[9 * r + col],
            decreases 9 - c,
        {
            line.push(grid[r * 9 + c]);
            c = c + 1;
        }
        out.push(line);
        r = r + 1;
    }
    proof {
        assert forall|row: int, col: int| 0 <= row < 9 && 0 <= col < 9 implies cell_reading(
            solver,
            row + 1,
            col + 1,
            #[trigger] out@[row]@[col] as int,
        ) by {
            assert(out@[row]@[col] == grid@[9 * row + col]);
            assert(9 * ((row + 1) - 1) + ((col + 1) - 1) == 9 * row + col);
            let x = grid@[9 * row + col] as int;
            if x == 0 {
                assert forall|d: int| in_1_9(d) implies !#[trigger] digit_true(solver, row + 1, col + 1, d) by {
                    assert(var_spec(row + 1, col + 1, d) < 730);
                }
            } else {
                assert forall|d: int| x < d <= 9 implies !#[trigger] digit_true(solver, row + 1, col + 1, d) by {
                    assert(var_spec(row + 1, col + 1, d) < 730);
                }
            }
        }
    }
    out
}

/// Which of the two searches of `check_unique` failed.
#[derive(Clone, Copy, Debug)]
pub enum SearchStage {
    First,
    Second,
}

/// The puzzle given by `clues` has a solution.
pub open spec fn has_solution(clues: Seq<(usize, usize, usize)>) -> bool {
    exists|a: spec_fn(int) -> bool| #[trigger] sudoku_rules(a) && clues_hold(a, clues)
}

/// All solutions of the puzzle agree on every variable.
pub open spec fn solutions_agree(clues: Seq<(usize, usize, usize)>) -> bool {
    forall|a1: spec_fn(int) -> bool, a2: spec_fn(int) -> bool, v: int|
        #![trigger sudoku_rules(a1), sudoku_rules(a2), a1(v)]
        sudoku_rules(a1) && clues_hold(a1, clues) && sudoku_rules(a2) && clues_hold(a2, clues) && 1 <= v <= 729 ==> a1(v) == a2(v)
}

/// The clauses of the puzzle (rules and clues), with the unit clause `lit`
/// when one is given.
fn puzzle_with(clues: &[(usize, usize, usize)], lit: Option<Literal>) -> (r: Vec<Clause>)
    requires
        clues_ok(clues@),
    ensures
        forall|a: spec_fn(int) -> bool| #[trigger] formula_sat(a, clauses_formula(r@)) <==> sudoku_rules(a) && clues_hold(
            a,
            clues@,
        ) && match lit {
            Some(l) => lit_true(a, crate::literal::signed(l)),
            None => true,
        },
{
    let mut cs = generate_sudoku_clauses();
    add_clues(&mut cs, clues);
    match lit {
        None => cs,
        Some(l) => {
            let ghost c0 = cs@;
            let c = Clause::new(vec![l]);
            cs.push(c);
            proof {
                assert(clause_ints(c) =~= seq![crate::literal::signed(l)]);
                assert(clauses_formula(cs@) =~= clauses_formula(c0).push(clause_ints(c)));
                assert forall|a: spec_fn(int) -> bool| #[trigger] formula_sat(a, clauses_formula(cs@)) <==> formula_sat(
                    a,
                    clauses_formula(c0),
                ) && lit_true(a, crate::literal::signed(l)) by {
                    crate::encode::lemma_formula_sat_push(a, clauses_formula(c0), clause_ints(c));
                    if lit_true(a, crate::literal::signed(l)) {
                        assert(lit_true(a, clause_ints(c)[0]));
                    }
                }
            }
            cs
        },
    }
}

/// Whether the puzzle has exactly one solution, decided by trying every
/// assignment: a solution exists, and no variable is true in one solution
/// and false in another.
fn unique_by_search(clues: &[(usize, usize, usize)]) -> (b: bool)
    requires
        clues_ok(clues@),
    ensures
        b == (has_solution(clues@) && solutions_agree(clues@)),
{
    let base = puzzle_with(clues, None);
    if !satisfiable_by_search(&base) {
        proof {
            if has_solution(clues@) {
                let a = choose|a: spec_fn(int) -> bool| #[trigger] sudoku_rules(a) && clues_hold(a, clues@);
                assert(formula_sat(a, clauses_formula(base@)));
            }
        }
        return false;
    }
    proof {
        let a = choose|a: spec_fn(int) -> bool| #[trigger] formula_sat(a, clauses_formula(base@));
        assert(sudoku_rules(a) && clues_hold(a, clues@));
    }
    let mut v: i32 = 1;
    while v <= 729
        invariant
            clues_ok(clues@),
            has_solution(clues@),
            1 <= v <= 730,
            forall|w: int, a1: spec_fn(int) -> bool, a2: spec_fn(int) -> bool|
                #![trigger sudoku_rules(a1), sudoku_rules(a2), a1(w)]
                1 <= w < v && sudoku_rules(a1) && clues_hold(a1, clues@) && sudoku_rules(a2) && clues_hold(a2, clues@)
                    ==> a1(w) == a2(w),
        decreases 730 - v,
    {
        let lp = Literal::positive(v);
        let ln = Literal::negative(v);
        let p = puzzle_with(clues, Some(lp));
        let q = puzzle_with(clues, Some(ln));
        let sp = satisfiable_by_search(&p);
        let sq = satisfiable_by_search(&q);
        if sp && sq {
            proof {
                let a1 = choose|a: spec_fn(int) -> bool| #[trigger] formula_sat(a, clauses_formula(p@));
                let a2 = choose|a: spec_fn(int) -> bool| #[trigger] formula_sat(a, clauses_formula(q@));
                assert(sudoku_rules(a1) && clues_hold(a1, clues@) && a1(v as int));
                assert(sudoku_rules(a2) && clues_hold(a2, clues@) && !a2(v as int));
                if solutions_agree(clues@) {
                    assert(a1(v as int) == a2(v as int));
                }
            }
            return false;
        }
        proof {
            assert forall|w: int, a1: spec_fn(int) -> bool, a2: spec_fn(int) -> bool|
                #![trigger sudoku_rules(a1), sudoku_rules(a2), a1(w)]
                1 <= w < v + 1 && sudoku_rules(a1) && clues_hold(a1, clues@) && sudoku_rules(a2) && clues_hold(a2, clues@)
                    implies a1(w) == a2(w) by {
                if w == v && a1(w) != a2(w) {
                    if a1(w) {
                        assert(formula_sat(a1, clauses_formula(p@)));
                        assert(formula_sat(a2, clauses_formula(q@)));
                    } else {
                        assert(formula_sat(a2, clauses_formula(p@)));
                        assert(formula_sat(a1, clauses_formula(q@)));
                    }
                }
            }
        }
        v = v + 1;
    }
    proof {
        assert forall|a1: spec_fn(int) -> bool, a2: spec_fn(int) -> bool, w: int|
            #![trigger sudoku_rules(a1), sudoku_rules(a2), a1(w)]
            sudoku_rules(a1) && clues_hold(a1, clues@) && sudoku_rules(a2) && clues_hold(a2, clues@) && 1 <= w <= 729
                implies a1(w) == a2(w) by {}
    }
    true
}

/// Decides whether the puzzle has exactly one solution: finds a solution,
/// then looks for another one that differs in some cell.  `Ok(true)`: a
/// solution exists and all solutions agree; `Ok(false)`: no solution, or two
/// that differ.  When a search cannot be handed to the solver, the question
/// is decided by trying every assignment, so the result is always `Ok`.
pub fn check_unique(clues: &[(usize, usize, usize)]) -> (r: Result<bool, SearchStage>)
    requires
        clues_ok(clues@),
    ensures
        r == Ok::<bool, SearchStage>(true) ==> has_solution(clues@) && solutions_agree(clues@),
        r == Ok::<bool, SearchStage>(false) ==> !(has_solution(clues@) && solutions_agree(clues@)),
        r matches Err(SearchStage::Second) ==> has_solution(clues@),
        r is Ok,
{
    let mut clauses = generate_sudoku_clauses();
    add_clues(&mut clauses, clues);
    let ghost f = clauses_formula(clauses@);
    let mut first = generate_sudoku_clauses();
    add_clues(&mut first, clues);
    let ghost f1 = clauses_formula(first@);
    if !solver_input_fits(&first) {
        return Ok(unique_by_search(clues));
    }
    proof {
        lemma_drop_empty_id(f1);
    }
    let mut solver = CDCLSolver::new(first);
    proof {
        assert(solver.formula() =~= f1);
    }
    match solver.solve() {
        Ok(true) => {},
        Ok(false) => {
            proof {
                if has_solution(clues@) {
                    let a = choose|a: spec_fn(int) -> bool| #[trigger] sudoku_rules(a) && clues_hold(a, clues@);
                    assert(formula_sat(a, f1));
                }
            }
            return Ok(false);
        },
        Err(_) => {
            return Ok(unique_by_search(clues));
        },
    }
    let ghost m1 = solver.model();
    proof {
        assert(formula_sat(m1, f1));
        assert(sudoku_rules(m1) && clues_hold(m1, clues@));
        assert(formula_sat(m1, f));
        assert(has_solution(clues@));
    }
    let solution = extract_solution(&solver);
    let mut blocking: Vec<Literal> = Vec::new();
    let mut r: usize = 0;
    while r < 9
        invariant
            solver.inv(),
            clues_ok(clues@),
            solution@.len() == 9,
            forall|row: int| 0 <= row < 9 ==> (#[trigger] solution@[row])@.len() == 9,
            forall|row: int, col: int|
                0 <= row < 9 && 0 <= col < 9 ==> cell_reading(&solver, row + 1, col + 1, #[trigger] solution@[row]@[col] as int),
            r <= 9,
            blocking@.len() == 9 * r,
            forall|j: int| 0 <= j < blocking@.len() ==> {
                let l = #[trigger] blocking@[j];
                &&& l.negated
                &&& l.var == var_spec(j / 9 + 1, j % 9 + 1, solution@[j / 9]@[j % 9] as int)
                &&& in_1_9(solution@[j / 9]@[j % 9] as int)
            },
        decreases 9 - r,
    {
        let mut c: usize = 0;
        while c < 9
            invariant
                solver.inv(),
                clues_ok(clues@),
                solution@.len() == 9,
                forall|row: int| 0 <= row < 9 ==> (#[trigger] solution@[row])@.len() == 9,
                forall|row: int, col: int|
                    0 <= row < 9 && 0 <= col < 9 ==> cell_reading(&solver, row + 1, col + 1, #[trigger] solution@[row]@[col] as int),
                r < 9,
                c <= 9,
                blocking@.len() == 9 * r + c,
                forall|j: int| 0 <= j < blocking@.len() ==> {
                    let l = #[trigger] blocking@[j];
                    &&& l.negated
                    &&& l.var == var_spec(j / 9 + 1, j % 9 + 1, solution@[j / 9]@[j % 9] as int)
                    &&& in_1_9(solution@[j / 9]@[j % 9] as int)
                },
            decreases 9 - c,
        {
            let d = solution[r][c];
            if d == 0 {
                // every cell has a digit in a solution of the rules; this
                // guard only keeps the blocking clause well-formed
                return Ok(unique_by_search(clues));
            }
            proof {
                assert(cell_reading(&solver, r + 1, c + 1, solution@[r as int]@[c as int] as int));
            }
            let ghost b0 = blocking@;
            blocking.push(Literal::negative(var(r + 1, c + 1, d as usize)));
            proof {
                assert forall|j: int| 0 <= j < blocking@.len() implies {
                    let l = #[trigger] blocking@[j];
                    &&& l.negated
                    &&& l.var == var_spec(j / 9 + 1, j % 9 + 1, solution@[j / 9]@[j % 9] as int)
                    &&& in_1_9(solution@[j / 9]@[j % 9] as int)
                } by {
                    if j < b0.len() {
                        assert(blocking@[j] == b0[j]);
                    } else {
                        assert(j == 9 * r + c);
                        assert(j / 9 == r) by (nonlinear_arith)
                            requires
                                j == 9 * r + c,
                                0 <= c < 9,
                        ;
                        assert(j % 9 == c) by (nonlinear_arith)
                            requires
                                j == 9 * r + c,
                                0 <= c < 9,
                        ;
                    }
                }
            }
            c = c + 1;
        }
        r = r + 1;
    }
    let ghost bl = blocking@;
    let blk = Clause::new(blocking);
    let ghost cs1 = clauses@;
    clauses.push(blk);
    let ghost f2 = clauses_formula(clauses@);
    proof {
        assert(f2 =~= f.push(clause_ints(blk)));
    }
    if !solver_input_fits(&clauses) {
        return Ok(unique_by_search(clues));
    }
    proof {
        lemma_drop_empty_id(f2);
    }
    let mut solver2 = CDCLSolver::new(clauses);
    proof {
        assert(solver2.formula() =~= drop_empty(f2));
    }
    let outcome = solver2.solve();
    proof {
        // the first model is a solution; it makes every grid variable true
        assert(formula_sat(m1, f));
        assert forall|row: int, col: int| 0 <= row < 9 && 0 <= col < 9 implies #[trigger] m1(
            var_spec(row + 1, col + 1, solution@[row]@[col] as int),
        ) by {
            let j = 9 * row + col;
            assert(j / 9 == row) by (nonlinear_arith)
                requires
                    j == 9 * row + col,
                    0 <= col < 9,
            ;
            assert(j % 9 == col) by (nonlinear_arith)
                requires
                    j == 9 * row + col,
                    0 <= col < 9,
            ;
            let l = bl[j];
            assert(in_1_9(solution@[j / 9]@[j % 9] as int));
            assert(in_1_9(solution@[row]@[col] as int));
            assert(cell_reading(&solver, row + 1, col + 1, solution@[row]@[col] as int));
        }
    }
    match outcome {
        Ok(false) => {
            proof {
                // every solution makes the blocking clause false: it agrees
                // with the first model on the grid, hence everywhere
                assert(has_solution(clues@)) by {
                    assert(sudoku_rules(m1) && clues_hold(m1, clues@));
                }
                assert forall|a1: spec_fn(int) -> bool, a2: spec_fn(int) -> bool, v: int|
                    #![trigger sudoku_rules(a1), sudoku_rules(a2), a1(v)]
                    sudoku_rules(a1) && clues_hold(a1, clues@) && sudoku_rules(a2) && clues_hold(a2, clues@) && 1 <= v <= 729 implies a1(v) == a2(v) by {
                    lemma_blocked_agrees(f, clause_ints(blk), bl, solution@, a1, clues@);
                    lemma_blocked_agrees(f, clause_ints(blk), bl, solution@, a2, clues@);
                    let w = v - 1;
                    let row = w / 81 + 1;
                    let col = (w % 81) / 9 + 1;
                    let dig = w % 9 + 1;
                    assert(in_1_9(row) && in_1_9(col) && in_1_9(dig) && var_spec(row, col, dig) == v) by (nonlinear_arith)
                        requires
                            w == v - 1,
                            row == w / 81 + 1,
                            col == (w % 81) / 9 + 1,
                            dig == w % 9 + 1,
                            1 <= v <= 729,
                    ;
                    lemma_grid_determines(a1, a2, solution@, row, col, dig);
                }
            }
            Ok(true)
        },
        Ok(true) => {
            proof {
                let m2 = solver2.model();
                assert(formula_sat(m2, f2));
                crate::encode::lemma_formula_sat_push(m2, f, clause_ints(blk));
                assert(sudoku_rules(m2) && clues_hold(m2, clues@));
                let bc = clause_ints(blk);
                let k = choose|k: int| 0 <= k < bc.len() && #[trigger] lit_true(m2, bc[k]);
                let row = k / 9;
                let col = k % 9;
                assert(bl[k].negated);
                let v = var_spec(row + 1, col + 1, solution@[row]@[col] as int);
                assert(bc[k] == -v);
                assert(!m2(v));
                assert(0 <= row < 9 && 0 <= col < 9);
                assert(m1(v));
                assert(sudoku_rules(m1) && clues_hold(m1, clues@));
                if solutions_agree(clues@) {
                    assert(m1(v) == m2(v));
                }
            }
            Ok(false)
        },
        Err(_) => Ok(unique_by_search(clues)),
    }
}

/// A solution of a puzzle whose formula is unsatisfiable together with the
/// blocking clause of a grid makes every variable of that grid true.
proof fn lemma_blocked_agrees(
    f: Seq<Seq<int>>,
    bc: Seq<int>,
    bl: Seq<Literal>,
    grid: Seq<Vec<u8>>,
    a: spec_fn(int) -> bool,
    clues: Seq<(usize, usize, usize)>,
)
    requires
        !satisfiable(f.push(bc)),
        forall|b: spec_fn(int) -> bool| #[trigger] formula_sat(b, f) <==> sudoku_rules(b) && clues_hold(b, clues),
        sudoku_rules(a),
        clues_hold(a, clues),
        bl.len() == 81,
        bc == crate::literal::signed_seq(bl),
        grid.len() == 9,
        forall|row: int| 0 <= row < 9 ==> (#[trigger] grid[row])@.len() == 9,
        forall|j: int| 0 <= j < bl.len() ==> {
            let l = #[trigger] bl[j];
            &&& l.negated
            &&& l.var == var_spec(j / 9 + 1, j % 9 + 1, grid[j / 9]@[j % 9] as int)
            &&& in_1_9(grid[j / 9]@[j % 9] as int)
        },
    ensures
        forall|row: int, col: int| 0 <= row < 9 && 0 <= col < 9 ==> in_1_9(#[trigger] grid[row]@[col] as int),
        forall|row: int, col: int|
            0 <= row < 9 && 0 <= col < 9 ==> #[trigger] a(var_spec(row + 1, col + 1, grid[row]@[col] as int)),
{
    assert(formula_sat(a, f));
    crate::encode::lemma_formula_sat_push(a, f, bc);
    assert(!clause_sat(a, bc));
    assert forall|row: int, col: int| 0 <= row < 9 && 0 <= col < 9 implies in_1_9(#[trigger] grid[row]@[col] as int) && a(
        var_spec(row + 1, col + 1, grid[row]@[col] as int),
    ) by {
        let j = 9 * row + col;
        assert(j / 9 == row) by (nonlinear_arith)
            requires
                j == 9 * row + col,
                0 <= col < 9,
        ;
        assert(j % 9 == col) by (nonlinear_arith)
            requires
                j == 9 * row + col,
                0 <= col < 9,
        ;
        assert(0 <= j < 81);
        let v = var_spec(row + 1, col + 1, grid[row]@[col] as int);
        let l = bl[j];
        assert(l.negated);
        assert(l.var == var_spec(j / 9 + 1, j % 9 + 1, grid[j / 9]@[j % 9] as int));
        assert(in_1_9(grid[j / 9]@[j % 9] as int));
        assert(grid[j / 9]@[j % 9] == grid[row]@[col]);
        assert(in_1_9(grid[row]@[col] as int));
        assert(l.var == v);
        assert(bc[j] == -v);
        assert(v >= 1);
        if !a(v) {
            assert(lit_true(a, bc[j]));
            assert(clause_sat(a, bc));
        }
    }
}

/// Two solutions that make the same digit true in every cell agree on
/// every variable.
proof fn lemma_grid_determines(
    a1: spec_fn(int) -> bool,
    a2: spec_fn(int) -> bool,
    grid: Seq<Vec<u8>>,
    row: int,
    col: int,
    dig: int,
)
    requires
        sudoku_rules(a1),
        sudoku_rules(a2),
        in_1_9(row),
        in_1_9(col),
        in_1_9(dig),
        grid.len() == 9,
        forall|r: int| 0 <= r < 9 ==> (#[trigger] grid[r])@.len() == 9,
        forall|r: int, c: int| 0 <= r < 9 && 0 <= c < 9 ==> in_1_9(#[trigger] grid[r]@[c] as int),
        forall|r: int, c: int|
            0 <= r < 9 && 0 <= c < 9 ==> #[trigger] a1(var_spec(r + 1, c + 1, grid[r]@[c] as int)),
        forall|r: int, c: int|
            0 <= r < 9 && 0 <= c < 9 ==> #[trigger] a2(var_spec(r + 1, c + 1, grid[r]@[c] as int)),
    ensures
        a1(var_spec(row, col, dig)) == a2(var_spec(row, col, dig)),
{
    let r0 = row - 1;
    let c0 = col - 1;
    let g = grid[r0]@[c0] as int;
    assert(a1(var_spec(r0 + 1, c0 + 1, grid[r0]@[c0] as int)));
    assert(a2(var_spec(r0 + 1, c0 + 1, grid[r0]@[c0] as int)));
    assert(in_1_9(g));
    assert(var_spec(r0 + 1, c0 + 1, g) == var_spec(row, col, g));
    let cv = crate::sudoku_solver::group_vars(0, row, col);
    assert(crate::encode::exactly_one(a1, cv));
    assert(crate::encode::exactly_one(a2, cv));
    assert(cv[g - 1] == var_spec(row, col, g));
    assert(cv[dig - 1] == var_spec(row, col, dig));
    if dig != g {
        if dig < g {
            assert(!(a1(cv[dig - 1]) && a1(cv[g - 1])));
            assert(!(a2(cv[dig - 1]) && a2(cv[g - 1])));
        } else {
            assert(!(a1(cv[g - 1]) && a1(cv[dig - 1])));
            assert(!(a2(cv[g - 1]) && a2(cv[dig - 1])));
        }
    }
}

/// Whether the puzzle given by `clues` has exactly one solution (see
/// `check_unique`).
pub fn has_unique_solution(clues: &[(usize, usize, usize)]) -> (r: bool)
    requires
        clues_ok(clues@),
    ensures
        r ==> has_solution(clues@),
        r == (has_solution(clues@) && solutions_agree(clues@)),
{
    match check_unique(clues) {
        Ok(b) => b,
        Err(SearchStage::First) => false,
        Err(SearchStage::Second) => true,
    }
}


/// The variables of a constraint group are Sudoku variables.
pub proof fn lemma_group_vars_range(kind: int, x: int, y: int, k: int)
    requires
        0 <= kind < 4,
        in_1_9(x),
        in_1_9(y),
        0 <= k < 9,
    ensures
        1 <= crate::sudoku_solver::group_vars(kind, x, y)[k] <= 729,
{
    let q = (x - 1) / 3;
    let m = (x - 1) % 3;
    assert(0 <= q < 3 && 0 <= m < 3);
    assert(0 <= k / 3 < 3 && 0 <= k % 3 < 3);
}

/// Two assignments that agree on the Sudoku variables agree on the rules.
pub proof fn lemma_rules_transfer(a: spec_fn(int) -> bool, b: spec_fn(int) -> bool)
    requires
        sudoku_rules(a),
        forall|v: int| 1 <= v <= 729 ==> #[trigger] a(v) == b(v),
    ensures
        sudoku_rules(b),
{
    assert forall|kind: int, x: int, y: int| 0 <= kind < 4 && in_1_9(x) && in_1_9(y) implies #[trigger] crate::encode::exactly_one(
        b,
        crate::sudoku_solver::group_vars(kind, x, y),
    ) by {
        let gv = crate::sudoku_solver::group_vars(kind, x, y);
        assert(crate::encode::exactly_one(a, gv));
        assert forall|k: int| 0 <= k < 9 implies #[trigger] a(gv[k]) == b(gv[k]) by {
            lemma_group_vars_range(kind, x, y, k);
        }
        let k0 = choose|k: int| 0 <= k < gv.len() && #[trigger] a(gv[k]);
        assert(b(gv[k0]));
        assert forall|p: int, q: int| 0 <= p < q < gv.len() implies !(#[trigger] b(gv[p]) && #[trigger] b(gv[q])) by {
            assert(a(gv[p]) == b(gv[p]));
            assert(a(gv[q]) == b(gv[q]));
        }
    }
}

/// The assignment that makes true exactly the variables of the grid's
/// digits.
pub open spec fn grid_assignment(g: Seq<Vec<u8>>) -> spec_fn(int) -> bool {
    |v: int| exists|r: int, c: int| 0 <= r < 9 && 0 <= c < 9 && v == #[trigger] var_spec(r + 1, c + 1, g[r]@[c] as int)
}

/// A complete grid: nine rows of nine digits that obey the rules.
pub open spec fn valid_grid(g: Seq<Vec<u8>>) -> bool {
    &&& g.len() == 9
    &&& forall|r: int| 0 <= r < 9 ==> (#[trigger] g[r])@.len() == 9
    &&& forall|r: int, c: int| 0 <= r < 9 && 0 <= c < 9 ==> in_1_9(#[trigger] g[r]@[c] as int)
    &&& sudoku_rules(grid_assignment(g))
}

/// An assignment that fills the grid by the rules, read into `g` (each
/// cell holds a digit whose variable is true), makes `g` a complete grid,
/// and agrees with `g` on every variable.
pub proof fn lemma_model_grid(m: spec_fn(int) -> bool, g: Seq<Vec<u8>>)
    requires
        sudoku_rules(m),
        g.len() == 9,
        forall|row: int| 0 <= row < 9 ==> (#[trigger] g[row])@.len() == 9,
        forall|row: int, col: int|
            0 <= row < 9 && 0 <= col < 9 ==> in_1_9(#[trigger] g[row]@[col] as int) && m(
                var_spec(row + 1, col + 1, g[row]@[col] as int),
            ),
    ensures
        valid_grid(g),
        forall|v: int| 1 <= v <= 729 ==> #[trigger] m(v) == grid_assignment(g)(v),
{
    let ga = grid_assignment(g);
    assert forall|v: int| 1 <= v <= 729 implies #[trigger] m(v) == ga(v) by {
        let w = v - 1;
        let row = w / 81 + 1;
        let col = (w % 81) / 9 + 1;
        let dig = w % 9 + 1;
        assert(in_1_9(row) && in_1_9(col) && in_1_9(dig) && var_spec(row, col, dig) == v) by (nonlinear_arith)
            requires
                w == v - 1,
                row == w / 81 + 1,
                col == (w % 81) / 9 + 1,
                dig == w % 9 + 1,
                1 <= v <= 729,
        ;
        let gd = g[row - 1]@[col - 1] as int;
        assert(in_1_9(gd) && m(var_spec((row - 1) + 1, (col - 1) + 1, g[row - 1]@[col - 1] as int)));
        if m(v) {
            if dig != gd {
                let cv = crate::sudoku_solver::group_vars(0, row, col);
                assert(crate::encode::exactly_one(m, cv));
                assert(cv[dig - 1] == v);
                assert(cv[gd - 1] == var_spec(row, col, gd));
                if dig < gd {
                    assert(!(m(cv[dig - 1]) && m(cv[gd - 1])));
                } else {
                    assert(!(m(cv[gd - 1]) && m(cv[dig - 1])));
                }
            }
            assert(v == var_spec((row - 1) + 1, (col - 1) + 1, g[row - 1]@[col - 1] as int));
        }
        if ga(v) {
            let (r, c) = choose|r: int, c: int| 0 <= r < 9 && 0 <= c < 9 && v == #[trigger] var_spec(r + 1, c + 1, g[r]@[c] as int);
            assert(m(var_spec(r + 1, c + 1, g[r]@[c] as int)));
        }
    }
    lemma_rules_transfer(m, ga);
}

/// A complete Sudoku grid found by the solver, or `None` when the search
/// does not finish.
pub fn generate_complete_grid() -> (r: Option<Vec<Vec<u8>>>)
    ensures
        r matches Some(g) ==> valid_grid(g@),
{
    let clauses = generate_sudoku_clauses();
    let ghost f = clauses_formula(clauses@);
    if !solver_input_fits(&clauses) {
        return None;
    }
    proof {
        lemma_drop_empty_id(f);
    }
    let mut solver = CDCLSolver::new(clauses);
    proof {
        assert(solver.formula() =~= f);
    }
    match solver.solve() {
        Ok(true) => {},
        _ => {
            return None;
        },
    }
    if solver.get_model().len() < 730 {
        return None;
    }
    let ghost m = solver.model();
    let g = extract_solution(&solver);
    proof {
        assert(formula_sat(m, f));
        assert(sudoku_rules(m));
        assert forall|row: int, col: int| 0 <= row < 9 && 0 <= col < 9 implies in_1_9(#[trigger] g@[row]@[col] as int) && m(
            var_spec(row + 1, col + 1, g@[row]@[col] as int),
        ) by {
            assert(cell_reading(&solver, row + 1, col + 1, g@[row]@[col] as int));
            let cv = crate::sudoku_solver::group_vars(0, row + 1, col + 1);
            assert(crate::encode::exactly_one(m, cv));
            let k = choose|k: int| 0 <= k < cv.len() && #[trigger] m(cv[k]);
            lemma_group_vars_range(0, row + 1, col + 1, k);
            assert(cv[k] == var_spec(row + 1, col + 1, k + 1));
            assert(digit_true(&solver, row + 1, col + 1, k + 1));
        }
        lemma_model_grid(m, g@);
    }
    Some(g)
}


/// Shuffles the cells in place: `rand::seq::SliceRandom::shuffle` with
/// `rand::thread_rng()`.  The result is a permutation of the input (the
/// shuffle only swaps elements); which one is left to chance.
#[verifier::external_body]
fn shuffle_cells(cells: &mut Vec<(usize, usize)>)
    ensures
        final(cells)@.to_multiset() == old(cells)@.to_multiset(),
{
    cells.shuffle(&mut rand::thread_rng());
}

/// A number drawn from `lo..=hi`: `rand::Rng::gen_range` with
/// `rand::thread_rng()`.  Only the range is promised.
#[verifier::external_body]
fn random_in_range(lo: usize, hi: usize) -> (r: usize)
    requires
        lo <= hi,
    ensures
        lo <= r <= hi,
{
    rand::thread_rng().gen_range(lo..=hi)
}

/// How many clues a generated puzzle aims at.
#[derive(Clone, Copy, Debug, PartialEq, Eq, Structural)]
pub enum Difficulty {
    Easy,
    Medium,
    Hard,
    Expert,
}

/// The inclusive range of clue counts for a difficulty.
pub open spec fn clue_range(d: Difficulty) -> (int, int) {
    match d {
        Difficulty::Easy => (35, 45),
        Difficulty::Medium => (28, 34),
        Difficulty::Hard => (22, 27),
        Difficulty::Expert => (17, 21),
    }
}

impl Difficulty {
    /// The difficulty named `easy`, `medium`, `hard` or `expert`.
    pub fn from_name(name: &str) -> (r: Option<Difficulty>)
        ensures
            r == if name@ == "easy"@ {
                Some(Difficulty::Easy)
            } else if name@ == "medium"@ {
                Some(Difficulty::Medium)
            } else if name@ == "hard"@ {
                Some(Difficulty::Hard)
            } else if name@ == "expert"@ {
                Some(Difficulty::Expert)
            } else {
                None
            },
    {
        let n = str_chars(name);
        let easy = str_chars("easy");
        let medium = str_chars("medium");
        let hard = str_chars("hard");
        let expert = str_chars("expert");
        if chars_eq(n.as_slice(), easy.as_slice()) {
            Some(Difficulty::Easy)
        } else if chars_eq(n.as_slice(), medium.as_slice()) {
            Some(Difficulty::Medium)
        } else if chars_eq(n.as_slice(), hard.as_slice()) {
            Some(Difficulty::Hard)
        } else if chars_eq(n.as_slice(), expert.as_slice()) {
            Some(Difficulty::Expert)
        } else {
            None
        }
    }

    /// A clue count drawn from the difficulty's range: 35 to 45 for easy,
    /// 28 to 34 for medium, 22 to 27 for hard, 17 to 21 for expert.
    pub fn target_clues(self) -> (r: usize)
        ensures
            clue_range(self).0 <= r <= clue_range(self).1,
    {
        match self {
            Difficulty::Easy => random_in_range(35, 45),
            Difficulty::Medium => random_in_range(28, 34),
            Difficulty::Hard => random_in_range(22, 27),
            Difficulty::Expert => random_in_range(17, 21),
        }
    }
}

/// Every clue names a cell and digit of the grid.
pub open spec fn clues_in_grid(clues: Seq<(usize, usize, usize)>, g: Seq<Vec<u8>>) -> bool {
    forall|j: int|
        0 <= j < clues.len() ==> in_1_9((#[trigger] clues[j]).0 as int) && in_1_9(clues[j].1 as int) && g[clues[j].0
            - 1]@[clues[j].1 - 1] as int == clues[j].2 as int
}

/// A puzzle and its solution: a complete grid, then, starting from all 81
/// cells as clues, clues removed in random order while the puzzle keeps a
/// unique solution and has more than `target_clues` clues.  `None` when a
/// search does not finish.
pub fn generate_puzzle(target_clues: usize) -> (r: Option<(Vec<(usize, usize, usize)>, Vec<Vec<u8>>)>)
    ensures
        r matches Some(p) ==> valid_grid(p.1@) && clues_in_grid(p.0@, p.1@) && p.0@.len() <= 81 && has_solution(p.0@)
            && solutions_agree(p.0@),
{
    let solution = match generate_complete_grid() {
        Some(g) => g,
        None => {
            return None;
        },
    };
    let mut cells: Vec<(usize, usize)> = Vec::new();
    let mut r: usize = 0;
    while r < 9
        invariant
            r <= 9,
            cells@.len() == 9 * r,
            forall|k: int| 0 <= k < cells@.len() ==> (#[trigger] cells@[k]).0 < 9 && cells@[k].1 < 9,
            forall|r2: int, c2: int| 0 <= r2 < 9 && 0 <= c2 < 9 && r2 < r ==> #[trigger] cells@.contains((r2 as usize, c2 as usize)),
        decreases 9 - r,
    {
        let mut c: usize = 0;
        while c < 9
            invariant
                r < 9,
                c <= 9,
                cells@.len() == 9 * r + c,
                forall|k: int| 0 <= k < cells@.len() ==> (#[trigger] cells@[k]).0 < 9 && cells@[k].1 < 9,
                forall|r2: int, c2: int| 0 <= r2 < 9 && 0 <= c2 < 9 && (r2 < r || (r2 == r && c2 < c)) ==> #[trigger] cells@.contains(
                    (r2 as usize, c2 as usize),
                ),
            decreases 9 - c,
        {
            let ghost c0 = cells@;
            cells.push((r, c));
            proof {
                assert forall|r2: int, c2: int| 0 <= r2 < 9 && 0 <= c2 < 9 && (r2 < r || (r2 == r && c2 < c + 1)) implies #[trigger] cells@.contains(
                    (r2 as usize, c2 as usize),
                ) by {
                    if r2 == r && c2 == c {
                        assert(cells@[cells@.len() - 1] == (r2 as usize, c2 as usize));
                    } else {
                        assert(c0.contains((r2 as usize, c2 as usize)));
                        let q = choose|q: int| 0 <= q < c0.len() && c0[q] == (r2 as usize, c2 as usize);
                        assert(cells@[q] == c0[q]);
                    }
                }
            }
            c = c + 1;
        }
        r = r + 1;
    }
    let ghost before = cells@;
    shuffle_cells(&mut cells);
    proof {
        assert forall|k: int| 0 <= k < cells@.len() implies (#[trigger] cells@[k]).0 < 9 && cells@[k].1 < 9 by {
            let x = cells@[k];
            vstd::seq_lib::to_multiset_contains(cells@, x);
            vstd::seq_lib::to_multiset_contains(before, x);
            assert(cells@.contains(x));
            let i = choose|i: int| 0 <= i < before.len() && before[i] == x;
        }
        vstd::seq_lib::to_multiset_len(cells@);
        vstd::seq_lib::to_multiset_len(before);
        assert forall|r2: int, c2: int| 0 <= r2 < 9 && 0 <= c2 < 9 implies #[trigger] cells@.contains((r2 as usize, c2 as usize)) by {
            let x = (r2 as usize, c2 as usize);
            assert(before.contains(x));
            vstd::seq_lib::to_multiset_contains(before, x);
            vstd::seq_lib::to_multiset_contains(cells@, x);
        }
    }
    let clues = remove_clues(&solution, &cells, target_clues);
    Some((clues, solution))
}

/// Every cell of the grid appears in `order`.
pub open spec fn all_cells(order: Seq<(usize, usize)>) -> bool {
    &&& forall|q: int| 0 <= q < order.len() ==> (#[trigger] order[q]).0 < 9 && order[q].1 < 9
    &&& forall|r: int, c: int| 0 <= r < 9 && 0 <= c < 9 ==> #[trigger] order.contains((r as usize, c as usize))
}

/// Some clue names cell (`r`, `c`) (both from 0).
pub open spec fn cell_clued(clues: Seq<(usize, usize, usize)>, r: int, c: int) -> bool {
    exists|q: int| 0 <= q < clues.len() && #[trigger] clues[q].0 == r + 1 && clues[q].1 == c + 1
}

/// Clues that give every cell of a complete grid have that grid as their
/// only solution.
pub proof fn lemma_full_clues_unique(g: Seq<Vec<u8>>, clues: Seq<(usize, usize, usize)>)
    requires
        valid_grid(g),
        clues_in_grid(clues, g),
        forall|r: int, c: int| 0 <= r < 9 && 0 <= c < 9 ==> #[trigger] cell_clued(clues, r, c),
    ensures
        has_solution(clues),
        solutions_agree(clues),
{
    let ga = grid_assignment(g);
    assert forall|j: int| 0 <= j < clues.len() implies #[trigger] ga(
        var_spec(clues[j].0 as int, clues[j].1 as int, clues[j].2 as int),
    ) by {
        let r0 = clues[j].0 - 1;
        let c0 = clues[j].1 - 1;
        assert(var_spec(clues[j].0 as int, clues[j].1 as int, clues[j].2 as int) == var_spec(r0 + 1, c0 + 1, g[r0]@[c0] as int));
    }
    assert(sudoku_rules(ga) && clues_hold(ga, clues));
    assert forall|a1: spec_fn(int) -> bool, a2: spec_fn(int) -> bool, v: int|
        #![trigger sudoku_rules(a1), sudoku_rules(a2), a1(v)]
        sudoku_rules(a1) && clues_hold(a1, clues) && sudoku_rules(a2) && clues_hold(a2, clues) && 1 <= v <= 729 implies a1(v)
            == a2(v) by {
        let w = v - 1;
        let row = w / 81 + 1;
        let col = (w % 81) / 9 + 1;
        let dig = w % 9 + 1;
        assert(in_1_9(row) && in_1_9(col) && in_1_9(dig) && var_spec(row, col, dig) == v) by (nonlinear_arith)
            requires
                w == v - 1,
                row == w / 81 + 1,
                col == (w % 81) / 9 + 1,
                dig == w % 9 + 1,
                1 <= v <= 729,
        ;
        assert(cell_clued(clues, row - 1, col - 1));
        let q = choose|q: int| 0 <= q < clues.len() && #[trigger] clues[q].0 == (row - 1) + 1 && clues[q].1 == (col - 1) + 1;
        let gd = clues[q].2 as int;
        assert(in_1_9(gd)) by {
            assert(g[row - 1]@[col - 1] as int == gd);
        }
        let cv = crate::sudoku_solver::group_vars(0, row, col);
        assert(cv[dig - 1] == v);
        assert(cv[gd - 1] == var_spec(row, col, gd));
        assert(a1(var_spec(row, col, gd)) && a2(var_spec(row, col, gd)));
        assert(crate::encode::exactly_one(a1, cv));
        assert(crate::encode::exactly_one(a2, cv));
        if dig != gd {
            if dig < gd {
                assert(!(a1(cv[dig - 1]) && a1(cv[gd - 1])));
                assert(!(a2(cv[dig - 1]) && a2(cv[gd - 1])));
            } else {
                assert(!(a1(cv[gd - 1]) && a1(cv[dig - 1])));
                assert(!(a2(cv[gd - 1]) && a2(cv[dig - 1])));
            }
        }
    }
}

/// The clues of a puzzle made from the complete grid `solution`: every
/// cell, taken in `order`, is a clue; then the cells, in `order`, are tried
/// for removal while more than `target` clues remain, and a removal is kept
/// when the search shows that the puzzle still has exactly one solution.
/// The clues returned agree with the grid and have exactly one solution.
pub fn remove_clues(solution: &Vec<Vec<u8>>, order: &Vec<(usize, usize)>, target: usize) -> (r: Vec<(usize, usize, usize)>)
    requires
        valid_grid(solution@),
        all_cells(order@),
    ensures
        clues_in_grid(r@, solution@),
        r@.len() <= order@.len(),
        has_solution(r@),
        solutions_agree(r@),
{
    let mut clues: Vec<(usize, usize, usize)> = Vec::new();
    let mut k: usize = 0;
    while k < order.len()
        invariant
            valid_grid(solution@),
            all_cells(order@),
            k <= order@.len(),
            clues@.len() == k,
            clues_in_grid(clues@, solution@),
            forall|q: int| 0 <= q < k ==> (#[trigger] clues@[q]).0 == order@[q].0 + 1 && clues@[q].1 == order@[q].1 + 1,
        decreases order@.len() - k,
    {
        let (r, c) = order[k];
        proof {
            assert(order@[k as int].0 < 9 && order@[k as int].1 < 9);
        }
        let d = solution[r][c] as usize;
        let ghost c0 = clues@;
        clues.push((r + 1, c + 1, d));
        proof {
            assert forall|j: int| 0 <= j < clues@.len() implies in_1_9((#[trigger] clues@[j]).0 as int) && in_1_9(
                clues@[j].1 as int,
            ) && solution@[clues@[j].0 - 1]@[clues@[j].1 - 1] as int == clues@[j].2 as int by {
                if j < c0.len() {
                    assert(clues@[j] == c0[j]);
                }
            }
        }
        k = k + 1;
    }
    proof {
        assert forall|r: int, c: int| 0 <= r < 9 && 0 <= c < 9 implies #[trigger] cell_clued(clues@, r, c) by {
            assert(order@.contains((r as usize, c as usize)));
            let q = choose|q: int| 0 <= q < order@.len() && order@[q] == (r as usize, c as usize);
            assert(clues@[q].0 == r + 1 && clues@[q].1 == c + 1);
        }
        lemma_full_clues_unique(solution@, clues@);
    }
    let mut k: usize = 0;
    while k < order.len()
        invariant
            valid_grid(solution@),
            all_cells(order@),
            k <= order@.len(),
            clues@.len() <= order@.len(),
            clues_in_grid(clues@, solution@),
            has_solution(clues@),
            solutions_agree(clues@),
        decreases order@.len() - k,
    {
        if clues.len() <= target {
            break;
        }
        let (r, c) = order[k];
        proof {
            assert(order@[k as int].0 < 9 && order@[k as int].1 < 9);
        }
        k = k + 1;
        let remove = (r + 1, c + 1, solution[r][c] as usize);
        let mut new_clues: Vec<(usize, usize, usize)> = Vec::new();
        let mut j: usize = 0;
        while j < clues.len()
            invariant
                valid_grid(solution@),
                j <= clues@.len(),
                clues@.len() <= order@.len(),
                new_clues@.len() <= j,
                clues_in_grid(clues@, solution@),
                clues_in_grid(new_clues@, solution@),
            decreases clues@.len() - j,
        {
            let x = clues[j];
            if !(x.0 == remove.0 && x.1 == remove.1 && x.2 == remove.2) {
                let ghost n0 = new_clues@;
                new_clues.push(x);
                proof {
                    assert forall|q: int| 0 <= q < new_clues@.len() implies in_1_9((#[trigger] new_clues@[q]).0 as int)
                        && in_1_9(new_clues@[q].1 as int) && solution@[new_clues@[q].0 - 1]@[new_clues@[q].1 - 1] as int
                        == new_clues@[q].2 as int by {
                        if q < n0.len() {
                            assert(new_clues@[q] == n0[q]);
                        } else {
                            assert(new_clues@[q] == clues@[j as int]);
                        }
                    }
                }
            }
            j = j + 1;
        }
        proof {
            assert forall|q: int| 0 <= q < new_clues@.len() implies in_1_9((#[trigger] new_clues@[q]).2 as int) by {
                let cl = new_clues@[q];
                assert(in_1_9(solution@[cl.0 - 1]@[cl.1 - 1] as int));
            }
        }
        match check_unique(new_clues.as_slice()) {
            Ok(true) => {
                clues = new_clues;
            },
            _ => {},
        }
    }
    clues
}

/// The grid written by the clues (a later clue for a cell overwrites an
/// earlier one), cells row by row; a digit is kept modulo 256.
pub open spec fn clue_grid(clues: Seq<(usize, usize, usize)>) -> Seq<u8>
    decreases clues.len(),
{
    if clues.len() == 0 {
        Seq::new(81, |i: int| 0u8)
    } else {
        let cl = clues.last();
        clue_grid(clues.drop_last()).update(9 * (cl.0 - 1) + (cl.1 - 1), (cl.2 % 256) as u8)
    }
}

/// The character of a grid entry: its digit, or `0` when it is not a digit.
pub open spec fn entry_char(x: u8) -> char {
    if x < 10 {
        digit_char(x as int)
    } else {
        '0'
    }
}

/// The puzzle as a string of 81 characters, row by row, `0` for an empty
/// cell.
pub fn puzzle_to_string(clues: &[(usize, usize, usize)]) -> (s: String)
    requires
        forall|j: int| 0 <= j < clues@.len() ==> in_1_9((#[trigger] clues@[j]).0 as int) && in_1_9(clues@[j].1 as int),
    ensures
        s@ == Seq::new(81, |i: int| entry_char(clue_grid(clues@)[i])),
{
    let mut grid: Vec<u8> = Vec::new();
    let mut i: usize = 0;
    while i < 81
        invariant
            i <= 81,
            grid@ == Seq::new(i as nat, |q: int| 0u8),
        decreases 81 - i,
    {
        grid.push(0);
        i = i + 1;
        proof {
            assert(grid@ =~= Seq::new(i as nat, |q: int| 0u8));
        }
    }
    let mut j: usize = 0;
    while j < clues.len()
        invariant
            forall|q: int| 0 <= q < clues@.len() ==> in_1_9((#[trigger] clues@[q]).0 as int) && in_1_9(clues@[q].1 as int),
            j <= clues@.len(),
            grid@.len() == 81,
            grid@ == clue_grid(clues@.subrange(0, j as int)),
        decreases clues@.len() - j,
    {
        let (r, c, d) = clues[j];
        proof {
            assert(in_1_9(clues@[j as int].0 as int) && in_1_9(clues@[j as int].1 as int));
            assert(clues@.subrange(0, j + 1).drop_last() =~= clues@.subrange(0, j as int));
        }
        grid.set((r - 1) * 9 + (c - 1), (d % 256) as u8);
        j = j + 1;
    }
    proof {
        assert(clues@.subrange(0, clues@.len() as int) =~= clues@);
    }
    let mut out: Vec<char> = Vec::new();
    let mut k: usize = 0;
    while k < 81
        invariant
            grid@.len() == 81,
            grid@ == clue_grid(clues@),
            k <= 81,
            out@ == Seq::new(k as nat, |q: int| entry_char(clue_grid(clues@)[q])),
        decreases 81 - k,
    {
        let x = grid[k];
        let ch = if x < 10 { crate::expr::digit_to_char(x as u32) } else { '0' };
        out.push(ch);
        k = k + 1;
        proof {
            assert(out@ =~= Seq::new(k as nat, |q: int| entry_char(clue_grid(clues@)[q])));
        }
    }
    string_from_chars(&out)
}

} // verus!
