//! Sudoku as a satisfiability problem.
//!
//! Variable `var(row, col, digit)` (all three in `1..=9`) means "the cell at
//! `row`, `col` holds `digit`".  The rules say that exactly one digit fills
//! each cell, and that each digit occurs exactly once in each row, each
//! column and each 3x3 box; given digits (clues) become unit clauses.
use vstd::prelude::*;
use crate::encode::{exactly_one, no_two_true, push_at_least_one, push_at_most_one, some_true, var_ints, clauses_bounded, pairs_before};
use crate::expr::{nat_decimal, push_usize_decimal};
use crate::literal::{clause_ints, clause_sat, clauses_formula, formula_sat, lit_true, Clause, Literal};
use crate::solver::{lemma_drop_empty_id, lemma_sat_agree_below_max, solver_input_fits, CDCLSolver, SolverError};
use crate::sudoku_generator::{clues_in_grid, grid_assignment, lemma_model_grid, valid_grid};
use crate::text::{is_space, char_is_space, str_chars, string_from_chars};
use crate::encode::lemma_formula_sat_push;

verus! {

/// The variable of "cell (`row`, `col`) holds `digit`".
pub open spec fn var_spec(row: int, col: int, digit: int) -> int {
    81 * (row - 1) + 9 * (col - 1) + digit
}

/// A row, column or digit number.
pub open spec fn in_1_9(x: int) -> bool {
    1 <= x <= 9
}

/// The nine variables of a constraint group: `kind` 0 is cell (`x`, `y`)
/// over the digits; 1 is row `x` and digit `y` over the columns; 2 is column
/// `x` and digit `y` over the rows; 3 is box `x` (boxes numbered 1 to 9 row
/// by row) and digit `y` over the box's cells, row by row.
pub open spec fn group_vars(kind: int, x: int, y: int) -> Seq<int> {
    Seq::new(
        9,
        |k: int|
            if kind == 0 {
                var_spec(x, y, k + 1)
            } else if kind == 1 {
                var_spec(x, k + 1, y)
            } else if kind == 2 {
                var_spec(k + 1, x, y)
            } else {
                var_spec(3 * ((x - 1) / 3) + k / 3 + 1, 3 * ((x - 1) % 3) + k % 3 + 1, y)
            },
    )
}

/// The assignment fills the grid by the rules: exactly one digit per cell,
/// and each digit exactly once per row, per column and per box.
pub open spec fn sudoku_rules(a: spec_fn(int) -> bool) -> bool {
    forall|kind: int, x: int, y: int|
        0 <= kind < 4 && in_1_9(x) && in_1_9(y) ==> #[trigger] exactly_one(a, group_vars(kind, x, y))
}

/// Every clue `(row, col, digit)` holds.
pub open spec fn clues_hold(a: spec_fn(int) -> bool, clues: Seq<(usize, usize, usize)>) -> bool {
    forall|j: int| 0 <= j < clues.len() ==> #[trigger] a(var_spec(clues[j].0 as int, clues[j].1 as int, clues[j].2 as int))
}

/// Every clue has row, column and digit in `1..=9`.
pub open spec fn clues_ok(clues: Seq<(usize, usize, usize)>) -> bool {
    forall|j: int| 0 <= j < clues.len() ==> in_1_9((#[trigger] clues[j]).0 as int) && in_1_9(clues[j].1 as int) && in_1_9(clues[j].2 as int)
}

/// The variable of "cell (`row`, `col`) holds `digit`", from 1 to 729.
pub fn var(row: usize, col: usize, digit: usize) -> (v: i32)
    requires
        in_1_9(row as int),
        in_1_9(col as int),
        in_1_9(digit as int),
    ensures
        v == var_spec(row as int, col as int, digit as int),
        1 <= v <= 729,
{
    (81 * (row - 1) + 9 * (col - 1) + digit) as i32
}

/// The cell and digit of a variable: `(row, col, digit)`.
pub fn decode_var(v: i32) -> (r: (usize, usize, usize))
    requires
        v >= 1,
    ensures
        r.0 == (v - 1) / 81 + 1,
        r.1 == ((v - 1) % 81) / 9 + 1,
        r.2 == (v - 1) % 9 + 1,
        v <= 729 ==> in_1_9(r.0 as int) && in_1_9(r.1 as int) && in_1_9(r.2 as int) && var_spec(
            r.0 as int,
            r.1 as int,
            r.2 as int,
        ) == v,
{
    let w = (v as usize) - 1;
    let row = w / 81 + 1;
    let col = (w % 81) / 9 + 1;
    let digit = w % 9 + 1;
    (row, col, digit)
}

/// Decoding the variable of a cell and digit gives them back.
pub proof fn lemma_var_decode_roundtrip(row: int, col: int, digit: int)
    requires
        in_1_9(row),
        in_1_9(col),
        in_1_9(digit),
    ensures
        ({
            let v = var_spec(row, col, digit);
            &&& (v - 1) / 81 + 1 == row
            &&& ((v - 1) % 81) / 9 + 1 == col
            &&& (v - 1) % 9 + 1 == digit
        }),
{
    let v = var_spec(row, col, digit);
    assert((v - 1) / 81 + 1 == row) by (nonlinear_arith)
        requires
            v == 81 * (row - 1) + 9 * (col - 1) + digit,
            1 <= row <= 9,
            1 <= col <= 9,
            1 <= digit <= 9,
    ;
    assert(((v - 1) % 81) / 9 + 1 == col) by (nonlinear_arith)
        requires
            v == 81 * (row - 1) + 9 * (col - 1) + digit,
            1 <= row <= 9,
            1 <= col <= 9,
            1 <= digit <= 9,
    ;
    assert((v - 1) % 9 + 1 == digit) by (nonlinear_arith)
        requires
            v == 81 * (row - 1) + 9 * (col - 1) + digit,
            1 <= row <= 9,
            1 <= col <= 9,
            1 <= digit <= 9,
    ;
}

/// The variables of a constraint group (see `group_vars`).
fn group_vars_vec(kind: u8, x: usize, y: usize) -> (v: Vec<i32>)
    requires
        kind < 4,
        in_1_9(x as int),
        in_1_9(y as int),
    ensures
        var_ints(v@) == group_vars(kind as int, x as int, y as int),
        forall|k: int| 0 <= k < v@.len() ==> 1 <= #[trigger] v@[k] <= 729,
{
    let mut v: Vec<i32> = Vec::new();
    let mut k: usize = 0;
    while k < 9
        invariant
            kind < 4,
            in_1_9(x as int),
            in_1_9(y as int),
            k <= 9,
            v@.len() == k,
            forall|j: int| 0 <= j < k ==> #[trigger] v@[j] as int == group_vars(kind as int, x as int, y as int)[j],
            forall|j: int| 0 <= j < v@.len() ==> 1 <= #[trigger] v@[j] <= 729,
        decreases 9 - k,
    {
        let w = if kind == 0 {
            var(x, y, k + 1)
        } else if kind == 1 {
            var(x, k + 1, y)
        } else if kind == 2 {
            var(k + 1, x, y)
        } else {
            var(3 * ((x - 1) / 3) + k / 3 + 1, 3 * ((x - 1) % 3) + k % 3 + 1, y)
        };
        v.push(w);
        k = k + 1;
    }
    proof {
        assert(var_ints(v@) =~= group_vars(kind as int, x as int, y as int));
    }
    v
}

/// Groups of one kind checked so far: every `(x, y)` before (`gx`, `gy`) in
/// row-major order.
pub open spec fn groups_done(a: spec_fn(int) -> bool, kind: int, at_least: bool, gx: int, gy: int) -> bool {
    forall|x: int, y: int|
        in_1_9(x) && in_1_9(y) && (x < gx || (x == gx && y < gy)) ==> #[trigger] group_holds(a, kind, at_least, x, y)
}

/// "At least one" (or "at most one") of a group holds.
pub open spec fn group_holds(a: spec_fn(int) -> bool, kind: int, at_least: bool, x: int, y: int) -> bool {
    if at_least {
        some_true(a, group_vars(kind, x, y))
    } else {
        no_two_true(a, group_vars(kind, x, y))
    }
}

/// Appends the clauses of one constraint kind: for every `(x, y)` in
/// row-major order, "at least one" (or "at most one") of its group.
fn push_groups(clauses: &mut Vec<Clause>, kind: u8, at_least: bool)
    requires
        kind < 4,
    ensures
        final(clauses)@.len() == old(clauses)@.len() + if at_least { 81int } else { 2916int },
        clauses_bounded(old(clauses)@, 729) ==> clauses_bounded(final(clauses)@, 729),
        forall|a: spec_fn(int) -> bool|
            #[trigger] formula_sat(a, clauses_formula(final(clauses)@)) <==> formula_sat(
                a,
                clauses_formula(old(clauses)@),
            ) && groups_done(a, kind as int, at_least, 10, 1),
{
    let ghost old_cs = clauses@;
    let mut x: usize = 1;
    while x <= 9
        invariant
            kind < 4,
            1 <= x <= 10,
            at_least ==> clauses@.len() == old_cs.len() + (x - 1) * 9,
            !at_least ==> clauses@.len() == old_cs.len() + 324 * (x - 1),
            clauses_bounded(old_cs, 729) ==> clauses_bounded(clauses@, 729),
            forall|a: spec_fn(int) -> bool|
                #[trigger] formula_sat(a, clauses_formula(clauses@)) <==> formula_sat(a, clauses_formula(old_cs))
                    && groups_done(a, kind as int, at_least, x as int, 1),
        decreases 10 - x,
    {
        let mut y: usize = 1;
        while y <= 9
            invariant
                kind < 4,
                1 <= x <= 9,
                1 <= y <= 10,
                at_least ==> clauses@.len() == old_cs.len() + (x - 1) * 9 + (y - 1),
                !at_least ==> clauses@.len() == old_cs.len() + 324 * (x - 1) + 36 * (y - 1),
                clauses_bounded(old_cs, 729) ==> clauses_bounded(clauses@, 729),
                forall|a: spec_fn(int) -> bool|
                    #[trigger] formula_sat(a, clauses_formula(clauses@)) <==> formula_sat(a, clauses_formula(old_cs))
                        && groups_done(a, kind as int, at_least, x as int, y as int),
            decreases 10 - y,
        {
            let vars = group_vars_vec(kind, x, y);
            let ghost cs0 = clauses@;
            proof {
                assert(vars@.len() == 9) by {
                    assert(var_ints(vars@).len() == vars@.len());
                }
                reveal_with_fuel(pairs_before, 10);
                assert(pairs_before(9, 9) == 36);
            }
            if at_least {
                push_at_least_one(clauses, &vars, Ghost(729));
            } else {
                push_at_most_one(clauses, &vars, Ghost(729));
            }
            proof {
                assert forall|a: spec_fn(int) -> bool| #[trigger]
                    formula_sat(a, clauses_formula(clauses@)) <==> formula_sat(a, clauses_formula(old_cs))
                        && groups_done(a, kind as int, at_least, x as int, y + 1) by {
                    assert(formula_sat(a, clauses_formula(cs0)) <==> formula_sat(a, clauses_formula(old_cs))
                        && groups_done(a, kind as int, at_least, x as int, y as int));
                    if groups_done(a, kind as int, at_least, x as int, y as int) && group_holds(
                        a,
                        kind as int,
                        at_least,
                        x as int,
                        y as int,
                    ) {
                        assert forall|x2: int, y2: int|
                            in_1_9(x2) && in_1_9(y2) && (x2 < x || (x2 == x && y2 < y + 1)) implies #[trigger] group_holds(
                            a,
                            kind as int,
                            at_least,
                            x2,
                            y2,
                        ) by {
                            if x2 == x && y2 == y {
                            }
                        }
                    }
                    if groups_done(a, kind as int, at_least, x as int, y + 1) {
                        assert(group_holds(a, kind as int, at_least, x as int, y as int));
                    }
                }
            }
            y = y + 1;
        }
        proof {
            assert forall|a: spec_fn(int) -> bool|
                groups_done(a, kind as int, at_least, x as int, 10) == groups_done(a, kind as int, at_least, x + 1, 1) by {
            }
        }
        x = x + 1;
    }
}

/// Appends one unit clause per clue: "cell (row, col) holds digit".
pub fn add_clues(clauses: &mut Vec<Clause>, clues: &[(usize, usize, usize)])
    requires
        clues_ok(clues@),
    ensures
        final(clauses)@.len() == old(clauses)@.len() + clues@.len(),
        clauses_bounded(old(clauses)@, 729) ==> clauses_bounded(final(clauses)@, 729),
        forall|a: spec_fn(int) -> bool|
            #[trigger] formula_sat(a, clauses_formula(final(clauses)@)) <==> formula_sat(
                a,
                clauses_formula(old(clauses)@),
            ) && clues_hold(a, clues@),
{
    let ghost c_start = clauses@;
    let mut j: usize = 0;
    while j < clues.len()
        invariant
            clues_ok(clues@),
            j <= clues@.len(),
            clauses@.len() == c_start.len() + j,
            clauses_bounded(c_start, 729) ==> clauses_bounded(clauses@, 729),
            forall|a: spec_fn(int) -> bool|
                #[trigger] formula_sat(a, clauses_formula(clauses@)) <==> formula_sat(a, clauses_formula(c_start))
                    && clues_hold(a, clues@.subrange(0, j as int)),
        decreases clues@.len() - j,
    {
        let (r, c, d) = clues[j];
        proof {
            assert(in_1_9(clues@[j as int].0 as int));
        }
        let v = var(r, c, d);
        let c_new = Clause::new(vec![Literal::positive(v)]);
        let ghost cs0 = clauses@;
        clauses.push(c_new);
        proof {
            assert(clauses_formula(clauses@) =~= clauses_formula(cs0).push(clause_ints(c_new)));
            assert(clause_ints(c_new) =~= seq![v as int]);
            assert forall|a: spec_fn(int) -> bool| #[trigger]
                formula_sat(a, clauses_formula(clauses@)) <==> formula_sat(a, clauses_formula(c_start)) && clues_hold(
                    a,
                    clues@.subrange(0, j + 1),
                ) by {
                lemma_formula_sat_push(a, clauses_formula(cs0), clause_ints(c_new));
                let s0 = clues@.subrange(0, j as int);
                let s1 = clues@.subrange(0, j + 1);
                assert(clause_sat(a, seq![v as int]) <==> a(v as int)) by {
                    if clause_sat(a, seq![v as int]) {
                        let k = choose|k: int| 0 <= k < 1 && #[trigger] lit_true(a, seq![v as int][k]);
                    }
                    if a(v as int) {
                        assert(lit_true(a, seq![v as int][0]));
                    }
                }
                if clues_hold(a, s1) {
                    assert forall|i: int| 0 <= i < s0.len() implies #[trigger] a(
                        var_spec(s0[i].0 as int, s0[i].1 as int, s0[i].2 as int),
                    ) by {
                        assert(s0[i] == s1[i]);
                    }
                    assert(s1[j as int] == clues@[j as int]);
                }
                if clues_hold(a, s0) && a(v as int) {
                    assert forall|i: int| 0 <= i < s1.len() implies #[trigger] a(
                        var_spec(s1[i].0 as int, s1[i].1 as int, s1[i].2 as int),
                    ) by {
                        if i < j {
                            assert(s0[i] == s1[i]);
                        }
                    }
                }
            }
            if clauses_bounded(c_start, 729) {
                assert forall|p: int, k: int|
                    0 <= p < clauses@.len() && 0 <= k < clauses@[p]@.len() implies 1 <= (
                    #[trigger] clauses@[p]@[k]).var <= 729 by {
                    if p < cs0.len() {
                        assert(clauses@[p] == cs0[p]);
                    }
                }
            }
        }
        j = j + 1;
    }
    proof {
        assert(clues@.subrange(0, clues@.len() as int) =~= clues@);
    }
}

/// All Sudoku constraints, then one unit clause per clue.  An assignment
/// satisfies the clauses exactly when it fills the grid by the rules and
/// agrees with the clues.
pub fn generate_sudoku_clauses(clues: &[(usize, usize, usize)]) -> (r: Vec<Clause>)
    requires
        clues_ok(clues@),
    ensures
        clauses_bounded(r@, 729),
        r@.len() == 11988 + clues@.len(),
        forall|a: spec_fn(int) -> bool|
            #[trigger] formula_sat(a, clauses_formula(r@)) <==> sudoku_rules(a) && clues_hold(a, clues@),
{
    let mut clauses: Vec<Clause> = Vec::new();
    let ghost c0 = clauses@;
    push_groups(&mut clauses, 0, true);
    let ghost c1 = clauses@;
    push_groups(&mut clauses, 0, false);
    let ghost c2 = clauses@;
    push_groups(&mut clauses, 1, true);
    let ghost c3 = clauses@;
    push_groups(&mut clauses, 1, false);
    let ghost c4 = clauses@;
    push_groups(&mut clauses, 2, true);
    let ghost c5 = clauses@;
    push_groups(&mut clauses, 2, false);
    let ghost c6 = clauses@;
    push_groups(&mut clauses, 3, true);
    let ghost c7 = clauses@;
    push_groups(&mut clauses, 3, false);
    let ghost c8 = clauses@;
    proof {
        assert(clauses_formula(c0) =~= Seq::<Seq<int>>::empty());
    }
    add_clues(&mut clauses, clues);
    proof {
        assert forall|a: spec_fn(int) -> bool| #[trigger]
            formula_sat(a, clauses_formula(clauses@)) <==> sudoku_rules(a) && clues_hold(a, clues@) by {
            assert(!formula_sat(a, clauses_formula(c0)) ==> false);
            let g = |kind: int, al: bool| groups_done(a, kind, al, 10, 1);
            let all = g(0, true) && g(0, false) && g(1, true) && g(1, false) && g(2, true) && g(2, false) && g(3, true) && g(3, false);
            assert(formula_sat(a, clauses_formula(c8)) <==> all);
            if all {
                assert forall|kind: int, x: int, y: int|
                    0 <= kind < 4 && in_1_9(x) && in_1_9(y) implies #[trigger] exactly_one(a, group_vars(kind, x, y)) by {
                    assert(group_holds(a, kind, true, x, y));
                    assert(group_holds(a, kind, false, x, y));
                }
            }
            if sudoku_rules(a) {
                assert forall|kind: int, al: bool| 0 <= kind < 4 implies #[trigger] groups_done(a, kind, al, 10, 1) by {
                    assert forall|x: int, y: int|
                        in_1_9(x) && in_1_9(y) && (x < 10 || (x == 10 && y < 1)) implies #[trigger] group_holds(
                        a,
                        kind,
                        al,
                        x,
                        y,
                    ) by {
                        assert(exactly_one(a, group_vars(kind, x, y)));
                    }
                }
                assert(g(0, true) && g(0, false) && g(1, true) && g(1, false));
                assert(g(2, true) && g(2, false) && g(3, true) && g(3, false));
            }
        }
        assert forall|p: int, k: int|
            0 <= p < c0.len() && 0 <= k < c0[p]@.len() implies 1 <= (#[trigger] c0[p]@[k]).var <= 729 by {
        }
    }
    clauses
}


/// The characters of `s` other than whitespace.
pub open spec fn non_space(s: Seq<char>) -> Seq<char>
    decreases s.len(),
{
    if s.len() == 0 {
        s
    } else if is_space(s.last()) {
        non_space(s.drop_last())
    } else {
        non_space(s.drop_last()).push(s.last())
    }
}

/// A character allowed in a puzzle: a digit, or `.` for an empty cell.
pub open spec fn puzzle_char(c: char) -> bool {
    ('0' <= c <= '9') || c == '.'
}

/// The clues written by the first `n` characters: `(row, col, digit)` for
/// each digit from 1 to 9, cells numbered row by row.
pub open spec fn clues_of(cs: Seq<char>, n: int) -> Seq<(usize, usize, usize)>
    decreases n,
{
    if n <= 0 {
        Seq::empty()
    } else {
        let rest = clues_of(cs, n - 1);
        let c = cs[n - 1];
        if '1' <= c <= '9' {
            rest.push((((n - 1) / 9 + 1) as usize, ((n - 1) % 9 + 1) as usize, ((c as int) - ('0' as int)) as usize))
        } else {
            rest
        }
    }
}

/// The message for a puzzle whose length is not 81.
pub open spec fn length_message(len: nat) -> Seq<char> {
    "Expected 81 characters, got "@ + nat_decimal(len)
}

/// The message for a character that is neither a digit nor `.`.
pub open spec fn char_message(c: char, pos: nat) -> Seq<char> {
    "Invalid character '"@ + seq![c] + "' at position "@ + nat_decimal(pos)
}

/// Reads a puzzle: 81 characters once whitespace is left out, `1`-`9` a
/// given digit, `0` or `.` an empty cell, row by row.
pub fn parse_puzzle(input: &str) -> (r: Result<Vec<(usize, usize, usize)>, String>)
    ensures
        ({
            let cs = non_space(input@);
            if cs.len() != 81 {
                r matches Err(e) && e@ == length_message(cs.len())
            } else {
                match r {
                    Ok(v) => (forall|k: int| 0 <= k < 81 ==> puzzle_char(#[trigger] cs[k])) && v@ == clues_of(cs, 81),
                    Err(e) => exists|i: int|
                        0 <= i < 81 && !puzzle_char(#[trigger] cs[i]) && (forall|k: int|
                            0 <= k < i ==> puzzle_char(#[trigger] cs[k])) && e@ == char_message(cs[i], i as nat),
                }
            }
        }),
{
    let all = str_chars(input);
    let mut chars: Vec<char> = Vec::new();
    let mut i: usize = 0;
    while i < all.len()
        invariant
            all@ == input@,
            i <= all@.len(),
            chars@ == non_space(all@.subrange(0, i as int)),
        decreases all@.len() - i,
    {
        proof {
            assert(all@.subrange(0, i + 1).drop_last() =~= all@.subrange(0, i as int));
        }
        if !char_is_space(all[i]) {
            chars.push(all[i]);
        }
        i = i + 1;
    }
    proof {
        assert(all@.subrange(0, all@.len() as int) =~= all@);
    }
    if chars.len() != 81 {
        let mut m = str_chars("Expected 81 characters, got ");
        push_usize_decimal(&mut m, chars.len());
        return Err(string_from_chars(&m));
    }
    let mut clues: Vec<(usize, usize, usize)> = Vec::new();
    let mut k: usize = 0;
    while k < 81
        invariant
            chars@.len() == 81,
            chars@ == non_space(input@),
            k <= 81,
            clues@ == clues_of(chars@, k as int),
            forall|j: int| 0 <= j < k ==> puzzle_char(#[trigger] chars@[j]),
        decreases 81 - k,
    {
        let ch = chars[k];
        let row = k / 9 + 1;
        let col = k % 9 + 1;
        if '1' <= ch && ch <= '9' {
            let digit = (ch as u32 - '0' as u32) as usize;
            clues.push((row, col, digit));
        } else if ch == '0' || ch == '.' {
        } else {
            let mut m = str_chars("Invalid character '");
            m.push(ch);
            let tail = str_chars("' at position ");
            crate::text::push_chars(&mut m, tail.as_slice());
            push_usize_decimal(&mut m, k);
            proof {
                assert(m@ =~= char_message(ch, k as nat));
                assert(!puzzle_char(chars@[k as int]));
            }
            return Err(string_from_chars(&m));
        }
        k = k + 1;
    }
    Ok(clues)
}


/// Different cells or digits have different variables.
pub proof fn lemma_var_injective(r1: int, c1: int, d1: int, r2: int, c2: int, d2: int)
    requires
        in_1_9(r1),
        in_1_9(c1),
        in_1_9(d1),
        in_1_9(r2),
        in_1_9(c2),
        in_1_9(d2),
        var_spec(r1, c1, d1) == var_spec(r2, c2, d2),
    ensures
        r1 == r2 && c1 == c2 && d1 == d2,
{
    lemma_var_decode_roundtrip(r1, c1, d1);
    lemma_var_decode_roundtrip(r2, c2, d2);
}

/// The solver's assignment makes `digit` true in cell (`row`, `col`).
pub open spec fn digit_true(s: &CDCLSolver, row: int, col: int, digit: int) -> bool {
    var_spec(row, col, digit) <= s.nvars() && s.val(var_spec(row, col, digit)) == 1
}

/// Exactly one digit is true in cell (`row`, `col`).
pub open spec fn one_digit(s: &CDCLSolver, row: int, col: int) -> bool {
    &&& exists|d: int| in_1_9(d) && #[trigger] digit_true(s, row, col, d)
    &&& forall|d1: int, d2: int|
        in_1_9(d1) && in_1_9(d2) && d1 != d2 && #[trigger] digit_true(s, row, col, d1) ==> !#[trigger] digit_true(
            s,
            row,
            col,
            d2,
        )
}

/// What the flat grid records after the variables below `v` were read.
pub open spec fn grid_read(s: &CDCLSolver, g: Seq<u8>, v: int) -> bool {
    forall|row: int, col: int|
        in_1_9(row) && in_1_9(col) ==> {
            let x = #[trigger] g[9 * (row - 1) + (col - 1)] as int;
            &&& (x == 0 ==> forall|d: int| in_1_9(d) && var_spec(row, col, d) < v ==> !#[trigger] digit_true(s, row, col, d))
            &&& (x != 0 ==> in_1_9(x) && var_spec(row, col, x) < v && digit_true(s, row, col, x) && forall|d: int|
                in_1_9(d) && d != x && var_spec(row, col, d) < v ==> !#[trigger] digit_true(s, row, col, d))
        }
}

/// The grid read off the solver's assignment (rows of 9 digits), when each
/// cell has exactly one true digit; `None` otherwise.
pub fn extract_solution(solver: &CDCLSolver) -> (r: Option<Vec<Vec<u8>>>)
    requires
        solver.inv(),
    ensures
        r is Some <==> forall|row: int, col: int| in_1_9(row) && in_1_9(col) ==> #[trigger] one_digit(solver, row, col),
        r matches Some(g) ==> g@.len() == 9 && forall|row: int|
            0 <= row < 9 ==> (#[trigger] g@[row])@.len() == 9 && forall|col: int|
                0 <= col < 9 ==> in_1_9(g@[row]@[col] as int) && digit_true(solver, row + 1, col + 1, g@[row]@[col] as int),
{
    let mut grid: Vec<u8> = Vec::new();
    let mut i: usize = 0;
    while i < 81
        invariant
            i <= 81,
            grid@.len() == i,
            forall|j: int| 0 <= j < i ==> #[trigger] grid@[j] == 0,
        decreases 81 - i,
    {
        grid.push(0);
        i = i + 1;
    }
    let mut v: i32 = 1;
    while v <= 729
        invariant
            solver.inv(),
            1 <= v <= 730,
            grid@.len() == 81,
            grid_read(solver, grid@, v as int),
        decreases 730 - v,
    {
        let val = solver.get_value(v);
        let (row, col, digit) = decode_var(v);
        let idx = (row - 1) * 9 + (col - 1);
        let ghost g0 = grid@;
        if val == Some(true) {
            if grid[idx] != 0 {
                proof {
                    let x = g0[9 * (row - 1) + (col - 1)] as int;
                    assert(digit_true(solver, row as int, col as int, x));
                    assert(digit_true(solver, row as int, col as int, digit as int));
                    assert(!one_digit(solver, row as int, col as int));
                }
                return None;
            }
            grid.set(idx, digit as u8);
        }
        proof {
            assert forall|r2: int, c2: int| in_1_9(r2) && in_1_9(c2) implies {
                let x = #[trigger] grid@[9 * (r2 - 1) + (c2 - 1)] as int;
                &&& (x == 0 ==> forall|d: int| in_1_9(d) && var_spec(r2, c2, d) < v + 1 ==> !#[trigger] digit_true(solver, r2, c2, d))
                &&& (x != 0 ==> in_1_9(x) && var_spec(r2, c2, x) < v + 1 && digit_true(solver, r2, c2, x) && forall|d: int|
                    in_1_9(d) && d != x && var_spec(r2, c2, d) < v + 1 ==> !#[trigger] digit_true(solver, r2, c2, d))
            } by {
                let i2 = 9 * (r2 - 1) + (c2 - 1);
                let x0 = g0[i2] as int;
                assert forall|d: int| in_1_9(d) && var_spec(r2, c2, d) == v implies r2 == row && c2 == col && d == digit by {
                    lemma_var_injective(r2, c2, d, row as int, col as int, digit as int);
                }
                if r2 != row || c2 != col {
                    assert(i2 != idx);
                    assert(grid@[i2] == g0[i2]);
                }
            }
        }
        v = v + 1;
    }
    let mut k: usize = 0;
    while k < 81
        invariant
            solver.inv(),
            grid@.len() == 81,
            grid_read(solver, grid@, 730),
            k <= 81,
            forall|j: int| 0 <= j < k ==> #[trigger] grid@[j] != 0,
        decreases 81 - k,
    {
        if grid[k] == 0 {
            proof {
                let row = k as int / 9 + 1;
                let col = k as int % 9 + 1;
                assert(9 * (row - 1) + (col - 1) == k);
                assert(grid@[9 * (row - 1) + (col - 1)] == 0);
                assert forall|d: int| in_1_9(d) implies !#[trigger] digit_true(solver, row, col, d) by {
                    assert(var_spec(row, col, d) < 730);
                }
                assert(!one_digit(solver, row, col));
            }
            return None;
        }
        k = k + 1;
    }
    let mut out: Vec<Vec<u8>> = Vec::new();
    let mut r: usize = 0;
    while r < 9
        invariant
            solver.inv(),
            grid@.len() == 81,
            grid_read(solver, grid@, 730),
            forall|j: int| 0 <= j < 81 ==> #[trigger] grid@[j] != 0,
            r <= 9,
            out@.len() == r,
            forall|row: int| 0 <= row < r ==> (#[trigger] out@[row])@.len() == 9 && forall|col: int|
                0 <= col < 9 ==> out@[row]@[col] == grid@[9 * row + col],
        decreases 9 - r,
    {
        let mut line: Vec<u8> = Vec::new();
        let mut c: usize = 0;
        while c < 9
            invariant
                r < 9,
                grid@.len() == 81,
                c <= 9,
                line@.len() == c,
                forall|col: int| 0 <= col < c ==> #[trigger] line@[col] == grid@[9 * r + col],
            decreases 9 - c,
        {
            line.push(grid[r * 9 + c]);
            c = c + 1;
        }
        out.push(line);
        r = r + 1;
    }
    proof {
        assert forall|row: int, col: int| in_1_9(row) && in_1_9(col) implies #[trigger] one_digit(solver, row, col) by {
            let i2 = 9 * (row - 1) + (col - 1);
            assert(grid@[i2] != 0);
            let x = grid@[i2] as int;
            assert(digit_true(solver, row, col, x));
            assert forall|d1: int, d2: int|
                in_1_9(d1) && in_1_9(d2) && d1 != d2 && #[trigger] digit_true(solver, row, col, d1) implies !#[trigger] digit_true(
                solver,
                row,
                col,
                d2,
            ) by {
                assert(var_spec(row, col, d1) < 730);
                assert(var_spec(row, col, d2) < 730);
            }
        }
        assert forall|row: int| 0 <= row < 9 implies (#[trigger] out@[row])@.len() == 9 && forall|col: int|
            0 <= col < 9 ==> in_1_9(out@[row]@[col] as int) && digit_true(solver, row + 1, col + 1, out@[row]@[col] as int) by {
            assert forall|col: int| 0 <= col < 9 implies in_1_9(out@[row]@[col] as int) && digit_true(
                solver,
                row + 1,
                col + 1,
                out@[row]@[col] as int,
            ) by {
                assert(out@[row]@[col] == grid@[9 * row + col]);
                assert(9 * ((row + 1) - 1) + ((col + 1) - 1) == 9 * row + col);
                assert(grid@[9 * row + col] != 0);
            }
        }
    }
    Some(out)
}

/// Solves the puzzle with the given clues: `Ok(Some(grid))` is a complete
/// grid (nine rows of nine digits obeying the rules) that agrees with every
/// clue; `Ok(None)` means no such grid exists.
pub fn solve_sudoku(clues: &[(usize, usize, usize)]) -> (r: Result<Option<Vec<Vec<u8>>>, SolverError>)
    requires
        clues_ok(clues@),
    ensures
        r matches Ok(Some(g)) ==> valid_grid(g@) && clues_in_grid(clues@, g@),
        r matches Ok(None) ==> forall|g: Seq<Vec<u8>>| !(#[trigger] valid_grid(g) && clues_in_grid(clues@, g)),
{
    let clauses = generate_sudoku_clauses(clues);
    if !solver_input_fits(&clauses) {
        return Err(SolverError::InternalError("Puzzle too large for the solver".to_string()));
    }
    let ghost cs = clauses@;
    let ghost f = clauses_formula(cs);
    proof {
        lemma_drop_empty_id(f);
    }
    let mut solver = CDCLSolver::new(clauses);
    proof {
        assert(solver.formula() =~= f);
    }
    match solver.solve() {
        Err(e) => {
            return Err(e);
        },
        Ok(false) => {
            proof {
                assert forall|g: Seq<Vec<u8>>| !(#[trigger] valid_grid(g) && clues_in_grid(clues@, g)) by {
                    if valid_grid(g) && clues_in_grid(clues@, g) {
                        let ga = grid_assignment(g);
                        assert forall|j: int| 0 <= j < clues@.len() implies #[trigger] ga(
                            var_spec(clues@[j].0 as int, clues@[j].1 as int, clues@[j].2 as int),
                        ) by {
                            let r0 = clues@[j].0 - 1;
                            let c0 = clues@[j].1 - 1;
                            assert(var_spec(clues@[j].0 as int, clues@[j].1 as int, clues@[j].2 as int) == var_spec(
                                r0 + 1,
                                c0 + 1,
                                g[r0]@[c0] as int,
                            ));
                        }
                        assert(clues_hold(ga, clues@));
                        assert(formula_sat(ga, f));
                    }
                }
            }
            return Ok(None);
        },
        Ok(true) => {},
    }
    let ghost m = solver.model();
    let ghost nv = solver.nvars();
    let ghost a = |x: int| x <= nv && m(x);
    proof {
        lemma_sat_agree_below_max(cs, m, a);
        assert(sudoku_rules(a) && clues_hold(a, clues@));
        assert forall|row: int, col: int| in_1_9(row) && in_1_9(col) implies #[trigger] one_digit(&solver, row, col) by {
            let cv = group_vars(0, row, col);
            assert(exactly_one(a, cv));
            let k = choose|k: int| 0 <= k < cv.len() && #[trigger] a(cv[k]);
            assert(cv[k] == var_spec(row, col, k + 1));
            assert(digit_true(&solver, row, col, k + 1));
            assert forall|d1: int, d2: int|
                in_1_9(d1) && in_1_9(d2) && d1 != d2 && #[trigger] digit_true(&solver, row, col, d1) implies !#[trigger] digit_true(
                &solver,
                row,
                col,
                d2,
            ) by {
                assert(cv[d1 - 1] == var_spec(row, col, d1));
                assert(cv[d2 - 1] == var_spec(row, col, d2));
                if d1 < d2 {
                    assert(!(a(cv[d1 - 1]) && a(cv[d2 - 1])));
                } else {
                    assert(!(a(cv[d2 - 1]) && a(cv[d1 - 1])));
                }
            }
        }
    }
    let grid = match extract_solution(&solver) {
        Some(g) => g,
        None => {
            return Err(SolverError::InternalError("Could not extract valid solution from SAT result".to_string()));
        },
    };
    proof {
        let g = grid@;
        assert forall|row: int, col: int| 0 <= row < 9 && 0 <= col < 9 implies in_1_9(#[trigger] g[row]@[col] as int) && a(
            var_spec(row + 1, col + 1, g[row]@[col] as int),
        ) by {
            assert(digit_true(&solver, row + 1, col + 1, g[row]@[col] as int));
        }
        lemma_model_grid(a, g);
        assert forall|j: int| 0 <= j < clues@.len() implies in_1_9((#[trigger] clues@[j]).0 as int) && in_1_9(
            clues@[j].1 as int,
        ) && g[clues@[j].0 - 1]@[clues@[j].1 - 1] as int == clues@[j].2 as int by {
            let (cr, cc, cd) = (clues@[j].0 as int, clues@[j].1 as int, clues@[j].2 as int);
            assert(a(var_spec(cr, cc, cd)));
            assert(grid_assignment(g)(var_spec(cr, cc, cd)));
            let (r, c) = choose|r: int, c: int| 0 <= r < 9 && 0 <= c < 9 && var_spec(cr, cc, cd) == #[trigger] var_spec(
                r + 1,
                c + 1,
                g[r]@[c] as int,
            );
            lemma_var_injective(cr, cc, cd, r + 1, c + 1, g[r]@[c] as int);
        }
    }
    Ok(Some(grid))
}

} // verus!
