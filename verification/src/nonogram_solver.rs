//! Nonograms (picross) as a satisfiability problem.
//!
//! Each line (row or column) has clues: the lengths of its runs of filled
//! cells, left to right, separated by at least one empty cell.  Every
//! pattern a line can take is enumerated; auxiliary variables select one
//! pattern per line, and the selected pattern fixes the line's cells.
//! Variable `var(cols, row, col)` (0-based) means "the cell is filled".
use vstd::prelude::*;
use crate::encode::{lemma_formula_sat_push, no_two_true, push_at_least_one, push_at_most_one, some_true, var_ints};
use crate::literal::{clause_ints, clause_sat, clauses_formula, formula_sat, lit_true, Clause, Literal};
use crate::solver::{lemma_drop_empty_id, lemma_sat_agree_below_max, solver_input_fits, CDCLSolver, SolverError};

verus! {

/// The variable of cell (`row`, `col`), counting from 0, on a grid of
/// `cols` columns.
pub open spec fn cell_var(cols: int, row: int, col: int) -> int {
    row * cols + col + 1
}

/// The variable of cell (`row`, `col`) (both from 0).
pub fn var(cols: usize, row: usize, col: usize) -> (v: i32)
    requires
        row * cols + col + 1 <= i32::MAX,
    ensures
        v == cell_var(cols as int, row as int, col as int),
{
    proof {
        assert(row * cols >= 0) by (nonlinear_arith);
    }
    (row * cols + col + 1) as i32
}

/// Sum of the clues.
pub open spec fn clue_sum(cs: Seq<usize>) -> nat
    decreases cs.len(),
{
    if cs.len() == 0 {
        0
    } else {
        clue_sum(cs.drop_last()) + cs.last() as nat
    }
}

/// The shortest line that holds the clues: their sum plus one gap between
/// neighbours.
pub open spec fn min_line(cs: Seq<usize>) -> int {
    if cs.len() == 0 {
        0
    } else {
        clue_sum(cs) + cs.len() - 1
    }
}

/// Number of filled cells.
pub open spec fn filled(p: Seq<bool>) -> nat
    decreases p.len(),
{
    if p.len() == 0 {
        0
    } else {
        filled(p.drop_last()) + if p.last() {
            1nat
        } else {
            0nat
        }
    }
}

proof fn lemma_clue_sum_first(cs: Seq<usize>)
    requires
        cs.len() > 0,
    ensures
        clue_sum(cs) == cs[0] + clue_sum(cs.subrange(1, cs.len() as int)),
    decreases cs.len(),
{
    if cs.len() > 1 {
        let dl = cs.drop_last();
        let tail = cs.subrange(1, cs.len() as int);
        lemma_clue_sum_first(dl);
        assert(dl.subrange(1, cs.len() - 1) =~= tail.drop_last());
        assert(tail.last() == cs.last());
        assert(dl[0] == cs[0]);
        assert(clue_sum(tail) == clue_sum(tail.drop_last()) + tail.last() as nat);
        assert(clue_sum(cs) == clue_sum(dl) + cs.last() as nat);
    } else {
        assert(cs.subrange(1, cs.len() as int) =~= Seq::<usize>::empty());
        assert(cs.drop_last() =~= Seq::<usize>::empty());
        assert(clue_sum(Seq::<usize>::empty()) == 0);
        assert(cs.last() == cs[0]);
    }
}

/// Setting one cell changes the count of filled cells accordingly.
proof fn lemma_filled_update(p: Seq<bool>, i: int, b: bool)
    requires
        0 <= i < p.len(),
    ensures
        filled(p.update(i, b)) + (if p[i] { 1int } else { 0int }) == filled(p) + (if b { 1int } else { 0int }),
    decreases p.len(),
{
    if i < p.len() - 1 {
        lemma_filled_update(p.drop_last(), i, b);
        assert(p.update(i, b).drop_last() =~= p.drop_last().update(i, b));
    } else {
        assert(p.update(i, b).drop_last() =~= p.drop_last());
    }
}

/// Where the rest of the line starts after the first clue's run, placed
/// at `pos`: right after it, plus one empty cell when more clues follow.
pub open spec fn after_run(clues: Seq<usize>, pos: int) -> int {
    if clues.len() > 1 {
        pos + clues[0] + 1
    } else {
        pos + clues[0]
    }
}

/// The first clue's run starts at `pos` in line `p`: cells `start..pos` are
/// empty, the run's cells are filled, and the separating cell (when more
/// clues follow) is empty.
pub open spec fn run_at(p: Seq<bool>, clues: Seq<usize>, start: int, pos: int) -> bool {
    let c = clues[0] as int;
    &&& clues.len() > 0
    &&& start <= pos
    &&& after_run(clues, pos) <= p.len()
    &&& forall|i: int| start <= i < pos ==> !p[i]
    &&& forall|i: int| pos <= i < pos + c ==> p[i]
    &&& forall|i: int| pos + c <= i < after_run(clues, pos) ==> !p[i]
}

/// From cell `start` on, line `p` holds exactly the runs `clues`, left to
/// right, each separated from the next by at least one empty cell, and all
/// other cells from `start` on are empty.
pub open spec fn places(p: Seq<bool>, clues: Seq<usize>, start: int) -> bool
    decreases clues.len(),
{
    if clues.len() == 0 {
        forall|i: int| start <= i < p.len() ==> !p[i]
    } else {
        exists|pos: int|
            #[trigger] run_at(p, clues, start, pos) && places(
                p,
                clues.subrange(1, clues.len() as int),
                after_run(clues, pos),
            )
    }
}

/// A first run placed at `pos` places the clues.
proof fn lemma_places_intro(p: Seq<bool>, clues: Seq<usize>, start: int, pos: int)
    requires
        run_at(p, clues, start, pos),
        places(p, clues.subrange(1, clues.len() as int), after_run(clues, pos)),
    ensures
        places(p, clues, start),
{
}

/// A line that holds the runs of non-empty `clues` from `start` on is at
/// least `min_line(clues)` cells longer than `start`.
pub proof fn lemma_places_fit(p: Seq<bool>, clues: Seq<usize>, start: int)
    requires
        clues.len() > 0,
        places(p, clues, start),
    ensures
        start + min_line(clues) <= p.len(),
    decreases clues.len(),
{
    let rest = clues.subrange(1, clues.len() as int);
    let pos = choose|pos: int| #[trigger] run_at(p, clues, start, pos) && places(p, rest, after_run(clues, pos));
    lemma_clue_sum_first(clues);
    if rest.len() > 0 {
        lemma_places_fit(p, rest, after_run(clues, pos));
    }
}

/// The filled runs of line `p` are `clues`, in order.
pub open spec fn runs_match(p: Seq<bool>, clues: Seq<usize>) -> bool {
    places(p, clues, 0)
}

/// Line `p` is one of `ps[lo..]`.
pub open spec fn listed(ps: Seq<Vec<bool>>, lo: int, p: Seq<bool>) -> bool {
    exists|j: int| lo <= j < ps.len() && #[trigger] ps[j]@ == p
}

/// Lines `p` and `q` agree on their first `n` cells.
pub open spec fn agree_below(p: Seq<bool>, q: Seq<bool>, n: int) -> bool {
    forall|i: int| 0 <= i < n && i < p.len() ==> p[i] == q[i]
}

/// Fills (or clears) cells `from..from+len` of `current`.
fn set_run(current: &mut Vec<bool>, from: usize, len: usize, value: bool)
    requires
        from + len <= old(current)@.len(),
        from + len <= usize::MAX,
        forall|i: int| from <= i < from + len ==> old(current)@[i] == !value,
    ensures
        final(current)@.len() == old(current)@.len(),
        forall|i: int| 0 <= i < old(current)@.len() ==> #[trigger] final(current)@[i] == if from <= i < from + len {
            value
        } else {
            old(current)@[i]
        },
        value ==> filled(final(current)@) == filled(old(current)@) + len,
        !value ==> filled(final(current)@) + len == filled(old(current)@),
{
    let mut k: usize = 0;
    while k < len
        invariant
            from + len <= current@.len(),
            from + len <= usize::MAX,
            current@.len() == old(current)@.len(),
            k <= len,
            forall|i: int| 0 <= i < old(current)@.len() ==> #[trigger] current@[i] == if from <= i < from + k {
                value
            } else {
                old(current)@[i]
            },
            forall|i: int| from <= i < from + len ==> old(current)@[i] == !value,
            value ==> filled(current@) == filled(old(current)@) + k,
            !value ==> filled(current@) + k == filled(old(current)@),
        decreases len - k,
    {
        proof {
            lemma_filled_update(current@, (from + k) as int, value);
        }
        current.set(from + k, value);
        k = k + 1;
    }
}

/// Appends every pattern that places the runs `clues` left to right in
/// `current` from position `start_pos` on (cells from there on are empty),
/// with at least one empty cell between runs; `current` is left as it was.
fn generate_patterns_recursive(
    line_len: usize,
    clues: &[usize],
    start_pos: usize,
    current: &mut Vec<bool>,
    patterns: &mut Vec<Vec<bool>>,
)
    requires
        old(current)@.len() == line_len,
        line_len < usize::MAX,
        min_line(clues@) <= line_len,
        clue_sum(clues@) + clues@.len() <= usize::MAX,
        forall|i: int| start_pos <= i < line_len ==> !old(current)@[i],
    ensures
        final(current)@ == old(current)@,
        final(patterns)@.len() >= old(patterns)@.len(),
        clues@.len() == 0 || start_pos + min_line(clues@) <= line_len ==> final(patterns)@.len() > old(patterns)@.len(),
        forall|j: int| 0 <= j < old(patterns)@.len() ==> #[trigger] final(patterns)@[j] == old(patterns)@[j],
        forall|j: int|
            old(patterns)@.len() <= j < final(patterns)@.len() ==> (#[trigger] final(patterns)@[j])@.len() == line_len
                && filled(final(patterns)@[j]@) == filled(old(current)@) + clue_sum(clues@)
                && places(final(patterns)@[j]@, clues@, start_pos as int)
                && forall|i: int| 0 <= i < start_pos && i < line_len ==> final(patterns)@[j]@[i] == old(current)@[i],
        forall|p: Seq<bool>|
            p.len() == line_len && #[trigger] places(p, clues@, start_pos as int) && agree_below(p, old(current)@, start_pos as int)
                ==> listed(final(patterns)@, old(patterns)@.len() as int, p),
    decreases clues@.len(),
{
    if clues.len() == 0 {
        let p = current.clone();
        proof {
            assert(p@ =~= current@);
        }
        patterns.push(p);
        proof {
            assert(patterns@[patterns@.len() - 1]@ == old(current)@);
            assert forall|q: Seq<bool>|
                q.len() == line_len && #[trigger] places(q, clues@, start_pos as int) && agree_below(q, old(current)@, start_pos as int)
                    implies listed(patterns@, old(patterns)@.len() as int, q) by {
                assert(q =~= old(current)@);
                assert(patterns@[patterns@.len() - 1]@ == q);
            }
        }
        return;
    }
    let clue = clues[0];
    let remaining_clues = vstd::slice::slice_subrange(clues, 1, clues.len());
    proof {
        lemma_clue_sum_first(clues@);
        assert(remaining_clues@ == clues@.subrange(1, clues@.len() as int));
        if remaining_clues@.len() > 0 {
            assert(min_line(remaining_clues@) == clue_sum(remaining_clues@) + remaining_clues@.len() - 1);
        }
    }
    let mut rest_sum: usize = 0;
    let mut k: usize = 0;
    while k < remaining_clues.len()
        invariant
            k <= remaining_clues@.len(),
            rest_sum == clue_sum(remaining_clues@.subrange(0, k as int)),
            clue_sum(remaining_clues@) + remaining_clues@.len() <= usize::MAX,
        decreases remaining_clues@.len() - k,
    {
        proof {
            assert(remaining_clues@.subrange(0, k + 1).drop_last() =~= remaining_clues@.subrange(0, k as int));
            lemma_clue_sum_prefix(remaining_clues@, k + 1);
        }
        rest_sum = rest_sum + remaining_clues[k];
        k = k + 1;
    }
    proof {
        assert(remaining_clues@.subrange(0, remaining_clues@.len() as int) =~= remaining_clues@);
    }
    let remaining_min = rest_sum + if remaining_clues.len() == 0 { 0 } else { remaining_clues.len() };
    let max_start = line_len - clue - remaining_min;
    let ghost start_cur = current@;
    let mut pos = start_pos;
    while pos <= max_start
        invariant
            current@ == start_cur,
            start_cur.len() == line_len,
            line_len < usize::MAX,
            remaining_clues@ == clues@.subrange(1, clues@.len() as int),
            clues@.len() > 0,
            clue == clues@[0],
            clue + remaining_min <= line_len,
            max_start == line_len - clue - remaining_min,
            remaining_min == clue_sum(remaining_clues@) + remaining_clues@.len(),
            min_line(remaining_clues@) <= line_len,
            clue_sum(remaining_clues@) + remaining_clues@.len() <= usize::MAX,
            clue_sum(clues@) == clue + clue_sum(remaining_clues@),
            start_pos <= pos,
            forall|i: int| start_pos <= i < line_len ==> !start_cur[i],
            patterns@.len() >= old(patterns)@.len(),
            pos > start_pos ==> patterns@.len() > old(patterns)@.len(),
            min_line(clues@) == clue + remaining_min,
            forall|j: int| 0 <= j < old(patterns)@.len() ==> #[trigger] patterns@[j] == old(patterns)@[j],
            forall|j: int|
                old(patterns)@.len() <= j < patterns@.len() ==> (#[trigger] patterns@[j])@.len() == line_len
                    && filled(patterns@[j]@) == filled(start_cur) + clue_sum(clues@)
                    && places(patterns@[j]@, clues@, start_pos as int)
                    && forall|i: int| 0 <= i < start_pos && i < line_len ==> patterns@[j]@[i] == start_cur[i],
            forall|q: Seq<bool>, p0: int|
                q.len() == line_len && p0 < pos && #[trigger] run_at(q, clues@, start_pos as int, p0) && places(
                    q,
                    remaining_clues@,
                    after_run(clues@, p0),
                ) && agree_below(q, start_cur, start_pos as int) ==> listed(patterns@, old(patterns)@.len() as int, q),
        decreases max_start + 1 - pos,
    {
        set_run(current, pos, clue, true);
        let next_start = pos + clue + 1;
        let ghost mid = current@;
        let ghost pre = patterns@;
        proof {
            if remaining_clues@.len() > 0 {
                assert(min_line(remaining_clues@) == clue_sum(remaining_clues@) + remaining_clues@.len() - 1);
            }
        }
        generate_patterns_recursive(line_len, remaining_clues, next_start, current, patterns);
        proof {
            assert forall|j: int| 0 <= j < old(patterns)@.len() implies #[trigger] patterns@[j] == old(patterns)@[j] by {
                assert(patterns@[j] == pre[j]);
            }
            assert forall|j: int| pre.len() <= j < patterns@.len() implies places(
                #[trigger] patterns@[j]@,
                clues@,
                start_pos as int,
            ) && forall|i: int| 0 <= i < start_pos && i < line_len ==> patterns@[j]@[i] == start_cur[i] by {
                let q = patterns@[j]@;
                assert(places(q, remaining_clues@, next_start as int));
                assert(forall|i: int| 0 <= i < next_start && i < line_len ==> q[i] == mid[i]);
                if remaining_clues@.len() == 0 {
                    assert(places(q, remaining_clues@, (pos + clue) as int));
                }
                let c = clues@[0] as int;
                assert(c == clue);
                let nx = if remaining_clues@.len() > 0 { pos + c + 1 } else { pos + c };
                assert(nx <= q.len());
                assert(forall|i: int| 0 <= i < line_len ==> #[trigger] mid[i] == if pos <= i < pos + clue {
                    true
                } else {
                    start_cur[i]
                });
                assert forall|i: int| start_pos <= i < pos implies !q[i] by {
                    assert(q[i] == mid[i]);
                }
                assert forall|i: int| pos <= i < pos + c implies q[i] by {
                    assert(q[i] == mid[i]);
                }
                assert forall|i: int| pos + c <= i < nx implies !q[i] by {
                    assert(q[i] == mid[i]);
                }
                assert(nx == after_run(clues@, pos as int));
                assert(places(q, clues@.subrange(1, clues@.len() as int), nx));
                assert(run_at(q, clues@, start_pos as int, pos as int));
                lemma_places_intro(q, clues@, start_pos as int, pos as int);
                assert forall|i: int| 0 <= i < start_pos && i < line_len implies q[i] == start_cur[i] by {
                    assert(q[i] == mid[i]);
                }
            }
        }
        proof {
            assert forall|q: Seq<bool>, p0: int|
                q.len() == line_len && p0 < pos + 1 && #[trigger] run_at(q, clues@, start_pos as int, p0) && places(
                    q,
                    remaining_clues@,
                    after_run(clues@, p0),
                ) && agree_below(q, start_cur, start_pos as int) implies listed(patterns@, old(patterns)@.len() as int, q) by {
                if p0 < pos {
                    let j = choose|j: int| old(patterns)@.len() <= j < pre.len() && #[trigger] pre[j]@ == q;
                    assert(patterns@[j] == pre[j]);
                } else {
                    assert(forall|i: int| 0 <= i < line_len ==> #[trigger] mid[i] == if pos <= i < pos + clue {
                        true
                    } else {
                        start_cur[i]
                    });
                    if remaining_clues@.len() == 0 {
                        assert(places(q, remaining_clues@, next_start as int));
                    }
                    assert(places(q, remaining_clues@, next_start as int));
                    assert forall|i: int| 0 <= i < next_start && i < q.len() implies q[i] == mid[i] by {
                        if i < start_pos {
                        } else if i < pos {
                        } else if i < pos + clue {
                        } else {
                            if remaining_clues@.len() == 0 {
                                assert(places(q, remaining_clues@, (pos + clue) as int));
                            }
                        }
                    }
                    assert(agree_below(q, mid, next_start as int));
                    let j = choose|j: int| pre.len() <= j < patterns@.len() && #[trigger] patterns@[j]@ == q;
                    assert(old(patterns)@.len() <= j);
                }
            }
        }
        set_run(current, pos, clue, false);
        proof {
            assert(current@ =~= start_cur);
        }
        pos = pos + 1;
    }
    proof {
        assert forall|q: Seq<bool>|
            q.len() == line_len && #[trigger] places(q, clues@, start_pos as int) && agree_below(q, start_cur, start_pos as int)
                implies listed(patterns@, old(patterns)@.len() as int, q) by {
            let p0 = choose|p0: int|
                #[trigger] run_at(q, clues@, start_pos as int, p0) && places(q, remaining_clues@, after_run(clues@, p0));
            if remaining_clues@.len() > 0 {
                lemma_places_fit(q, remaining_clues@, after_run(clues@, p0));
                assert(min_line(remaining_clues@) == clue_sum(remaining_clues@) + remaining_clues@.len() - 1);
            }
            assert(p0 <= max_start);
        }
    }
}

/// A prefix sum grows by the next clue.
proof fn lemma_clue_sum_prefix(cs: Seq<usize>, k: int)
    requires
        0 < k <= cs.len(),
    ensures
        clue_sum(cs.subrange(0, k)) == clue_sum(cs.subrange(0, k - 1)) + cs[k - 1],
        clue_sum(cs.subrange(0, k)) <= clue_sum(cs),
    decreases cs.len(),
{
    assert(cs.subrange(0, k).drop_last() =~= cs.subrange(0, k - 1));
    if k < cs.len() {
        lemma_clue_sum_prefix(cs.drop_last(), k);
        assert(cs.drop_last().subrange(0, k) =~= cs.subrange(0, k));
        assert(cs.drop_last().subrange(0, k - 1) =~= cs.subrange(0, k - 1));
    } else {
        assert(cs.subrange(0, k) =~= cs);
    }
}

/// Every pattern of a line of `line_len` cells for the clues: all cells
/// empty for no clue (or the single clue 0); none when the clues do not
/// fit.  Each pattern has `line_len` cells, as many of them filled as the
/// clues add up to.
pub fn generate_valid_patterns(line_len: usize, clues: &[usize]) -> (r: Vec<Vec<bool>>)
    requires
        clue_sum(clues@) + clues@.len() <= usize::MAX,
        line_len < usize::MAX,
    ensures
        r@.len() == 0 <==> min_line(clues@) > line_len && !(clues@.len() == 1 && clues@[0] == 0),
        forall|j: int| 0 <= j < r@.len() ==> (#[trigger] r@[j])@.len() == line_len && filled(r@[j]@) == clue_sum(clues@)
            && runs_match(r@[j]@, clues@),
        forall|p: Seq<bool>| p.len() == line_len && #[trigger] runs_match(p, clues@) ==> listed(r@, 0, p),
{
    if clues.len() == 0 || (clues.len() == 1 && clues[0] == 0) {
        let mut empty: Vec<bool> = Vec::new();
        let mut k: usize = 0;
        while k < line_len
            invariant
                k <= line_len,
                empty@.len() == k,
                filled(empty@) == 0,
                forall|i: int| 0 <= i < k ==> !empty@[i],
            decreases line_len - k,
        {
            let ghost e0 = empty@;
            empty.push(false);
            proof {
                assert(empty@.drop_last() =~= e0);
            }
            k = k + 1;
        }
        proof {
            if clues@.len() == 1 {
                assert(clues@.drop_last() =~= Seq::<usize>::empty());
                assert(clue_sum(Seq::<usize>::empty()) == 0);
                assert(clues@.last() == clues@[0]);
            }
            assert(clue_sum(clues@) == 0);
        }
        let r = vec![empty];
        proof {
            assert(r@[0] == empty);
            if clues@.len() == 1 {
                assert(run_at(empty@, clues@, 0, 0));
                assert(clues@.subrange(1, 1) =~= Seq::<usize>::empty());
                lemma_places_intro(empty@, clues@, 0, 0);
            }
            assert forall|p: Seq<bool>| p.len() == line_len && #[trigger] runs_match(p, clues@) implies listed(r@, 0, p) by {
                if clues@.len() == 1 {
                    assert(clues@.subrange(1, 1) =~= Seq::<usize>::empty());
                    let p0 = choose|p0: int|
                        #[trigger] run_at(p, clues@, 0, p0) && places(p, clues@.subrange(1, 1), after_run(clues@, p0));
                }
                assert(p =~= empty@);
                assert(r@[0]@ == p);
            }
        }
        return r;
    }
    let mut total: usize = 0;
    let mut k: usize = 0;
    while k < clues.len()
        invariant
            k <= clues@.len(),
            total == clue_sum(clues@.subrange(0, k as int)),
            clue_sum(clues@) + clues@.len() <= usize::MAX,
        decreases clues@.len() - k,
    {
        proof {
            lemma_clue_sum_prefix(clues@, k + 1);
        }
        total = total + clues[k];
        k = k + 1;
    }
    proof {
        assert(clues@.subrange(0, clues@.len() as int) =~= clues@);
    }
    let min_len = total + clues.len() - 1;
    if min_len > line_len {
        proof {
            assert forall|p: Seq<bool>| p.len() == line_len && #[trigger] runs_match(p, clues@) implies listed(
                Seq::<Vec<bool>>::empty(),
                0,
                p,
            ) by {
                lemma_places_fit(p, clues@, 0);
            }
        }
        return Vec::new();
    }
    let mut current: Vec<bool> = Vec::new();
    let mut k: usize = 0;
    while k < line_len
        invariant
            k <= line_len,
            current@.len() == k,
            filled(current@) == 0,
            forall|i: int| 0 <= i < k ==> !current@[i],
        decreases line_len - k,
    {
        let ghost c0 = current@;
        current.push(false);
        proof {
            assert(current@.drop_last() =~= c0);
        }
        k = k + 1;
    }
    let mut patterns: Vec<Vec<bool>> = Vec::new();
    generate_patterns_recursive(line_len, clues, 0, &mut current, &mut patterns);
    proof {
        assert forall|p: Seq<bool>| p.len() == line_len && #[trigger] runs_match(p, clues@) implies listed(patterns@, 0, p) by {
            assert(places(p, clues@, 0));
            assert(agree_below(p, current@, 0));
        }
    }
    patterns
}


/// Cell `k` of row `idx` (`is_row`) or of column `idx`.
pub open spec fn line_cell(cols: int, is_row: bool, idx: int, k: int) -> int {
    if is_row {
        cell_var(cols, idx, k)
    } else {
        cell_var(cols, k, idx)
    }
}

/// The line's cells are filled exactly as the pattern says.
pub open spec fn line_matches(a: spec_fn(int) -> bool, cols: int, is_row: bool, idx: int, p: Seq<bool>) -> bool {
    forall|k: int| 0 <= k < p.len() ==> #[trigger] a(line_cell(cols, is_row, idx, k)) == p[k]
}

/// `a` with the `m` auxiliary variables from `start` set so that only the
/// `i`-th is true.
pub open spec fn pick(a: spec_fn(int) -> bool, start: int, m: int, i: int) -> spec_fn(int) -> bool {
    |v: int| if start <= v < start + m { v == start + i } else { a(v) }
}

/// The cells of the line fit in `i32` and lie below the auxiliary
/// variables, which start at `next_aux`.
pub open spec fn line_fits(cols: int, is_row: bool, idx: int, patterns: Seq<Vec<bool>>, next_aux: int) -> bool {
    &&& 1 <= next_aux
    &&& next_aux + patterns.len() <= i32::MAX
    &&& forall|i: int, k: int|
        #![trigger patterns[i]@[k]]
        0 <= i < patterns.len() && 0 <= k < patterns[i]@.len() ==> line_cell(cols, is_row, idx, k) < next_aux && 0
            <= idx && 0 <= k && 0 <= cols
}

/// Implication clauses emitted so far: pattern `i` before `pi`, or `pi`
/// up to cell `pk`.
pub open spec fn implications_done(
    a: spec_fn(int) -> bool,
    cols: int,
    is_row: bool,
    idx: int,
    patterns: Seq<Vec<bool>>,
    aux: Seq<int>,
    pi: int,
    pk: int,
) -> bool {
    forall|i: int, k: int|
        #![trigger a(aux[i]), patterns[i]@[k]]
        0 <= i < patterns.len() && 0 <= k < patterns[i]@.len() && (i < pi || (i == pi && k < pk)) ==> (a(aux[i]) ==> a(
            line_cell(cols, is_row, idx, k),
        ) == patterns[i]@[k])
}

/// The literal saying that a cell is filled (or empty).
fn cell_literal(cols: usize, is_row: bool, idx: usize, k: usize, filled_cell: bool) -> (l: Literal)
    requires
        line_cell(cols as int, is_row, idx as int, k as int) <= i32::MAX,
    ensures
        l.var == line_cell(cols as int, is_row, idx as int, k as int),
        l.negated == !filled_cell,
{
    let v = if is_row { var(cols, idx, k) } else { var(cols, k, idx) };
    if filled_cell {
        Literal::positive(v)
    } else {
        Literal::negative(v)
    }
}

/// The clauses that make a line take one of the patterns (see
/// `encode_row_patterns`).
fn encode_line(idx: usize, cols: usize, is_row: bool, patterns: &Vec<Vec<bool>>, next_aux: &mut i32) -> (r: Vec<Clause>)
    requires
        line_fits(cols as int, is_row, idx as int, patterns@, *old(next_aux) as int),
    ensures
        *final(next_aux) == *old(next_aux) + if patterns@.len() > 1 { patterns@.len() as int } else { 0 },
        forall|a: spec_fn(int) -> bool| #[trigger] formula_sat(a, clauses_formula(r@)) ==> exists|i: int|
            0 <= i < patterns@.len() && line_matches(a, cols as int, is_row, idx as int, #[trigger] patterns@[i]@),
        forall|a: spec_fn(int) -> bool, i: int|
            0 <= i < patterns@.len() && #[trigger] line_matches(a, cols as int, is_row, idx as int, patterns@[i]@) ==> formula_sat(
                pick(a, *old(next_aux) as int, if patterns@.len() > 1 { patterns@.len() as int } else { 0 }, i),
                clauses_formula(r@),
            ),
{
    let ghost start = *next_aux as int;
    if patterns.len() == 0 {
        let r = vec![Clause::new(Vec::new())];
        proof {
            assert forall|a: spec_fn(int) -> bool| #[trigger] formula_sat(a, clauses_formula(r@)) implies exists|i: int|
                0 <= i < patterns@.len() && line_matches(a, cols as int, is_row, idx as int, #[trigger] patterns@[i]@) by {
                assert(clause_sat(a, clauses_formula(r@)[0]));
            }
        }
        return r;
    }
    if patterns.len() == 1 {
        let p = &patterns[0];
        let mut clauses: Vec<Clause> = Vec::new();
        let mut c: usize = 0;
        while c < p.len()
            invariant
                line_fits(cols as int, is_row, idx as int, patterns@, start),
                p@ == patterns@[0]@,
                patterns@.len() == 1,
                c <= p@.len(),
                forall|a: spec_fn(int) -> bool| #[trigger] formula_sat(a, clauses_formula(clauses@)) <==> forall|k: int|
                    0 <= k < c ==> #[trigger] a(line_cell(cols as int, is_row, idx as int, k)) == p@[k],
            decreases p@.len() - c,
        {
            proof {
                assert(patterns@[0]@[c as int] == p@[c as int]);
                assert(line_cell(cols as int, is_row, idx as int, c as int) < start);
            }
            let l = cell_literal(cols, is_row, idx, c, p[c]);
            let cl = Clause::new(vec![l]);
            let ghost cs0 = clauses@;
            clauses.push(cl);
            proof {
                let v = line_cell(cols as int, is_row, idx as int, c as int);
                assert(clauses_formula(clauses@) =~= clauses_formula(cs0).push(clause_ints(cl)));
                let ci = clause_ints(cl);
                assert(ci =~= seq![if p@[c as int] { v } else { -v }]);
                assert forall|a: spec_fn(int) -> bool| #[trigger] formula_sat(a, clauses_formula(clauses@)) <==> forall|k: int|
                    0 <= k < c + 1 ==> #[trigger] a(line_cell(cols as int, is_row, idx as int, k)) == p@[k] by {
                    lemma_formula_sat_push(a, clauses_formula(cs0), ci);
                    assert(v >= 1);
                    assert(clause_sat(a, ci) <==> (a(v) == p@[c as int])) by {
                        if clause_sat(a, ci) {
                            let q = choose|q: int| 0 <= q < ci.len() && #[trigger] lit_true(a, ci[q]);
                        }
                        if a(v) == p@[c as int] {
                            assert(lit_true(a, ci[0]));
                        }
                    }
                }
            }
            c = c + 1;
        }
        proof {
            assert forall|a: spec_fn(int) -> bool| #[trigger] formula_sat(a, clauses_formula(clauses@)) implies exists|i: int|
                0 <= i < patterns@.len() && line_matches(a, cols as int, is_row, idx as int, #[trigger] patterns@[i]@) by {
                assert(line_matches(a, cols as int, is_row, idx as int, patterns@[0]@));
            }
            assert forall|a: spec_fn(int) -> bool, i: int|
                0 <= i < patterns@.len() && #[trigger] line_matches(a, cols as int, is_row, idx as int, patterns@[i]@) implies formula_sat(
                pick(a, start, 0, i),
                clauses_formula(clauses@),
            ) by {
                let b = pick(a, start, 0, i);
                assert forall|k: int| 0 <= k < p@.len() implies #[trigger] b(line_cell(cols as int, is_row, idx as int, k)) == p@[k] by {
                    assert(a(line_cell(cols as int, is_row, idx as int, k)) == patterns@[i]@[k]);
                }
            }
        }
        return clauses;
    }
    let m = patterns.len();
    let mut aux: Vec<i32> = Vec::new();
    let mut i: usize = 0;
    while i < m
        invariant
            m == patterns@.len(),
            i <= m,
            aux@.len() == i,
            *next_aux as int == start + i,
            1 <= start,
            start + m <= i32::MAX,
            forall|j: int| 0 <= j < i ==> #[trigger] aux@[j] as int == start + j,
        decreases m - i,
    {
        aux.push(*next_aux);
        *next_aux = *next_aux + 1;
        i = i + 1;
    }
    let ghost av = var_ints(aux@);
    proof {
        assert forall|j: int| 0 <= j < m implies #[trigger] av[j] == start + j by {}
    }
    let mut clauses: Vec<Clause> = Vec::new();
    let ghost c0 = clauses@;
    push_at_least_one(&mut clauses, &aux, Ghost(i32::MAX as int));
    push_at_most_one(&mut clauses, &aux, Ghost(i32::MAX as int));
    proof {
        assert(clauses_formula(c0) =~= Seq::<Seq<int>>::empty());
    }
    let mut pi: usize = 0;
    while pi < m
        invariant
            m == patterns@.len(),
            m > 1,
            line_fits(cols as int, is_row, idx as int, patterns@, start),
            aux@.len() == m,
            av == var_ints(aux@),
            forall|j: int| 0 <= j < m ==> #[trigger] av[j] == start + j,
            pi <= m,
            forall|a: spec_fn(int) -> bool| #[trigger] formula_sat(a, clauses_formula(clauses@)) <==> some_true(a, av)
                && no_two_true(a, av) && implications_done(a, cols as int, is_row, idx as int, patterns@, av, pi as int, 0),
        decreases m - pi,
    {
        let p = &patterns[pi];
        let mut c: usize = 0;
        while c < p.len()
            invariant
                m == patterns@.len(),
                m > 1,
                line_fits(cols as int, is_row, idx as int, patterns@, start),
                aux@.len() == m,
                av == var_ints(aux@),
                forall|j: int| 0 <= j < m ==> #[trigger] av[j] == start + j,
                pi < m,
                p@ == patterns@[pi as int]@,
                c <= p@.len(),
                forall|a: spec_fn(int) -> bool| #[trigger] formula_sat(a, clauses_formula(clauses@)) <==> some_true(a, av)
                    && no_two_true(a, av) && implications_done(a, cols as int, is_row, idx as int, patterns@, av, pi as int, c as int),
            decreases p@.len() - c,
        {
            proof {
                assert(patterns@[pi as int]@[c as int] == p@[c as int]);
                assert(line_cell(cols as int, is_row, idx as int, c as int) < start);
            }
            let l = cell_literal(cols, is_row, idx, c, p[c]);
            let cl = Clause::new(vec![Literal::negative(aux[pi]), l]);
            let ghost cs0 = clauses@;
            clauses.push(cl);
            proof {
                let v = line_cell(cols as int, is_row, idx as int, c as int);
                let x = av[pi as int];
                assert(clauses_formula(clauses@) =~= clauses_formula(cs0).push(clause_ints(cl)));
                let ci = clause_ints(cl);
                assert(ci =~= seq![-x, if p@[c as int] { v } else { -v }]);
                assert forall|a: spec_fn(int) -> bool| #[trigger] formula_sat(a, clauses_formula(clauses@)) <==> some_true(a, av)
                    && no_two_true(a, av) && implications_done(a, cols as int, is_row, idx as int, patterns@, av, pi as int, c + 1) by {
                    lemma_formula_sat_push(a, clauses_formula(cs0), ci);
                    assert(v >= 1 && x >= 1);
                    assert(clause_sat(a, ci) <==> (a(x) ==> a(v) == p@[c as int])) by {
                        if clause_sat(a, ci) {
                            let q = choose|q: int| 0 <= q < ci.len() && #[trigger] lit_true(a, ci[q]);
                        }
                        if !a(x) {
                            assert(lit_true(a, ci[0]));
                        } else if a(v) == p@[c as int] {
                            assert(lit_true(a, ci[1]));
                        }
                    }
                    let d0 = implications_done(a, cols as int, is_row, idx as int, patterns@, av, pi as int, c as int);
                    let d1 = implications_done(a, cols as int, is_row, idx as int, patterns@, av, pi as int, c + 1);
                    if d1 {
                        assert(a(av[pi as int]) ==> a(line_cell(cols as int, is_row, idx as int, c as int)) == patterns@[pi as int]@[c as int]);
                    }
                    if d0 && (a(x) ==> a(v) == p@[c as int]) {
                        assert forall|i: int, k: int|
                            #![trigger a(av[i]), patterns@[i]@[k]]
                            0 <= i < patterns@.len() && 0 <= k < patterns@[i]@.len() && (i < pi || (i == pi && k < c + 1)) implies (
                            a(av[i]) ==> a(line_cell(cols as int, is_row, idx as int, k)) == patterns@[i]@[k]) by {
                        }
                    }
                }
            }
            c = c + 1;
        }
        proof {
            assert forall|a: spec_fn(int) -> bool| #![trigger implications_done(a, cols as int, is_row, idx as int, patterns@, av, pi as int, p@.len() as int)]
                implications_done(a, cols as int, is_row, idx as int, patterns@, av, pi as int, p@.len() as int) == implications_done(
                a,
                cols as int,
                is_row,
                idx as int,
                patterns@,
                av,
                pi + 1,
                0,
            ) by {
            }
        }
        pi = pi + 1;
    }
    proof {
        assert forall|a: spec_fn(int) -> bool| #[trigger] formula_sat(a, clauses_formula(clauses@)) implies exists|i: int|
            0 <= i < patterns@.len() && line_matches(a, cols as int, is_row, idx as int, #[trigger] patterns@[i]@) by {
            let i = choose|i: int| 0 <= i < av.len() && #[trigger] a(av[i]);
            assert forall|k: int| 0 <= k < patterns@[i]@.len() implies #[trigger] a(line_cell(cols as int, is_row, idx as int, k))
                == patterns@[i]@[k] by {
                assert(implications_done(a, cols as int, is_row, idx as int, patterns@, av, m as int, 0));
            }
            assert(line_matches(a, cols as int, is_row, idx as int, patterns@[i]@));
        }
        assert forall|a: spec_fn(int) -> bool, i: int|
            0 <= i < patterns@.len() && #[trigger] line_matches(a, cols as int, is_row, idx as int, patterns@[i]@) implies formula_sat(
            pick(a, start, m as int, i),
            clauses_formula(clauses@),
        ) by {
            let b = pick(a, start, m as int, i);
            assert(b(av[i]));
            assert(some_true(b, av));
            assert forall|p: int, q: int| 0 <= p < q < av.len() implies !(#[trigger] b(av[p]) && #[trigger] b(av[q])) by {}
            assert forall|i2: int, k: int|
                #![trigger b(av[i2]), patterns@[i2]@[k]]
                0 <= i2 < patterns@.len() && 0 <= k < patterns@[i2]@.len() && (i2 < m || (i2 == m && k < 0)) implies (
                b(av[i2]) ==> b(line_cell(cols as int, is_row, idx as int, k)) == patterns@[i2]@[k]) by {
                if b(av[i2]) {
                    assert(i2 == i);
                    assert(patterns@[i2]@[k] == patterns@[i]@[k]);
                    assert(line_cell(cols as int, is_row, idx as int, k) < start);
                    assert(a(line_cell(cols as int, is_row, idx as int, k)) == patterns@[i]@[k]);
                }
            }
        }
    }
    clauses
}

/// The clauses that make row `row` take exactly one of `patterns`: with no
/// pattern, the empty clause; with one, a unit clause per cell; with more,
/// one new auxiliary variable per pattern (numbered from `next_aux`, which
/// moves past them): at least one and at most one of them is true, and a
/// true one fixes the row's cells to its pattern.  A satisfying assignment
/// fills the row as one of the patterns; a row filled as pattern `i` gives
/// one, once its auxiliary variable is chosen.
pub fn encode_row_patterns(row: usize, cols: usize, patterns: &Vec<Vec<bool>>, next_aux: &mut i32) -> (r: Vec<Clause>)
    requires
        line_fits(cols as int, true, row as int, patterns@, *old(next_aux) as int),
    ensures
        *final(next_aux) == *old(next_aux) + if patterns@.len() > 1 { patterns@.len() as int } else { 0 },
        forall|a: spec_fn(int) -> bool| #[trigger] formula_sat(a, clauses_formula(r@)) ==> exists|i: int|
            0 <= i < patterns@.len() && line_matches(a, cols as int, true, row as int, #[trigger] patterns@[i]@),
        forall|a: spec_fn(int) -> bool, i: int|
            0 <= i < patterns@.len() && #[trigger] line_matches(a, cols as int, true, row as int, patterns@[i]@) ==> formula_sat(
                pick(a, *old(next_aux) as int, if patterns@.len() > 1 { patterns@.len() as int } else { 0 }, i),
                clauses_formula(r@),
            ),
{
    encode_line(row, cols, true, patterns, next_aux)
}

/// The clauses that make column `col` take exactly one of `patterns` (see
/// `encode_row_patterns`).
pub fn encode_col_patterns(col: usize, _rows: usize, cols: usize, patterns: &Vec<Vec<bool>>, next_aux: &mut i32) -> (r: Vec<Clause>)
    requires
        line_fits(cols as int, false, col as int, patterns@, *old(next_aux) as int),
    ensures
        *final(next_aux) == *old(next_aux) + if patterns@.len() > 1 { patterns@.len() as int } else { 0 },
        forall|a: spec_fn(int) -> bool| #[trigger] formula_sat(a, clauses_formula(r@)) ==> exists|i: int|
            0 <= i < patterns@.len() && line_matches(a, cols as int, false, col as int, #[trigger] patterns@[i]@),
        forall|a: spec_fn(int) -> bool, i: int|
            0 <= i < patterns@.len() && #[trigger] line_matches(a, cols as int, false, col as int, patterns@[i]@) ==> formula_sat(
                pick(a, *old(next_aux) as int, if patterns@.len() > 1 { patterns@.len() as int } else { 0 }, i),
                clauses_formula(r@),
            ),
{
    encode_line(col, cols, false, patterns, next_aux)
}

/// Why a nonogram could not be solved.
#[derive(Debug, Clone, PartialEq)]
pub enum NonogramError {
    /// No pattern of the line's length has the line's runs: row `index`
    /// when `is_row`, else column `index` (from 0).
    NoPatterns { is_row: bool, index: usize },
    /// The grid, a clue sum or the number of variables is too large.
    TooLarge,
    /// The solver reported an internal error.
    Solver(SolverError),
}

/// Some line of `len` cells that the assignment fills as its pattern has
/// the runs `clues`.
pub open spec fn line_ok(a: spec_fn(int) -> bool, cols: int, is_row: bool, idx: int, len: int, clues: Seq<usize>) -> bool {
    exists|p: Seq<bool>| p.len() == len && runs_match(p, clues) && #[trigger] line_matches(a, cols, is_row, idx, p)
}

/// Column `c` of grid `g`.
pub open spec fn column(g: Seq<Vec<bool>>, c: int) -> Seq<bool> {
    Seq::new(g.len(), |r: int| g[r]@[c])
}

/// Grid `g` has `rows` rows of `cols` cells, and the runs of each row and
/// of each column are that line's clues.
pub open spec fn solves_nonogram(
    g: Seq<Vec<bool>>,
    rows: int,
    cols: int,
    row_clues: Seq<Vec<usize>>,
    col_clues: Seq<Vec<usize>>,
) -> bool {
    &&& g.len() == rows
    &&& forall|r: int| 0 <= r < rows ==> (#[trigger] g[r])@.len() == cols
    &&& forall|r: int| 0 <= r < rows ==> runs_match(#[trigger] g[r]@, row_clues[r]@)
    &&& forall|c: int| 0 <= c < cols ==> runs_match(#[trigger] column(g, c), col_clues[c]@)
}

/// The sum of the clues plus their number, when it fits in a `usize`.
fn clues_total(clues: &Vec<usize>) -> (r: Option<usize>)
    ensures
        r matches Some(t) ==> t == clue_sum(clues@) + clues@.len(),
        r is None ==> clue_sum(clues@) + clues@.len() > usize::MAX,
{
    let mut total: usize = clues.len();
    let mut k: usize = 0;
    while k < clues.len()
        invariant
            k <= clues@.len(),
            total == clue_sum(clues@.subrange(0, k as int)) + clues@.len(),
        decreases clues@.len() - k,
    {
        proof {
            lemma_clue_sum_prefix(clues@, k + 1);
        }
        match total.checked_add(clues[k]) {
            Some(t) => {
                total = t;
            },
            None => {
                proof {
                    lemma_clue_sum_prefix(clues@, k + 1);
                }
                return None;
            },
        }
        k = k + 1;
    }
    proof {
        assert(clues@.subrange(0, clues@.len() as int) =~= clues@);
    }
    Some(total)
}

/// A model of a concatenation is a model of both parts.
/// The auxiliary variables `s..s+m` have only the `i`-th true.
pub open spec fn aux_pick(b: spec_fn(int) -> bool, s: int, m: int, i: int) -> bool {
    forall|v: int| s <= v < s + m ==> #[trigger] b(v) == (v == s + i)
}

/// Any assignment that fills the line as `p` and picks auxiliary variable
/// `i` of `s..s+m`, and satisfies the clauses `old_cs`, satisfies `new_cs`.
pub open spec fn extends_ok(
    p: Seq<bool>,
    cols: int,
    is_row: bool,
    idx: int,
    s: int,
    m: int,
    i: int,
    old_cs: Seq<Clause>,
    new_cs: Seq<Clause>,
) -> bool {
    forall|b: spec_fn(int) -> bool|
        line_matches(b, cols, is_row, idx, p) && aux_pick(b, s, m, i) && #[trigger] formula_sat(b, clauses_formula(old_cs))
            ==> formula_sat(b, clauses_formula(new_cs))
}

proof fn lemma_formula_sat_concat(a: spec_fn(int) -> bool, x: Seq<Clause>, y: Seq<Clause>)
    ensures
        formula_sat(a, clauses_formula(x + y)) <==> formula_sat(a, clauses_formula(x)) && formula_sat(
            a,
            clauses_formula(y),
        ),
{
    let f = clauses_formula(x + y);
    if formula_sat(a, clauses_formula(x)) && formula_sat(a, clauses_formula(y)) {
        assert forall|i: int| 0 <= i < f.len() implies #[trigger] clause_sat(a, f[i]) by {
            if i < x.len() {
                assert(f[i] == clauses_formula(x)[i]);
            } else {
                assert(f[i] == clauses_formula(y)[i - x.len()]);
            }
        }
    }
    if !formula_sat(a, f) {
        return;
    }
    assert forall|i: int| 0 <= i < x.len() implies #[trigger] clause_sat(a, clauses_formula(x)[i]) by {
        assert(f[i] == clauses_formula(x)[i]);
    }
    assert forall|i: int| 0 <= i < y.len() implies #[trigger] clause_sat(a, clauses_formula(y)[i]) by {
        assert(f[x.len() + i] == clauses_formula(y)[i]);
    }
}

/// A line whose patterns include every line of its runs, and whose clauses
/// accept a line of pattern `i` once auxiliary variable `i` is picked,
/// extends every model of the earlier clauses.
proof fn lemma_line_extends(
    patterns: Seq<Vec<bool>>,
    more: Seq<Clause>,
    before: Seq<Clause>,
    cols: int,
    is_row: bool,
    idx: int,
    s: int,
    m: int,
    clues: Seq<usize>,
    len: int,
)
    requires
        forall|p: Seq<bool>| p.len() == len && #[trigger] runs_match(p, clues) ==> listed(patterns, 0, p),
        forall|a: spec_fn(int) -> bool, i: int|
            0 <= i < patterns.len() && #[trigger] line_matches(a, cols, is_row, idx, patterns[i]@) ==> formula_sat(
                pick(a, s, m, i),
                clauses_formula(more),
            ),
    ensures
        forall|p: Seq<bool>| p.len() == len && #[trigger] runs_match(p, clues) ==> exists|i: int|
            #[trigger] extends_ok(p, cols, is_row, idx, s, m, i, before, before + more),
{
    assert forall|p: Seq<bool>| p.len() == len && #[trigger] runs_match(p, clues) implies exists|i: int|
        #[trigger] extends_ok(p, cols, is_row, idx, s, m, i, before, before + more) by {
        assert(listed(patterns, 0, p));
        let j = choose|j: int| 0 <= j < patterns.len() && #[trigger] patterns[j]@ == p;
        assert forall|b: spec_fn(int) -> bool|
            line_matches(b, cols, is_row, idx, p) && aux_pick(b, s, m, j) && #[trigger] formula_sat(b, clauses_formula(before))
                implies formula_sat(b, clauses_formula(before + more)) by {
            assert(line_matches(b, cols, is_row, idx, patterns[j]@));
            let pb = pick(b, s, m, j);
            assert(formula_sat(pb, clauses_formula(more)));
            assert(pb =~= b);
            lemma_formula_sat_concat(b, before, more);
        }
        assert(extends_ok(p, cols, is_row, idx, s, m, j, before, before + more));
    }
}

/// Adds the clauses of one line (row `idx` when `is_row`, else column
/// `idx`): its patterns, one of which a model must give the line.
fn add_line(
    clauses: &mut Vec<Clause>,
    next_aux: &mut i32,
    rows: usize,
    cols: usize,
    is_row: bool,
    idx: usize,
    clues: &Vec<usize>,
) -> (r: Result<(), NonogramError>)
    requires
        rows * cols < i32::MAX,
        rows * cols < *old(next_aux),
        if is_row { idx < rows } else { idx < cols },
    ensures
        r is Ok ==> *final(next_aux) >= *old(next_aux) && forall|a: spec_fn(int) -> bool|
            #[trigger] formula_sat(a, clauses_formula(final(clauses)@)) ==> formula_sat(a, clauses_formula(old(clauses)@))
                && line_ok(a, cols as int, is_row, idx as int, if is_row { cols as int } else { rows as int }, clues@),
        r matches Err(NonogramError::NoPatterns { is_row: b, index }) ==> b == is_row && index == idx && forall|p: Seq<bool>|
            p.len() == (if is_row { cols as int } else { rows as int }) ==> !#[trigger] runs_match(p, clues@),
        r matches Err(e) ==> e is NoPatterns || e is TooLarge,
        r is Ok ==> forall|p: Seq<bool>|
            p.len() == (if is_row { cols as int } else { rows as int }) && #[trigger] runs_match(p, clues@) ==> exists|i: int|
                #[trigger] extends_ok(
                    p,
                    cols as int,
                    is_row,
                    idx as int,
                    *old(next_aux) as int,
                    *final(next_aux) - *old(next_aux),
                    i,
                    old(clauses)@,
                    final(clauses)@,
                ),
{
    let len = if is_row { cols } else { rows };
    if len == usize::MAX {
        return Err(NonogramError::TooLarge);
    }
    match clues_total(clues) {
        None => {
            return Err(NonogramError::TooLarge);
        },
        Some(_) => {},
    }
    let patterns = generate_valid_patterns(len, clues.as_slice());
    if patterns.len() == 0 {
        proof {
            assert forall|p: Seq<bool>| p.len() == len implies !#[trigger] runs_match(p, clues@) by {
                if runs_match(p, clues@) {
                    lemma_places_fit(p, clues@, 0);
                }
            }
        }
        return Err(NonogramError::NoPatterns { is_row, index: idx });
    }
    if patterns.len() > (i32::MAX - *next_aux) as usize {
        return Err(NonogramError::TooLarge);
    }
    proof {
        assert forall|k: int| 0 <= k < len implies #[trigger] line_cell(cols as int, is_row, idx as int, k) < *next_aux by {
            if is_row {
                assert(idx * cols + k + 1 <= rows * cols) by (nonlinear_arith)
                    requires 0 <= idx < rows, 0 <= k < cols;
            } else {
                assert(k * cols + idx + 1 <= rows * cols) by (nonlinear_arith)
                    requires 0 <= k < rows, 0 <= idx < cols;
            }
        }
        assert(line_fits(cols as int, is_row, idx as int, patterns@, *next_aux as int));
    }
    let ghost a0 = *next_aux;
    let more = if is_row {
        encode_row_patterns(idx, cols, &patterns, next_aux)
    } else {
        encode_col_patterns(idx, rows, cols, &patterns, next_aux)
    };
    let ghost before = clauses@;
    let mut more = more;
    let ghost more_seq = more@;
    clauses.append(&mut more);
    proof {
        assert forall|a: spec_fn(int) -> bool| #[trigger] formula_sat(a, clauses_formula(clauses@)) implies formula_sat(
            a,
            clauses_formula(before),
        ) && line_ok(a, cols as int, is_row, idx as int, len as int, clues@) by {
            lemma_formula_sat_concat(a, before, more_seq);
            let i = choose|i: int|
                0 <= i < patterns@.len() && line_matches(a, cols as int, is_row, idx as int, #[trigger] patterns@[i]@);
            assert(patterns@[i]@.len() == len && runs_match(patterns@[i]@, clues@));
        }
        let m = *next_aux - a0;
        assert(clauses@ == before + more_seq);
        lemma_line_extends(patterns@, more_seq, before, cols as int, is_row, idx as int, a0 as int, m, clues@, len as int);
    }
    Ok(())
}

/// Assignment `b` fills the cells as grid `g` says.
pub open spec fn cells_match(b: spec_fn(int) -> bool, g: Seq<Vec<bool>>, rows: int, cols: int) -> bool {
    forall|r: int, c: int| 0 <= r < rows && 0 <= c < cols ==> #[trigger] b(cell_var(cols, r, c)) == g[r]@[c]
}

/// Assignment `b` picks auxiliary variable `sel[l]` of the range
/// `starts[l]..starts[l]+sizes[l]` of every line `l` so far.
pub open spec fn picks_ok(b: spec_fn(int) -> bool, starts: Seq<int>, sizes: Seq<int>, sel: Seq<int>) -> bool {
    forall|l: int| 0 <= l < sel.len() ==> #[trigger] aux_pick(b, starts[l], sizes[l], sel[l])
}

/// Every assignment that fills the cells as `g` and makes the picks `sel`
/// satisfies the clauses `cs`.
pub open spec fn covers(
    cs: Seq<Clause>,
    g: Seq<Vec<bool>>,
    starts: Seq<int>,
    sizes: Seq<int>,
    sel: Seq<int>,
    rows: int,
    cols: int,
) -> bool {
    forall|b: spec_fn(int) -> bool|
        cells_match(b, g, rows, cols) && picks_ok(b, starts, sizes, sel) ==> #[trigger] formula_sat(b, clauses_formula(cs))
}

/// Every solution grid extends, by some picks, to a model of `cs`.
pub open spec fn complete_so_far(
    cs: Seq<Clause>,
    starts: Seq<int>,
    sizes: Seq<int>,
    rows: int,
    cols: int,
    row_clues: Seq<Vec<usize>>,
    col_clues: Seq<Vec<usize>>,
) -> bool {
    forall|g: Seq<Vec<bool>>|
        #[trigger] solves_nonogram(g, rows, cols, row_clues, col_clues) ==> exists|sel: Seq<int>|
            sel.len() == starts.len() && #[trigger] covers(cs, g, starts, sizes, sel, rows, cols)
}

/// The auxiliary ranges lie above the cells and below `next`, one after the
/// other.
pub open spec fn layout_ok(starts: Seq<int>, sizes: Seq<int>, cells: int, next: int) -> bool {
    &&& starts.len() == sizes.len()
    &&& forall|l: int| 0 <= l < starts.len() ==> #[trigger] starts[l] > cells && sizes[l] >= 0 && starts[l] + sizes[l] <= next
    &&& forall|l1: int, l2: int| 0 <= l1 < l2 < starts.len() ==> #[trigger] starts[l1] + sizes[l1] <= #[trigger] starts[l2]
}

/// Adding a line keeps every solution grid extendable.
proof fn lemma_complete_step(
    cs0: Seq<Clause>,
    cs1: Seq<Clause>,
    starts: Seq<int>,
    sizes: Seq<int>,
    s: int,
    m: int,
    rows: int,
    cols: int,
    row_clues: Seq<Vec<usize>>,
    col_clues: Seq<Vec<usize>>,
    is_row: bool,
    idx: int,
    clues: Seq<usize>,
)
    requires
        complete_so_far(cs0, starts, sizes, rows, cols, row_clues, col_clues),
        clues == (if is_row { row_clues[idx]@ } else { col_clues[idx]@ }),
        starts.len() == sizes.len(),
        0 <= idx,
        is_row ==> idx < rows,
        !is_row ==> idx < cols,
        forall|p: Seq<bool>|
            p.len() == (if is_row { cols } else { rows }) && #[trigger] runs_match(p, clues) ==> exists|i: int|
                #[trigger] extends_ok(p, cols, is_row, idx, s, m, i, cs0, cs1),
    ensures
        complete_so_far(cs1, starts.push(s), sizes.push(m), rows, cols, row_clues, col_clues),
{
    assert forall|g: Seq<Vec<bool>>| #[trigger] solves_nonogram(g, rows, cols, row_clues, col_clues) implies exists|
        sel: Seq<int>,
    | sel.len() == starts.push(s).len() && #[trigger] covers(cs1, g, starts.push(s), sizes.push(m), sel, rows, cols) by {
        let sel = choose|sel: Seq<int>| sel.len() == starts.len() && #[trigger] covers(cs0, g, starts, sizes, sel, rows, cols);
        let p = if is_row { g[idx]@ } else { column(g, idx) };
        assert(runs_match(p, clues));
        let i = choose|i: int| #[trigger] extends_ok(p, cols, is_row, idx, s, m, i, cs0, cs1);
        let sel1 = sel.push(i);
        assert forall|b: spec_fn(int) -> bool|
            cells_match(b, g, rows, cols) && picks_ok(b, starts.push(s), sizes.push(m), sel1) implies #[trigger] formula_sat(
            b,
            clauses_formula(cs1),
        ) by {
            assert forall|l: int| 0 <= l < sel.len() implies #[trigger] aux_pick(b, starts[l], sizes[l], sel[l]) by {
                assert(aux_pick(b, starts.push(s)[l], sizes.push(m)[l], sel1[l]));
            }
            assert(formula_sat(b, clauses_formula(cs0)));
            assert(aux_pick(b, starts.push(s)[sel.len() as int], sizes.push(m)[sel.len() as int], sel1[sel.len() as int]));
            assert forall|k: int| 0 <= k < p.len() implies #[trigger] b(line_cell(cols, is_row, idx, k)) == p[k] by {
                if is_row {
                    assert(b(cell_var(cols, idx, k)) == g[idx]@[k]);
                } else {
                    assert(b(cell_var(cols, k, idx)) == g[k]@[idx]);
                }
            }
            assert(line_matches(b, cols, is_row, idx, p));
        }
        assert(covers(cs1, g, starts.push(s), sizes.push(m), sel1, rows, cols));
    }
}

/// Cell variables of distinct cells differ.
proof fn lemma_cell_var_injective(cols: int, r1: int, c1: int, r2: int, c2: int)
    requires
        0 <= r1,
        0 <= r2,
        0 <= c1 < cols,
        0 <= c2 < cols,
        cell_var(cols, r1, c1) == cell_var(cols, r2, c2),
    ensures
        r1 == r2 && c1 == c2,
{
    if r1 < r2 {
        assert(r1 * cols + c1 < r2 * cols) by (nonlinear_arith)
            requires r1 < r2, 0 <= c1 < cols;
    } else if r2 < r1 {
        assert(r2 * cols + c2 < r1 * cols) by (nonlinear_arith)
            requires r2 < r1, 0 <= c2 < cols;
    }
}

/// A solution grid makes the clauses satisfiable once every line is in.
proof fn lemma_complete_sat(
    cs: Seq<Clause>,
    starts: Seq<int>,
    sizes: Seq<int>,
    next: int,
    rows: int,
    cols: int,
    row_clues: Seq<Vec<usize>>,
    col_clues: Seq<Vec<usize>>,
    g: Seq<Vec<bool>>,
)
    requires
        complete_so_far(cs, starts, sizes, rows, cols, row_clues, col_clues),
        layout_ok(starts, sizes, rows * cols, next),
        0 <= rows,
        0 <= cols,
        solves_nonogram(g, rows, cols, row_clues, col_clues),
    ensures
        crate::literal::satisfiable(clauses_formula(cs)),
{
    let sel = choose|sel: Seq<int>| sel.len() == starts.len() && #[trigger] covers(cs, g, starts, sizes, sel, rows, cols);
    let cells = rows * cols;
    let b = |v: int|
        if v <= cells {
            exists|r: int, c: int| 0 <= r < rows && 0 <= c < cols && #[trigger] cell_var(cols, r, c) == v && g[r]@[c]
        } else {
            exists|l: int| 0 <= l < starts.len() && starts[l] <= v < starts[l] + sizes[l] && v == #[trigger] starts[l] + sel[l]
        };
    assert forall|r: int, c: int| 0 <= r < rows && 0 <= c < cols implies #[trigger] b(cell_var(cols, r, c)) == g[r]@[c] by {
        assert(r * cols + c + 1 <= rows * cols) by (nonlinear_arith)
            requires 0 <= r < rows, 0 <= c < cols;
        let v = cell_var(cols, r, c);
        if b(v) {
            let (r2, c2) = choose|r2: int, c2: int|
                0 <= r2 < rows && 0 <= c2 < cols && #[trigger] cell_var(cols, r2, c2) == v && g[r2]@[c2];
            lemma_cell_var_injective(cols, r, c, r2, c2);
        }
    }
    assert forall|l: int| 0 <= l < sel.len() implies #[trigger] aux_pick(b, starts[l], sizes[l], sel[l]) by {
        assert forall|v: int| starts[l] <= v < starts[l] + sizes[l] implies #[trigger] b(v) == (v == starts[l] + sel[l]) by {
            assert(starts[l] > cells);
            if b(v) {
                let l2 = choose|l2: int|
                    0 <= l2 < starts.len() && starts[l2] <= v < starts[l2] + sizes[l2] && v == #[trigger] starts[l2] + sel[l2];
                if l2 < l {
                    assert(starts[l2] + sizes[l2] <= starts[l]);
                } else if l < l2 {
                    assert(starts[l] + sizes[l] <= starts[l2]);
                }
            }
            if v == starts[l] + sel[l] {
                assert(starts[l] <= v < starts[l] + sizes[l] && v == starts[l] + sel[l]);
            }
        }
    }
    assert(cells_match(b, g, rows, cols));
    assert(picks_ok(b, starts, sizes, sel));
    assert(formula_sat(b, clauses_formula(cs)));
}

/// Solves the nonogram with `rows` rows and `cols` columns: `Ok(Some(grid))`
/// is a grid (`true` for filled) whose rows and columns have exactly the
/// runs their clues give; `Ok(None)` means no such grid exists;
/// `Err(NoPatterns)` names a line that no pattern of its length fits.
pub fn solve_nonogram(rows: usize, cols: usize, row_clues: &Vec<Vec<usize>>, col_clues: &Vec<Vec<usize>>) -> (r: Result<
    Option<Vec<Vec<bool>>>,
    NonogramError,
>)
    requires
        row_clues@.len() == rows,
        col_clues@.len() == cols,
    ensures
        r matches Ok(Some(g)) ==> solves_nonogram(g@, rows as int, cols as int, row_clues@, col_clues@),
        r matches Ok(None) ==> forall|g: Seq<Vec<bool>>|
            !#[trigger] solves_nonogram(g, rows as int, cols as int, row_clues@, col_clues@),
        r matches Err(NonogramError::NoPatterns { is_row, index }) ==> if is_row {
            index < rows && forall|p: Seq<bool>| p.len() == cols ==> !#[trigger] runs_match(p, row_clues@[index as int]@)
        } else {
            index < cols && forall|p: Seq<bool>| p.len() == rows ==> !#[trigger] runs_match(p, col_clues@[index as int]@)
        },
{
    let cells = match rows.checked_mul(cols) {
        Some(c) => c,
        None => {
            return Err(NonogramError::TooLarge);
        },
    };
    if cells >= i32::MAX as usize {
        return Err(NonogramError::TooLarge);
    }
    let mut next_aux: i32 = (cells + 1) as i32;
    let mut clauses: Vec<Clause> = Vec::new();
    let ghost mut starts: Seq<int> = Seq::empty();
    let ghost mut sizes: Seq<int> = Seq::empty();
    proof {
        assert forall|g: Seq<Vec<bool>>|
            #[trigger] solves_nonogram(g, rows as int, cols as int, row_clues@, col_clues@) implies exists|sel: Seq<int>|
            sel.len() == starts.len() && #[trigger] covers(clauses@, g, starts, sizes, sel, rows as int, cols as int) by {
            assert(covers(clauses@, g, starts, sizes, Seq::<int>::empty(), rows as int, cols as int));
        }
    }
    let mut i: usize = 0;
    while i < rows
        invariant
            i <= rows,
            row_clues@.len() == rows,
            rows * cols == cells,
            cells < i32::MAX,
            cells < next_aux,
            col_clues@.len() == cols,
            layout_ok(starts, sizes, cells as int, next_aux as int),
            complete_so_far(clauses@, starts, sizes, rows as int, cols as int, row_clues@, col_clues@),
            forall|a: spec_fn(int) -> bool| #[trigger] formula_sat(a, clauses_formula(clauses@)) ==> forall|r: int|
                0 <= r < i ==> #[trigger] line_ok(a, cols as int, true, r, cols as int, row_clues@[r]@),
        decreases rows - i,
    {
        let ghost before = clauses@;
        let ghost s0 = next_aux;
        match add_line(&mut clauses, &mut next_aux, rows, cols, true, i, &row_clues[i]) {
            Err(e) => {
                return Err(e);
            },
            Ok(()) => {},
        }
        proof {
            lemma_complete_step(
                before,
                clauses@,
                starts,
                sizes,
                s0 as int,
                next_aux - s0,
                rows as int,
                cols as int,
                row_clues@,
                col_clues@,
                true,
                i as int,
                row_clues@[i as int]@,
            );
            starts = starts.push(s0 as int);
            sizes = sizes.push(next_aux - s0);
        }
        proof {
            assert forall|a: spec_fn(int) -> bool| #[trigger] formula_sat(a, clauses_formula(clauses@)) implies forall|r: int|
                0 <= r < i + 1 ==> #[trigger] line_ok(a, cols as int, true, r, cols as int, row_clues@[r]@) by {
                assert(formula_sat(a, clauses_formula(before)));
            }
        }
        i = i + 1;
    }
    let mut j: usize = 0;
    while j < cols
        invariant
            j <= cols,
            row_clues@.len() == rows,
            col_clues@.len() == cols,
            rows * cols == cells,
            cells < i32::MAX,
            cells < next_aux,
            layout_ok(starts, sizes, cells as int, next_aux as int),
            complete_so_far(clauses@, starts, sizes, rows as int, cols as int, row_clues@, col_clues@),
            forall|a: spec_fn(int) -> bool| #[trigger] formula_sat(a, clauses_formula(clauses@)) ==> (forall|r: int|
                0 <= r < rows ==> #[trigger] line_ok(a, cols as int, true, r, cols as int, row_clues@[r]@)) && (forall|c: int|
                0 <= c < j ==> #[trigger] line_ok(a, cols as int, false, c, rows as int, col_clues@[c]@)),
        decreases cols - j,
    {
        let ghost before = clauses@;
        let ghost s0 = next_aux;
        match add_line(&mut clauses, &mut next_aux, rows, cols, false, j, &col_clues[j]) {
            Err(e) => {
                return Err(e);
            },
            Ok(()) => {},
        }
        proof {
            lemma_complete_step(
                before,
                clauses@,
                starts,
                sizes,
                s0 as int,
                next_aux - s0,
                rows as int,
                cols as int,
                row_clues@,
                col_clues@,
                false,
                j as int,
                col_clues@[j as int]@,
            );
            starts = starts.push(s0 as int);
            sizes = sizes.push(next_aux - s0);
        }
        proof {
            assert forall|a: spec_fn(int) -> bool| #[trigger] formula_sat(a, clauses_formula(clauses@)) implies (forall|r: int|
                0 <= r < rows ==> #[trigger] line_ok(a, cols as int, true, r, cols as int, row_clues@[r]@)) && (forall|c: int|
                0 <= c < j + 1 ==> #[trigger] line_ok(a, cols as int, false, c, rows as int, col_clues@[c]@)) by {
                assert(formula_sat(a, clauses_formula(before)));
            }
        }
        j = j + 1;
    }
    if !solver_input_fits(&clauses) {
        return Err(NonogramError::TooLarge);
    }
    let ghost cs = clauses@;
    let ghost f = clauses_formula(cs);
    proof {
        lemma_drop_empty_id(f);
    }
    let mut solver = CDCLSolver::new(clauses);
    proof {
        assert(solver.formula() =~= f);
    }
    match solver.solve() {
        Err(e) => {
            return Err(NonogramError::Solver(e));
        },
        Ok(false) => {
            proof {
                assert forall|g: Seq<Vec<bool>>|
                    !#[trigger] solves_nonogram(g, rows as int, cols as int, row_clues@, col_clues@) by {
                    if solves_nonogram(g, rows as int, cols as int, row_clues@, col_clues@) {
                        lemma_complete_sat(
                            cs,
                            starts,
                            sizes,
                            next_aux as int,
                            rows as int,
                            cols as int,
                            row_clues@,
                            col_clues@,
                            g,
                        );
                    }
                }
            }
            return Ok(None);
        },
        Ok(true) => {},
    }
    let ghost m = solver.model();
    let ghost nv = solver.nvars();
    let ghost a = |x: int| x <= nv && m(x);
    proof {
        lemma_sat_agree_below_max(cs, m, a);
        assert(formula_sat(a, f));
    }
    let mut grid: Vec<Vec<bool>> = Vec::new();
    let mut r: usize = 0;
    while r < rows
        invariant
            r <= rows,
            rows * cols == cells,
            cells < i32::MAX,
            solver.inv(),
            m == solver.model(),
            nv == solver.nvars(),
            a == (|x: int| x <= nv && m(x)),
            grid@.len() == r,
            forall|r2: int| 0 <= r2 < r ==> (#[trigger] grid@[r2])@.len() == cols,
            forall|r2: int, c: int|
                0 <= r2 < r && 0 <= c < cols ==> #[trigger] grid@[r2]@[c] == a(cell_var(cols as int, r2, c)),
        decreases rows - r,
    {
        let mut line: Vec<bool> = Vec::new();
        let mut c: usize = 0;
        while c < cols
            invariant
                r < rows,
                c <= cols,
                rows * cols == cells,
                cells < i32::MAX,
                solver.inv(),
                m == solver.model(),
                nv == solver.nvars(),
                a == (|x: int| x <= nv && m(x)),
                line@.len() == c,
                forall|c2: int| 0 <= c2 < c ==> #[trigger] line@[c2] == a(cell_var(cols as int, r as int, c2)),
            decreases cols - c,
        {
            proof {
                assert(r * cols + c + 1 <= rows * cols) by (nonlinear_arith)
                    requires r < rows, c < cols;
            }
            let v = var(cols, r, c);
            line.push(solver.get_value(v) == Some(true));
            c = c + 1;
        }
        grid.push(line);
        r = r + 1;
    }
    proof {
        let g = grid@;
        assert forall|r2: int| 0 <= r2 < rows implies runs_match(#[trigger] g[r2]@, row_clues@[r2]@) by {
            assert(line_ok(a, cols as int, true, r2, cols as int, row_clues@[r2]@));
            let p = choose|p: Seq<bool>|
                p.len() == cols && runs_match(p, row_clues@[r2]@) && #[trigger] line_matches(a, cols as int, true, r2, p);
            assert forall|k: int| 0 <= k < cols implies g[r2]@[k] == p[k] by {
                assert(a(line_cell(cols as int, true, r2, k)) == p[k]);
            }
            assert(g[r2]@ =~= p);
        }
        assert forall|c2: int| 0 <= c2 < cols implies runs_match(#[trigger] column(g, c2), col_clues@[c2]@) by {
            assert(line_ok(a, cols as int, false, c2, rows as int, col_clues@[c2]@));
            let p = choose|p: Seq<bool>|
                p.len() == rows && runs_match(p, col_clues@[c2]@) && #[trigger] line_matches(a, cols as int, false, c2, p);
            assert forall|k: int| 0 <= k < rows implies column(g, c2)[k] == p[k] by {
                assert(a(line_cell(cols as int, false, c2, k)) == p[k]);
            }
            assert(column(g, c2) =~= p);
        }
    }
    Ok(Some(grid))
}

} // verus!
