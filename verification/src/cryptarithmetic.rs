//! Cryptarithmetic puzzles such as SEND + MORE = MONEY: each letter stands
//! for a digit, different letters for different digits, no word starts with
//! a zero, and the sum of the first two words is the third.
//!
//! Every digit assignment that solves the equation is enumerated; the SAT
//! formula then asks for one letter-to-digit map that is a permutation, keeps
//! leading digits non-zero and agrees with one of the enumerated solutions.
use vstd::prelude::*;
use crate::encode::{
    lemma_formula_sat_push, no_two_true, push_at_least_one, push_at_most_one, push_implies, some_true, var_ints,
};
use crate::literal::{clause_ints, clause_sat, clauses_formula, formula_sat, lit_true, Clause, Literal};
use crate::solver::{lemma_drop_empty_id, solver_input_fits, CDCLSolver};
use crate::text::str_chars;

verus! {

/// The longest word whose value is computed (in 128 bits).
pub const MAX_WORD_LEN: usize = 30;

/// The distinct characters of `s`, in order of first appearance.
pub open spec fn letters_of(s: Seq<char>) -> Seq<char>
    decreases s.len(),
{
    if s.len() == 0 {
        Seq::empty()
    } else {
        let p = letters_of(s.drop_last());
        if p.contains(s.last()) {
            p
        } else {
            p.push(s.last())
        }
    }
}

/// The letters of a puzzle, in order of first appearance.
pub open spec fn puzzle_letters(w1: Seq<char>, w2: Seq<char>, w3: Seq<char>) -> Seq<char> {
    letters_of(w1 + w2 + w3)
}

/// The number a word spells under the letter-to-digit map `f`.
pub open spec fn word_number(w: Seq<char>, f: spec_fn(char) -> int) -> int
    decreases w.len(),
{
    if w.len() == 0 {
        0
    } else {
        word_number(w.drop_last(), f) * 10 + f(w.last())
    }
}

/// The word does not start with a zero under `f`.
pub open spec fn leading_ok(w: Seq<char>, f: spec_fn(char) -> int) -> bool {
    w.len() > 0 ==> f(w[0]) != 0
}

/// `f` solves the puzzle `w1 + w2 = w3`: each letter gets a digit, distinct
/// letters distinct digits, no word starts with zero, and the sum holds.
pub open spec fn solves(w1: Seq<char>, w2: Seq<char>, w3: Seq<char>, f: spec_fn(char) -> int) -> bool {
    let ls = puzzle_letters(w1, w2, w3);
    &&& forall|i: int| 0 <= i < ls.len() ==> 0 <= #[trigger] f(ls[i]) <= 9
    &&& forall|i: int, j: int| 0 <= i < j < ls.len() ==> #[trigger] f(ls[i]) != #[trigger] f(ls[j])
    &&& leading_ok(w1, f)
    &&& leading_ok(w2, f)
    &&& leading_ok(w3, f)
    &&& word_number(w1, f) + word_number(w2, f) == word_number(w3, f)
}

/// The map that gives letter `ls[i]` the digit `ds[i]`.
pub open spec fn digit_fn(ls: Seq<char>, ds: Seq<u8>) -> spec_fn(char) -> int {
    |c: char| ds[ls.index_of(c)] as int
}

/// The map given by a list of (letter, digit) pairs for the letters `ls`.
pub open spec fn pairs_fn(ls: Seq<char>, sol: Seq<(char, usize)>) -> spec_fn(char) -> int {
    |c: char| sol[ls.index_of(c)].1 as int
}

/// `ds` gives the letters `ls`, in order, digits that solve the puzzle.
pub open spec fn digits_solve(w1: Seq<char>, w2: Seq<char>, w3: Seq<char>, ls: Seq<char>, ds: Seq<u8>) -> bool {
    &&& ls == puzzle_letters(w1, w2, w3)
    &&& ds.len() == ls.len()
    &&& solves(w1, w2, w3, digit_fn(ls, ds))
}

/// The letters of `s` occur once each, and are exactly the characters of `s`.
pub proof fn lemma_letters_of(s: Seq<char>)
    ensures
        letters_of(s).no_duplicates(),
        forall|c: char| letters_of(s).contains(c) <==> s.contains(c),
    decreases s.len(),
{
    if s.len() > 0 {
        let t = s.drop_last();
        lemma_letters_of(t);
        assert forall|c: char| letters_of(s).contains(c) <==> s.contains(c) by {
            if s.contains(c) && c != s.last() {
                let k = choose|k: int| 0 <= k < s.len() && s[k] == c;
                assert(t[k] == c);
            }
            if t.contains(c) {
                let k = choose|k: int| 0 <= k < t.len() && t[k] == c;
                assert(s[k] == c);
            }
            if c == s.last() {
                assert(s[s.len() - 1] == c);
            }
            if letters_of(s).contains(c) && !letters_of(t).contains(c) {
                let p = letters_of(t);
                let k = choose|k: int| 0 <= k < letters_of(s).len() && letters_of(s)[k] == c;
                if k < p.len() {
                    assert(p.push(s.last())[k] == p[k]);
                }
            }
            if letters_of(t).contains(c) {
                let p = letters_of(t);
                let k = choose|k: int| 0 <= k < p.len() && p[k] == c;
                if !p.contains(s.last()) {
                    assert(p.push(s.last())[k] == c);
                }
            }
            if c == s.last() && !letters_of(t).contains(c) {
                let p = letters_of(t);
                assert(p.push(s.last())[p.len() as int] == c);
            }
        }
    }
}

/// In a sequence without duplicates, the index of an element is its position.
pub proof fn lemma_index_of_unique(ls: Seq<char>, j: int)
    requires
        ls.no_duplicates(),
        0 <= j < ls.len(),
    ensures
        ls.index_of(ls[j]) == j,
{
    let c = ls[j];
    assert(ls[j] == c);
    let i = ls.index_of(c);
    assert(0 <= i < ls.len() && ls[i] == c);
}

/// Appends the distinct characters of `s` not yet in `letters`.
fn add_letters(letters: &mut Vec<char>, s: &Vec<char>, Ghost(prefix): Ghost<Seq<char>>)
    requires
        old(letters)@ == letters_of(prefix),
    ensures
        final(letters)@ == letters_of(prefix + s@),
{
    let mut i: usize = 0;
    while i < s.len()
        invariant
            i <= s@.len(),
            letters@ == letters_of(prefix + s@.subrange(0, i as int)),
        decreases s@.len() - i,
    {
        let c = s[i];
        let ghost t = prefix + s@.subrange(0, i as int);
        let ghost t1 = prefix + s@.subrange(0, i + 1);
        proof {
            assert(t1.drop_last() =~= t);
            assert(t1.last() == c);
        }
        let mut found = false;
        let mut k: usize = 0;
        while k < letters.len()
            invariant
                k <= letters@.len(),
                found <==> exists|j: int| 0 <= j < k && letters@[j] == c,
            decreases letters@.len() - k,
        {
            if letters[k] == c {
                found = true;
            }
            k = k + 1;
        }
        if !found {
            letters.push(c);
        }
        i = i + 1;
    }
    proof {
        assert(s@.subrange(0, s@.len() as int) =~= s@);
    }
}

/// For each character of `w`, the position of that character in `ls`.
fn word_positions(w: &Vec<char>, ls: &Vec<char>) -> (r: Vec<usize>)
    requires
        ls@.no_duplicates(),
        forall|k: int| 0 <= k < w@.len() ==> ls@.contains(#[trigger] w@[k]),
    ensures
        r@.len() == w@.len(),
        forall|k: int| 0 <= k < w@.len() ==> (#[trigger] r@[k]) < ls@.len() && ls@[r@[k] as int] == w@[k]
            && ls@.index_of(w@[k]) == r@[k],
{
    let mut r: Vec<usize> = Vec::new();
    let mut i: usize = 0;
    while i < w.len()
        invariant
            i <= w@.len(),
            r@.len() == i,
            ls@.no_duplicates(),
            forall|k: int| 0 <= k < w@.len() ==> ls@.contains(#[trigger] w@[k]),
            forall|k: int| 0 <= k < i ==> (#[trigger] r@[k]) < ls@.len() && ls@[r@[k] as int] == w@[k]
                && ls@.index_of(w@[k]) == r@[k],
        decreases w@.len() - i,
    {
        let c = w[i];
        proof {
            assert(ls@.contains(w@[i as int]));
        }
        let mut j: usize = 0;
        while j < ls.len() && ls[j] != c
            invariant
                j <= ls@.len(),
                ls@.contains(c),
                forall|m: int| 0 <= m < j ==> ls@[m] != c,
            decreases ls@.len() - j,
        {
            j = j + 1;
        }
        proof {
            if j == ls@.len() {
                let m = choose|m: int| 0 <= m < ls@.len() && ls@[m] == c;
                assert(false);
            }
            lemma_index_of_unique(ls@, j as int);
        }
        r.push(j);
        i = i + 1;
    }
    r
}

/// Ten to the power `k`.
pub open spec fn pow10(k: nat) -> int
    decreases k,
{
    if k == 0 {
        1
    } else {
        10 * pow10((k - 1) as nat)
    }
}

proof fn lemma_pow10_mono(a: nat, b: nat)
    requires
        a <= b,
    ensures
        1 <= pow10(a) <= pow10(b),
    decreases b,
{
    if b > 0 {
        if a < b {
            lemma_pow10_mono(a, (b - 1) as nat);
        } else {
            lemma_pow10_mono((b - 1) as nat, (b - 1) as nat);
        }
    }
}

/// The number a word spells, read through its letter positions `pos` and
/// the digits `ds` of the letters.
fn number_of(pos: &Vec<usize>, ds: &Vec<u8>, Ghost(w): Ghost<Seq<char>>, Ghost(ls): Ghost<Seq<char>>) -> (r: u128)
    requires
        pos@.len() == w.len(),
        w.len() <= MAX_WORD_LEN,
        ds@.len() == ls.len(),
        forall|i: int| 0 <= i < ds@.len() ==> #[trigger] ds@[i] <= 9,
        forall|k: int| 0 <= k < w.len() ==> (#[trigger] pos@[k]) < ls.len() && ls.index_of(w[k]) == pos@[k],
    ensures
        r == word_number(w, digit_fn(ls, ds@)),
        r < pow10(w.len()),
{
    let ghost f = digit_fn(ls, ds@);
    let mut v: u128 = 0;
    let mut k: usize = 0;
    proof {
        reveal_with_fuel(pow10, 31);
        assert(pow10(30) == 1_000_000_000_000_000_000_000_000_000_000int);
    }
    while k < pos.len()
        invariant
            k <= pos@.len(),
            pos@.len() == w.len(),
            w.len() <= MAX_WORD_LEN,
            ds@.len() == ls.len(),
            f == digit_fn(ls, ds@),
            forall|i: int| 0 <= i < ds@.len() ==> #[trigger] ds@[i] <= 9,
            forall|m: int| 0 <= m < w.len() ==> (#[trigger] pos@[m]) < ls.len() && ls.index_of(w[m]) == pos@[m],
            v == word_number(w.subrange(0, k as int), f),
            v < pow10(k as nat),
            pow10(30) == 1_000_000_000_000_000_000_000_000_000_000int,
        decreases pos@.len() - k,
    {
        let d = ds[pos[k]];
        proof {
            let s1 = w.subrange(0, k + 1);
            assert(s1.drop_last() =~= w.subrange(0, k as int));
            assert(s1.last() == w[k as int]);
            assert(f(w[k as int]) == d as int);
            lemma_pow10_mono((k + 1) as nat, 30);
            assert(pow10((k + 1) as nat) == 10 * pow10(k as nat));
            assert(v * 10 + d < pow10((k + 1) as nat)) by (nonlinear_arith)
                requires v < pow10(k as nat), d <= 9, pow10((k + 1) as nat) == 10 * pow10(k as nat);
        }
        v = v * 10 + d as u128;
        k = k + 1;
    }
    proof {
        assert(w.subrange(0, w.len() as int) =~= w);
    }
    v
}

/// A copy of a digit vector.
fn copy_digits(ds: &Vec<u8>) -> (r: Vec<u8>)
    ensures
        r@ == ds@,
{
    let mut r: Vec<u8> = Vec::new();
    let mut i: usize = 0;
    while i < ds.len()
        invariant
            i <= ds@.len(),
            r@ == ds@.subrange(0, i as int),
        decreases ds@.len() - i,
    {
        r.push(ds[i]);
        i = i + 1;
    }
    proof {
        assert(ds@.subrange(0, ds@.len() as int) =~= ds@);
    }
    r
}

/// What the enumeration knows of one puzzle: its words, their letters, the
/// letter positions of each word and which letters lead a word.
pub open spec fn layout_ok(
    w1: Seq<char>,
    w2: Seq<char>,
    w3: Seq<char>,
    ls: Seq<char>,
    p1: Seq<usize>,
    p2: Seq<usize>,
    p3: Seq<usize>,
    lead: Seq<bool>,
) -> bool {
    &&& ls == puzzle_letters(w1, w2, w3)
    &&& ls.no_duplicates()
    &&& ls.len() <= 10
    &&& lead.len() == ls.len()
    &&& w1.len() <= MAX_WORD_LEN && w2.len() <= MAX_WORD_LEN && w3.len() <= MAX_WORD_LEN
    &&& positions_of(w1, ls, p1)
    &&& positions_of(w2, ls, p2)
    &&& positions_of(w3, ls, p3)
    &&& (w1.len() > 0 ==> lead[p1[0] as int])
    &&& (w2.len() > 0 ==> lead[p2[0] as int])
    &&& (w3.len() > 0 ==> lead[p3[0] as int])
    &&& forall|i: int| 0 <= i < lead.len() && #[trigger] lead[i] ==> (w1.len() > 0 && p1[0] == i) || (w2.len() > 0
        && p2[0] == i) || (w3.len() > 0 && p3[0] == i)
}

/// `e` is one of `vs[lo..]`.
pub open spec fn digits_listed(vs: Seq<Vec<u8>>, lo: int, e: Seq<u8>) -> bool {
    exists|j: int| lo <= j < vs.len() && #[trigger] vs[j]@ == e
}

/// A solution's digits are digits, pairwise distinct, and non-zero on
/// leading letters.
proof fn lemma_solution_digits(
    w1: Seq<char>,
    w2: Seq<char>,
    w3: Seq<char>,
    ls: Seq<char>,
    p1: Seq<usize>,
    p2: Seq<usize>,
    p3: Seq<usize>,
    lead: Seq<bool>,
    e: Seq<u8>,
)
    requires
        layout_ok(w1, w2, w3, ls, p1, p2, p3, lead),
        digits_solve(w1, w2, w3, ls, e),
    ensures
        forall|i: int| 0 <= i < e.len() ==> #[trigger] e[i] <= 9,
        forall|i: int, j: int| 0 <= i < j < e.len() ==> #[trigger] e[i] != #[trigger] e[j],
        forall|i: int| 0 <= i < e.len() && #[trigger] lead[i] ==> e[i] != 0,
{
    let f = digit_fn(ls, e);
    assert forall|i: int| 0 <= i < ls.len() implies #[trigger] f(ls[i]) == e[i] as int by {
        lemma_index_of_unique(ls, i);
    }
    assert forall|i: int| 0 <= i < e.len() implies #[trigger] e[i] <= 9 by {
        assert(f(ls[i]) == e[i] as int);
    }
    assert forall|i: int, j: int| 0 <= i < j < e.len() implies #[trigger] e[i] != #[trigger] e[j] by {
        assert(f(ls[i]) == e[i] as int);
        assert(f(ls[j]) == e[j] as int);
    }
    assert forall|i: int| 0 <= i < e.len() && #[trigger] lead[i] implies e[i] != 0 by {
        if w1.len() > 0 && p1[0] == i {
            assert(f(w1[0]) == e[i] as int);
        } else if w2.len() > 0 && p2[0] == i {
            assert(f(w2[0]) == e[i] as int);
        } else {
            assert(f(w3[0]) == e[i] as int);
        }
    }
}

/// `p` holds, for each character of `w`, its position in `ls`.
pub open spec fn positions_of(w: Seq<char>, ls: Seq<char>, p: Seq<usize>) -> bool {
    &&& p.len() == w.len()
    &&& forall|k: int| 0 <= k < w.len() ==> (#[trigger] p[k]) < ls.len() && ls[p[k] as int] == w[k]
        && ls.index_of(w[k]) == p[k]
}

/// The first `pos` digits are digits, pairwise distinct, and non-zero for
/// leading letters; `used` marks exactly the digits among them.
pub open spec fn prefix_ok(ds: Seq<u8>, pos: int, lead: Seq<bool>, used: Seq<bool>) -> bool {
    &&& used.len() == 10
    &&& forall|i: int| 0 <= i < pos ==> #[trigger] ds[i] <= 9
    &&& forall|i: int, j: int| 0 <= i < j < pos ==> #[trigger] ds[i] != #[trigger] ds[j]
    &&& forall|i: int| 0 <= i < pos && #[trigger] lead[i] ==> ds[i] != 0
    &&& forall|d: int| 0 <= d < 10 ==> (#[trigger] used[d] <==> exists|i: int| 0 <= i < pos && ds[i] == d)
}

/// A complete assignment that passes the checks of the enumeration solves
/// the puzzle.
proof fn lemma_leaf_solves(
    w1: Seq<char>,
    w2: Seq<char>,
    w3: Seq<char>,
    ls: Seq<char>,
    p1: Seq<usize>,
    p2: Seq<usize>,
    p3: Seq<usize>,
    lead: Seq<bool>,
    ds: Seq<u8>,
    used: Seq<bool>,
)
    requires
        layout_ok(w1, w2, w3, ls, p1, p2, p3, lead),
        ds.len() == ls.len(),
        prefix_ok(ds, ls.len() as int, lead, used),
        word_number(w1, digit_fn(ls, ds)) + word_number(w2, digit_fn(ls, ds)) == word_number(
            w3,
            digit_fn(ls, ds),
        ),
    ensures
        digits_solve(w1, w2, w3, ls, ds),
{
    let f = digit_fn(ls, ds);
    assert forall|i: int| 0 <= i < ls.len() implies #[trigger] f(ls[i]) == ds[i] as int by {
        lemma_index_of_unique(ls, i);
    }
    assert forall|i: int, j: int| 0 <= i < j < ls.len() implies #[trigger] f(ls[i]) != #[trigger] f(ls[j]) by {
        assert(f(ls[i]) == ds[i] as int);
        assert(f(ls[j]) == ds[j] as int);
    }
    if w1.len() > 0 {
        assert(p1[0] < ls.len());
        assert(f(w1[0]) == ds[p1[0] as int] as int);
    }
    if w2.len() > 0 {
        assert(p2[0] < ls.len());
        assert(f(w2[0]) == ds[p2[0] as int] as int);
    }
    if w3.len() > 0 {
        assert(p3[0] < ls.len());
        assert(f(w3[0]) == ds[p3[0] as int] as int);
    }
}

/// Appends, in lexicographic order, every completion of the first `pos`
/// digits that solves the puzzle.
fn permute_digits(
    pos: usize,
    lead: &Vec<bool>,
    p1: &Vec<usize>,
    p2: &Vec<usize>,
    p3: &Vec<usize>,
    ds: &mut Vec<u8>,
    used: &mut Vec<bool>,
    valid: &mut Vec<Vec<u8>>,
    Ghost(w1): Ghost<Seq<char>>,
    Ghost(w2): Ghost<Seq<char>>,
    Ghost(w3): Ghost<Seq<char>>,
    Ghost(ls): Ghost<Seq<char>>,
)
    requires
        layout_ok(w1, w2, w3, ls, p1@, p2@, p3@, lead@),
        old(ds)@.len() == ls.len(),
        pos <= ls.len(),
        prefix_ok(old(ds)@, pos as int, lead@, old(used)@),
        forall|k: int| 0 <= k < old(valid)@.len() ==> digits_solve(w1, w2, w3, ls, #[trigger] old(valid)@[k]@),
    ensures
        final(ds)@.len() == ls.len(),
        final(ds)@.subrange(0, pos as int) == old(ds)@.subrange(0, pos as int),
        final(used)@ == old(used)@,
        forall|k: int| 0 <= k < final(valid)@.len() ==> digits_solve(w1, w2, w3, ls, #[trigger] final(valid)@[k]@),
        final(valid)@.len() >= old(valid)@.len(),
        forall|k: int| 0 <= k < old(valid)@.len() ==> #[trigger] final(valid)@[k] == old(valid)@[k],
        forall|e: Seq<u8>|
            e.len() == ls.len() && e.subrange(0, pos as int) == old(ds)@.subrange(0, pos as int) && #[trigger] digits_solve(
                w1,
                w2,
                w3,
                ls,
                e,
            ) ==> digits_listed(final(valid)@, old(valid)@.len() as int, e),
    decreases ls.len() - pos,
{
    let n = lead.len();
    if pos == n {
        proof {
            assert(ds@.subrange(0, pos as int) =~= ds@);
        }
        let v1 = number_of(p1, ds, Ghost(w1), Ghost(ls));
        let v2 = number_of(p2, ds, Ghost(w2), Ghost(ls));
        let v3 = number_of(p3, ds, Ghost(w3), Ghost(ls));
        proof {
            lemma_pow10_mono(w1.len(), 30);
            lemma_pow10_mono(w2.len(), 30);
            reveal_with_fuel(pow10, 31);
        }
        if v1 + v2 == v3 {
            proof {
                lemma_leaf_solves(w1, w2, w3, ls, p1@, p2@, p3@, lead@, ds@, used@);
            }
            let copy = copy_digits(ds);
            valid.push(copy);
            proof {
                assert(valid@[valid@.len() - 1]@ == ds@);
            }
        }
        proof {
            assert forall|e: Seq<u8>|
                e.len() == ls.len() && e.subrange(0, pos as int) == old(ds)@.subrange(0, pos as int) && #[trigger] digits_solve(
                    w1,
                    w2,
                    w3,
                    ls,
                    e,
                ) implies digits_listed(valid@, old(valid)@.len() as int, e) by {
                assert(e =~= ds@);
                assert(valid@[valid@.len() - 1]@ == e);
            }
        }
        return;
    }
    let start: u8 = if lead[pos] { 1 } else { 0 };
    let mut d: u8 = start;
    let ghost ds0 = ds@;
    let ghost used0 = used@;
    while d < 10
        invariant
            layout_ok(w1, w2, w3, ls, p1@, p2@, p3@, lead@),
            n == ls.len(),
            pos < n,
            ds@.len() == ls.len(),
            ds0.len() == ls.len(),
            ds@.subrange(0, pos as int) == ds0.subrange(0, pos as int),
            used@ == used0,
            prefix_ok(ds0, pos as int, lead@, used0),
            lead@[pos as int] ==> start == 1,
            start <= d <= 10,
            forall|k: int| 0 <= k < valid@.len() ==> digits_solve(w1, w2, w3, ls, #[trigger] valid@[k]@),
            valid@.len() >= old(valid)@.len(),
            forall|k: int| 0 <= k < old(valid)@.len() ==> #[trigger] valid@[k] == old(valid)@[k],
            ds0 == old(ds)@,
            forall|e: Seq<u8>|
                e.len() == ls.len() && e.subrange(0, pos as int) == ds0.subrange(0, pos as int) && e[pos as int] < d
                    && #[trigger] digits_solve(w1, w2, w3, ls, e) ==> digits_listed(valid@, old(valid)@.len() as int, e),
        decreases 10 - d,
    {
        let ghost vpre = valid@;
        if !used[d as usize] {
            let ghost before = ds@;
            used.set(d as usize, true);
            ds.set(pos, d);
            proof {
                let s = ds@;
                assert forall|i: int| 0 <= i < pos implies s[i] == ds0[i] by {
                    assert(before.subrange(0, pos as int)[i] == ds0.subrange(0, pos as int)[i]);
                    assert(s[i] == before[i]);
                }
                assert forall|e: int| 0 <= e < 10 implies (#[trigger] used@[e] <==> exists|i: int|
                    0 <= i < pos + 1 && s[i] == e) by {
                    if used@[e] && e != d {
                        assert(used0[e]);
                        let i = choose|i: int| 0 <= i < pos && ds0[i] == e;
                        assert(s[i] == e);
                    }
                    if e == d {
                        assert(s[pos as int] == e);
                    }
                    if exists|i: int| 0 <= i < pos + 1 && s[i] == e {
                        let i = choose|i: int| 0 <= i < pos + 1 && s[i] == e;
                        if i < pos {
                            assert(ds0[i] == e);
                            assert(used0[e]);
                        }
                    }
                }
                assert forall|i: int, j: int| 0 <= i < j < pos + 1 implies #[trigger] s[i] != #[trigger] s[j] by {
                    if j == pos {
                        if s[i] == s[j] {
                            assert(ds0[i] == d);
                            assert(used0[d as int]);
                        }
                    } else {
                        assert(ds0[i] != ds0[j]);
                    }
                }
                assert(prefix_ok(s, pos + 1, lead@, used@));
            }
            let ghost mid = ds@;
            permute_digits(pos + 1, lead, p1, p2, p3, ds, used, valid, Ghost(w1), Ghost(w2), Ghost(w3), Ghost(ls));
            proof {
                assert forall|e: Seq<u8>|
                    e.len() == ls.len() && e.subrange(0, pos as int) == ds0.subrange(0, pos as int) && e[pos as int] < d + 1
                        && #[trigger] digits_solve(w1, w2, w3, ls, e) implies digits_listed(
                    valid@,
                    old(valid)@.len() as int,
                    e,
                ) by {
                    if e[pos as int] < d {
                        let j = choose|j: int| old(valid)@.len() <= j < vpre.len() && #[trigger] vpre[j]@ == e;
                        assert(valid@[j] == vpre[j]);
                    } else {
                        assert(e.subrange(0, pos + 1) =~= mid.subrange(0, pos + 1)) by {
                            assert forall|i: int| 0 <= i < pos + 1 implies #[trigger] e.subrange(0, pos + 1)[i] == mid.subrange(0, pos + 1)[i] by {
                                if i < pos {
                                    assert(e.subrange(0, pos as int)[i] == ds0.subrange(0, pos as int)[i]);
                                }
                            }
                        }
                    }
                }
            }
            used.set(d as usize, false);
            proof {
                assert(used@ =~= used0);
                assert(ds@.subrange(0, pos as int) =~= ds0.subrange(0, pos as int)) by {
                    assert forall|i: int| 0 <= i < pos implies ds@[i] == ds0[i] by {
                        assert(ds@.subrange(0, pos + 1)[i] == ds@[i]);
                    }
                }
            }
        } else {
            proof {
                assert forall|e: Seq<u8>|
                    e.len() == ls.len() && e.subrange(0, pos as int) == ds0.subrange(0, pos as int) && e[pos as int] < d + 1
                        && #[trigger] digits_solve(w1, w2, w3, ls, e) implies digits_listed(
                    valid@,
                    old(valid)@.len() as int,
                    e,
                ) by {
                    if e[pos as int] == d {
                        let i = choose|i: int| 0 <= i < pos && #[trigger] ds0[i] == d;
                        assert(e.subrange(0, pos as int)[i] == ds0.subrange(0, pos as int)[i]);
                        lemma_solution_digits(w1, w2, w3, ls, p1@, p2@, p3@, lead@, e);
                        assert(e[i] != e[pos as int]);
                    }
                }
            }
        }
        d = d + 1;
    }
    proof {
        assert forall|e: Seq<u8>|
            e.len() == ls.len() && e.subrange(0, pos as int) == old(ds)@.subrange(0, pos as int) && #[trigger] digits_solve(
                w1,
                w2,
                w3,
                ls,
                e,
            ) implies digits_listed(valid@, old(valid)@.len() as int, e) by {
            lemma_solution_digits(w1, w2, w3, ls, p1@, p2@, p3@, lead@, e);
            if e[pos as int] < start {
                assert(lead@[pos as int]);
            }
        }
    }
}

/// The variable "letter `l` has digit `d`".
pub open spec fn cvar(l: int, d: int) -> int {
    l * 10 + d + 1
}

/// The ten digit variables of letter `l`.
pub open spec fn letter_vars(l: int) -> Seq<int> {
    Seq::new(10, |d: int| cvar(l, d))
}

/// The variables "letter `l` has digit `d`" of the `n` letters.
pub open spec fn digit_vars(n: int, d: int) -> Seq<int> {
    Seq::new(n as nat, |l: int| cvar(l, d))
}

/// The selector variable of the `i`-th enumerated solution.
pub open spec fn aux_var(n: int, i: int) -> int {
    n * 10 + 1 + i
}

/// The selector variables of `count` enumerated solutions.
pub open spec fn aux_vars(n: int, count: int) -> Seq<int> {
    Seq::new(count as nat, |i: int| aux_var(n, i))
}

/// Each of the first `k` letters has exactly one digit.
pub open spec fn letters_part(a: spec_fn(int) -> bool, k: int) -> bool {
    forall|l: int| 0 <= l < k ==> some_true(a, #[trigger] letter_vars(l)) && no_two_true(a, letter_vars(l))
}

/// Each of the first `k` digits belongs to at most one of the `n` letters.
pub open spec fn digits_part(a: spec_fn(int) -> bool, n: int, k: int) -> bool {
    forall|d: int| 0 <= d < k ==> no_two_true(a, #[trigger] digit_vars(n, d))
}

/// The first `k` leading letters do not have digit zero.
pub open spec fn leads_part(a: spec_fn(int) -> bool, leads: Seq<usize>, k: int) -> bool {
    forall|m: int| 0 <= m < k ==> !a(cvar(#[trigger] leads[m] as int, 0))
}

/// The selectors considered so far (solutions before `i`, and the first `l`
/// letters of solution `i`) each imply their solution's digits.
pub open spec fn selects_part(a: spec_fn(int) -> bool, n: int, sols: Seq<Seq<u8>>, i: int, l: int) -> bool {
    forall|i2: int, l2: int|
        0 <= i2 < sols.len() && 0 <= l2 < n && (i2 < i || (i2 == i && l2 < l)) ==> (a(
            #[trigger] aux_var(n, i2),
        ) ==> a(cvar(l2, #[trigger] sols[i2][l2] as int)))
}

/// What the puzzle's formula says of an assignment `a` of its variables:
/// each letter has one digit, no digit is used twice, leading letters are
/// not zero, and some enumerated solution is selected, fixing the digits.
pub open spec fn puzzle_encoding(a: spec_fn(int) -> bool, n: int, leads: Seq<usize>, sols: Seq<Seq<u8>>) -> bool {
    &&& letters_part(a, n)
    &&& digits_part(a, n, 10)
    &&& leads_part(a, leads, leads.len() as int)
    &&& some_true(a, aux_vars(n, sols.len() as int))
    &&& selects_part(a, n, sols, sols.len() as int, 0)
}

/// Appends the unit clause `¬x`.
fn push_not(clauses: &mut Vec<Clause>, x: i32)
    requires
        x > 0,
    ensures
        forall|a: spec_fn(int) -> bool|
            #[trigger] formula_sat(a, clauses_formula(final(clauses)@)) <==> formula_sat(
                a,
                clauses_formula(old(clauses)@),
            ) && !a(x as int),
{
    let c = Clause::new(vec![Literal::negative(x)]);
    let ghost cs0 = clauses@;
    clauses.push(c);
    proof {
        assert(clauses_formula(clauses@) =~= clauses_formula(cs0).push(clause_ints(c)));
        let ci = clause_ints(c);
        assert(ci =~= seq![-(x as int)]);
        assert forall|a: spec_fn(int) -> bool| #[trigger]
            formula_sat(a, clauses_formula(clauses@)) <==> formula_sat(a, clauses_formula(cs0)) && !a(x as int) by {
            lemma_formula_sat_push(a, clauses_formula(cs0), ci);
            if clause_sat(a, ci) {
                let k = choose|k: int| 0 <= k < ci.len() && #[trigger] lit_true(a, ci[k]);
            }
            if !a(x as int) {
                assert(lit_true(a, ci[0]));
            }
        }
    }
}

/// Appends "each of the `n` letters has exactly one digit".
fn push_letter_clauses(clauses: &mut Vec<Clause>, n: usize)
    requires
        n <= 10,
    ensures
        forall|a: spec_fn(int) -> bool|
            #[trigger] formula_sat(a, clauses_formula(final(clauses)@)) <==> formula_sat(
                a,
                clauses_formula(old(clauses)@),
            ) && letters_part(a, n as int),
{
    let ghost cs0 = clauses@;
    let mut l: usize = 0;
    while l < n
        invariant
            n <= 10,
            l <= n,
            forall|a: spec_fn(int) -> bool|
                #[trigger] formula_sat(a, clauses_formula(clauses@)) <==> formula_sat(a, clauses_formula(cs0))
                    && letters_part(a, l as int),
        decreases n - l,
    {
        let mut vars: Vec<i32> = Vec::new();
        let mut d: usize = 0;
        while d < 10
            invariant
                l < n <= 10,
                d <= 10,
                vars@.len() == d,
                forall|k: int| 0 <= k < d ==> #[trigger] vars@[k] == cvar(l as int, k),
            decreases 10 - d,
        {
            vars.push((l * 10 + d + 1) as i32);
            d = d + 1;
        }
        proof {
            assert(var_ints(vars@) =~= letter_vars(l as int));
        }
        let ghost c1 = clauses@;
        push_at_least_one(clauses, &vars, Ghost(100));
        let ghost c2 = clauses@;
        push_at_most_one(clauses, &vars, Ghost(100));
        proof {
            assert forall|a: spec_fn(int) -> bool| #[trigger]
                formula_sat(a, clauses_formula(clauses@)) <==> formula_sat(a, clauses_formula(cs0))
                    && letters_part(a, l + 1) by {
                assert(formula_sat(a, clauses_formula(c2)) <==> formula_sat(a, clauses_formula(c1))
                    && some_true(a, var_ints(vars@)));
                assert(formula_sat(a, clauses_formula(c1)) <==> formula_sat(a, clauses_formula(cs0))
                    && letters_part(a, l as int));
                if letters_part(a, l as int) && some_true(a, letter_vars(l as int)) && no_two_true(a, letter_vars(l as int)) {
                    assert forall|l2: int| 0 <= l2 < l + 1 implies some_true(a, #[trigger] letter_vars(l2))
                        && no_two_true(a, letter_vars(l2)) by {
                        if l2 < l {
                            assert(some_true(a, letter_vars(l2)) && no_two_true(a, letter_vars(l2)));
                        }
                    }
                }
                if letters_part(a, l + 1) {
                    assert(some_true(a, letter_vars(l as int)) && no_two_true(a, letter_vars(l as int)));
                }
            }
        }
        l = l + 1;
    }
}

/// Appends "no digit belongs to two of the `n` letters".
fn push_digit_clauses(clauses: &mut Vec<Clause>, n: usize)
    requires
        n <= 10,
    ensures
        forall|a: spec_fn(int) -> bool|
            #[trigger] formula_sat(a, clauses_formula(final(clauses)@)) <==> formula_sat(
                a,
                clauses_formula(old(clauses)@),
            ) && digits_part(a, n as int, 10),
{
    let ghost cs0 = clauses@;
    let mut d: usize = 0;
    while d < 10
        invariant
            n <= 10,
            d <= 10,
            forall|a: spec_fn(int) -> bool|
                #[trigger] formula_sat(a, clauses_formula(clauses@)) <==> formula_sat(a, clauses_formula(cs0))
                    && digits_part(a, n as int, d as int),
        decreases 10 - d,
    {
        let mut vars: Vec<i32> = Vec::new();
        let mut l: usize = 0;
        while l < n
            invariant
                n <= 10,
                d < 10,
                l <= n,
                vars@.len() == l,
                forall|k: int| 0 <= k < l ==> #[trigger] vars@[k] == cvar(k, d as int),
            decreases n - l,
        {
            vars.push((l * 10 + d + 1) as i32);
            l = l + 1;
        }
        proof {
            assert(var_ints(vars@) =~= digit_vars(n as int, d as int));
        }
        let ghost c1 = clauses@;
        push_at_most_one(clauses, &vars, Ghost(100));
        proof {
            assert forall|a: spec_fn(int) -> bool| #[trigger]
                formula_sat(a, clauses_formula(clauses@)) <==> formula_sat(a, clauses_formula(cs0))
                    && digits_part(a, n as int, d + 1) by {
                assert(formula_sat(a, clauses_formula(c1)) <==> formula_sat(a, clauses_formula(cs0))
                    && digits_part(a, n as int, d as int));
                if digits_part(a, n as int, d + 1) {
                    assert(no_two_true(a, digit_vars(n as int, d as int)));
                }
            }
        }
        d = d + 1;
    }
}

/// Appends "the leading letters `leads` do not have digit zero".
fn push_lead_clauses(clauses: &mut Vec<Clause>, leads: &Vec<usize>)
    requires
        forall|m: int| 0 <= m < leads@.len() ==> #[trigger] leads@[m] < 10,
    ensures
        forall|a: spec_fn(int) -> bool|
            #[trigger] formula_sat(a, clauses_formula(final(clauses)@)) <==> formula_sat(
                a,
                clauses_formula(old(clauses)@),
            ) && leads_part(a, leads@, leads@.len() as int),
{
    let ghost cs0 = clauses@;
    let mut m: usize = 0;
    while m < leads.len()
        invariant
            m <= leads@.len(),
            forall|j: int| 0 <= j < leads@.len() ==> #[trigger] leads@[j] < 10,
            forall|a: spec_fn(int) -> bool|
                #[trigger] formula_sat(a, clauses_formula(clauses@)) <==> formula_sat(a, clauses_formula(cs0))
                    && leads_part(a, leads@, m as int),
        decreases leads@.len() - m,
    {
        let l = leads[m];
        proof {
            assert(leads@[m as int] < 10);
        }
        let ghost c1 = clauses@;
        push_not(clauses, (l * 10 + 1) as i32);
        proof {
            assert forall|a: spec_fn(int) -> bool| #[trigger]
                formula_sat(a, clauses_formula(clauses@)) <==> formula_sat(a, clauses_formula(cs0))
                    && leads_part(a, leads@, m + 1) by {
                assert(formula_sat(a, clauses_formula(c1)) <==> formula_sat(a, clauses_formula(cs0))
                    && leads_part(a, leads@, m as int));
                assert(cvar(leads@[m as int] as int, 0) == l * 10 + 1);
            }
        }
        m = m + 1;
    }
}

/// Appends "some enumerated solution is selected, and a selected solution
/// fixes the digits of all `n` letters".
fn push_select_clauses(clauses: &mut Vec<Clause>, n: usize, sols: &Vec<Vec<u8>>)
    requires
        n <= 10,
        sols@.len() < 0x3000_0000,
        forall|i: int| 0 <= i < sols@.len() ==> (#[trigger] sols@[i])@.len() == n && forall|l: int|
            0 <= l < n ==> sols@[i]@[l] <= 9,
    ensures
        forall|a: spec_fn(int) -> bool|
            #[trigger] formula_sat(a, clauses_formula(final(clauses)@)) <==> formula_sat(
                a,
                clauses_formula(old(clauses)@),
            ) && some_true(a, aux_vars(n as int, sols@.len() as int)) && selects_part(
                a,
                n as int,
                sols@.map_values(|v: Vec<u8>| v@),
                sols@.len() as int,
                0,
            ),
{
    let ghost cs0 = clauses@;
    let ghost vs = sols@.map_values(|v: Vec<u8>| v@);
    let base: usize = n * 10 + 1;
    let mut auxv: Vec<i32> = Vec::new();
    let mut i: usize = 0;
    while i < sols.len()
        invariant
            n <= 10,
            base == n * 10 + 1,
            sols@.len() < 0x3000_0000,
            i <= sols@.len(),
            auxv@.len() == i,
            forall|k: int| 0 <= k < i ==> #[trigger] auxv@[k] == aux_var(n as int, k),
        decreases sols@.len() - i,
    {
        auxv.push((base + i) as i32);
        i = i + 1;
    }
    proof {
        assert(var_ints(auxv@) =~= aux_vars(n as int, sols@.len() as int));
    }
    push_at_least_one(clauses, &auxv, Ghost(0x7fff_ffff));
    let ghost c1 = clauses@;
    let mut i: usize = 0;
    while i < sols.len()
        invariant
            n <= 10,
            base == n * 10 + 1,
            sols@.len() < 0x3000_0000,
            vs == sols@.map_values(|v: Vec<u8>| v@),
            i <= sols@.len(),
            forall|i2: int| 0 <= i2 < sols@.len() ==> (#[trigger] sols@[i2])@.len() == n && forall|l: int|
                0 <= l < n ==> sols@[i2]@[l] <= 9,
            forall|a: spec_fn(int) -> bool|
                #[trigger] formula_sat(a, clauses_formula(clauses@)) <==> formula_sat(a, clauses_formula(c1))
                    && selects_part(a, n as int, vs, i as int, 0),
        decreases sols@.len() - i,
    {
        let row = &sols[i];
        let mut l: usize = 0;
        proof {
            assert(row@.len() == n);
        }
        while l < n
            invariant
                n <= 10,
                base == n * 10 + 1,
                sols@.len() < 0x3000_0000,
                vs == sols@.map_values(|v: Vec<u8>| v@),
                i < sols@.len(),
                row@ == sols@[i as int]@,
                row@.len() == n,
                l <= n,
                forall|i2: int| 0 <= i2 < sols@.len() ==> (#[trigger] sols@[i2])@.len() == n && forall|l2: int|
                    0 <= l2 < n ==> sols@[i2]@[l2] <= 9,
                forall|a: spec_fn(int) -> bool|
                    #[trigger] formula_sat(a, clauses_formula(clauses@)) <==> formula_sat(a, clauses_formula(c1))
                        && selects_part(a, n as int, vs, i as int, l as int),
            decreases n - l,
        {
            let dg = row[l];
            proof {
                assert(row@[l as int] <= 9);
            }
            let ghost c2 = clauses@;
            push_implies(clauses, (base + i) as i32, (l * 10 + dg as usize + 1) as i32);
            proof {
                assert forall|a: spec_fn(int) -> bool| #[trigger]
                    formula_sat(a, clauses_formula(clauses@)) <==> formula_sat(a, clauses_formula(c1))
                        && selects_part(a, n as int, vs, i as int, l + 1) by {
                    assert(formula_sat(a, clauses_formula(c2)) <==> formula_sat(a, clauses_formula(c1))
                        && selects_part(a, n as int, vs, i as int, l as int));
                    assert(vs[i as int][l as int] == dg);
                    assert(aux_var(n as int, i as int) == base + i);
                    assert(cvar(l as int, vs[i as int][l as int] as int) == l * 10 + dg + 1);
                    if selects_part(a, n as int, vs, i as int, l + 1) {
                        assert(a(aux_var(n as int, i as int)) ==> a(cvar(l as int, vs[i as int][l as int] as int)));
                    }
                }
            }
            l = l + 1;
        }
        proof {
            assert forall|a: spec_fn(int) -> bool|
                selects_part(a, n as int, vs, i as int, n as int) == selects_part(a, n as int, vs, i + 1, 0) by {}
        }
        i = i + 1;
    }
}

/// The clauses of a puzzle with `n` letters, leading letters `leads` and
/// enumerated solutions `sols`.
fn puzzle_clauses(n: usize, leads: &Vec<usize>, sols: &Vec<Vec<u8>>) -> (r: Vec<Clause>)
    requires
        n <= 10,
        sols@.len() < 0x3000_0000,
        forall|m: int| 0 <= m < leads@.len() ==> #[trigger] leads@[m] < 10,
        forall|i: int| 0 <= i < sols@.len() ==> (#[trigger] sols@[i])@.len() == n && forall|l: int|
            0 <= l < n ==> sols@[i]@[l] <= 9,
    ensures
        forall|a: spec_fn(int) -> bool| #[trigger]
            formula_sat(a, clauses_formula(r@)) <==> puzzle_encoding(
                a,
                n as int,
                leads@,
                sols@.map_values(|v: Vec<u8>| v@),
            ),
{
    let mut cs: Vec<Clause> = Vec::new();
    let ghost c0 = cs@;
    push_letter_clauses(&mut cs, n);
    let ghost c1 = cs@;
    push_digit_clauses(&mut cs, n);
    let ghost c2 = cs@;
    push_lead_clauses(&mut cs, leads);
    let ghost c3 = cs@;
    push_select_clauses(&mut cs, n, sols);
    proof {
        assert forall|a: spec_fn(int) -> bool| #[trigger]
            formula_sat(a, clauses_formula(cs@)) <==> puzzle_encoding(
                a,
                n as int,
                leads@,
                sols@.map_values(|v: Vec<u8>| v@),
            ) by {
            assert(formula_sat(a, clauses_formula(c0)));
            assert(formula_sat(a, clauses_formula(c1)) <==> letters_part(a, n as int));
            assert(formula_sat(a, clauses_formula(c2)) <==> formula_sat(a, clauses_formula(c1)) && digits_part(a, n as int, 10));
            assert(formula_sat(a, clauses_formula(c3)) <==> formula_sat(a, clauses_formula(c2)) && leads_part(a, leads@, leads@.len() as int));
        }
    }
    cs
}

/// Two maps that agree on the letters of `w` give it the same number.
proof fn lemma_word_number_agree(w: Seq<char>, f: spec_fn(char) -> int, g: spec_fn(char) -> int)
    requires
        forall|k: int| 0 <= k < w.len() ==> f(#[trigger] w[k]) == g(w[k]),
    ensures
        word_number(w, f) == word_number(w, g),
    decreases w.len(),
{
    if w.len() > 0 {
        let t = w.drop_last();
        assert forall|k: int| 0 <= k < t.len() implies f(#[trigger] t[k]) == g(t[k]) by {
            assert(t[k] == w[k]);
        }
        lemma_word_number_agree(t, f, g);
        assert(f(w[w.len() - 1]) == g(w[w.len() - 1]));
    }
}

/// Whether a map solves a puzzle depends only on the digits of its letters.
proof fn lemma_solves_agree(w1: Seq<char>, w2: Seq<char>, w3: Seq<char>, f: spec_fn(char) -> int, g: spec_fn(char) -> int)
    requires
        solves(w1, w2, w3, f),
        forall|j: int| 0 <= j < puzzle_letters(w1, w2, w3).len() ==> f(#[trigger] puzzle_letters(w1, w2, w3)[j]) == g(
            puzzle_letters(w1, w2, w3)[j],
        ),
    ensures
        solves(w1, w2, w3, g),
{
    let ls = puzzle_letters(w1, w2, w3);
    let all = w1 + w2 + w3;
    lemma_letters_of(all);
    assert forall|k: int| 0 <= k < all.len() implies f(#[trigger] all[k]) == g(all[k]) by {
        let c = all[k];
        assert(all.contains(c));
        assert(ls.contains(c));
        let j = choose|j: int| 0 <= j < ls.len() && ls[j] == c;
        assert(f(ls[j]) == g(ls[j]));
    }
    assert forall|k: int| 0 <= k < w1.len() implies f(#[trigger] w1[k]) == g(w1[k]) by {
        assert(all[k] == w1[k]);
    }
    assert forall|k: int| 0 <= k < w2.len() implies f(#[trigger] w2[k]) == g(w2[k]) by {
        assert(all[w1.len() + k] == w2[k]);
    }
    assert forall|k: int| 0 <= k < w3.len() implies f(#[trigger] w3[k]) == g(w3[k]) by {
        assert(all[w1.len() + w2.len() + k] == w3[k]);
    }
    lemma_word_number_agree(w1, f, g);
    lemma_word_number_agree(w2, f, g);
    lemma_word_number_agree(w3, f, g);
    assert forall|i: int| 0 <= i < ls.len() implies 0 <= #[trigger] g(ls[i]) <= 9 by {
        assert(f(ls[i]) == g(ls[i]));
    }
    assert forall|i: int, j: int| 0 <= i < j < ls.len() implies #[trigger] g(ls[i]) != #[trigger] g(ls[j]) by {
        assert(f(ls[i]) == g(ls[i]));
        assert(f(ls[j]) == g(ls[j]));
    }
    if w1.len() > 0 {
        assert(f(w1[0]) == g(w1[0]));
    }
    if w2.len() > 0 {
        assert(f(w2[0]) == g(w2[0]));
    }
    if w3.len() > 0 {
        assert(f(w3[0]) == g(w3[0]));
    }
}

/// The letters `ls` paired, in order, with the digits `ds` that solve the
/// puzzle.
fn pair_letters(letters: &Vec<char>, ds: &Vec<u8>, Ghost(w1): Ghost<Seq<char>>, Ghost(w2): Ghost<Seq<char>>, Ghost(w3): Ghost<Seq<char>>) -> (sol: Vec<(char, usize)>)
    requires
        digits_solve(w1, w2, w3, letters@, ds@),
    ensures
        sol@.len() == letters@.len(),
        forall|i: int| 0 <= i < letters@.len() ==> (#[trigger] sol@[i]).0 == letters@[i],
        solves(w1, w2, w3, pairs_fn(letters@, sol@)),
{
    let ghost ls = letters@;
    let mut sol: Vec<(char, usize)> = Vec::new();
    let mut l: usize = 0;
    while l < letters.len()
        invariant
            ls == letters@,
            ds@.len() == ls.len(),
            l <= ls.len(),
            sol@.len() == l,
            forall|j: int| 0 <= j < l ==> (#[trigger] sol@[j]).0 == ls[j] && sol@[j].1 == ds@[j] as usize,
        decreases ls.len() - l,
    {
        sol.push((letters[l], ds[l] as usize));
        l = l + 1;
    }
    proof {
        lemma_letters_of(w1 + w2 + w3);
        let f0 = digit_fn(ls, ds@);
        let g = pairs_fn(ls, sol@);
        assert forall|j: int| 0 <= j < ls.len() implies f0(#[trigger] ls[j]) == g(ls[j]) by {
            lemma_index_of_unique(ls, j);
        }
        lemma_solves_agree(w1, w2, w3, f0, g);
    }
    sol
}

/// Solves `word1 + word2 = result`: returns each letter, in order of first
/// appearance, with its digit.  `None` when there are more than ten letters,
/// when no assignment solves the puzzle, or when the search does not finish.
pub fn solve_cryptarithmetic(word1: &str, word2: &str, result: &str) -> (r: Option<Vec<(char, usize)>>)
    requires
        word1@.len() <= MAX_WORD_LEN,
        word2@.len() <= MAX_WORD_LEN,
        result@.len() <= MAX_WORD_LEN,
    ensures
        puzzle_letters(word1@, word2@, result@).len() > 10 ==> r is None,
        puzzle_letters(word1@, word2@, result@).len() <= 10 && (exists|f: spec_fn(char) -> int| #[trigger] solves(
            word1@,
            word2@,
            result@,
            f,
        )) ==> r is Some,
        r matches Some(sol) ==> {
            let ls = puzzle_letters(word1@, word2@, result@);
            &&& sol@.len() == ls.len()
            &&& forall|i: int| 0 <= i < ls.len() ==> (#[trigger] sol@[i]).0 == ls[i]
            &&& solves(word1@, word2@, result@, pairs_fn(ls, sol@))
        },
{
    let w1 = str_chars(word1);
    let w2 = str_chars(word2);
    let w3 = str_chars(result);
    let ghost all = w1@ + w2@ + w3@;
    let mut letters: Vec<char> = Vec::new();
    proof {
        assert(Seq::<char>::empty() + w1@ =~= w1@);
    }
    add_letters(&mut letters, &w1, Ghost(Seq::empty()));
    add_letters(&mut letters, &w2, Ghost(w1@));
    add_letters(&mut letters, &w3, Ghost(w1@ + w2@));
    let ghost ls = letters@;
    proof {
        assert(ls == puzzle_letters(w1@, w2@, w3@));
        lemma_letters_of(all);
    }
    let n = letters.len();
    if n > 10 {
        return None;
    }
    proof {
        assert forall|k: int| 0 <= k < all.len() implies ls.contains(#[trigger] all[k]) by {
            assert(all.contains(all[k]));
        }
        assert forall|k: int| 0 <= k < w1@.len() implies ls.contains(#[trigger] w1@[k]) by {
            assert(all[k] == w1@[k]);
        }
        assert forall|k: int| 0 <= k < w2@.len() implies ls.contains(#[trigger] w2@[k]) by {
            assert(all[w1@.len() + k] == w2@[k]);
        }
        assert forall|k: int| 0 <= k < w3@.len() implies ls.contains(#[trigger] w3@[k]) by {
            assert(all[w1@.len() + w2@.len() + k] == w3@[k]);
        }
    }
    let p1 = word_positions(&w1, &letters);
    let p2 = word_positions(&w2, &letters);
    let p3 = word_positions(&w3, &letters);
    let mut lead: Vec<bool> = Vec::new();
    let mut i: usize = 0;
    while i < n
        invariant
            i <= n,
            lead@.len() == i,
            forall|k: int| 0 <= k < i ==> !#[trigger] lead@[k],
        decreases n - i,
    {
        lead.push(false);
        i = i + 1;
    }
    let mut leads: Vec<usize> = Vec::new();
    if p1.len() > 0 {
        lead.set(p1[0], true);
        leads.push(p1[0]);
    }
    if p2.len() > 0 && !lead[p2[0]] {
        lead.set(p2[0], true);
        leads.push(p2[0]);
    }
    if p3.len() > 0 && !lead[p3[0]] {
        lead.set(p3[0], true);
        leads.push(p3[0]);
    }
    let mut ds: Vec<u8> = Vec::new();
    let mut i: usize = 0;
    while i < n
        invariant
            i <= n,
            ds@.len() == i,
        decreases n - i,
    {
        ds.push(0);
        i = i + 1;
    }
    let mut used: Vec<bool> = Vec::new();
    let mut i: usize = 0;
    while i < 10
        invariant
            i <= 10,
            used@.len() == i,
            forall|k: int| 0 <= k < i ==> !#[trigger] used@[k],
        decreases 10 - i,
    {
        used.push(false);
        i = i + 1;
    }
    let mut valid: Vec<Vec<u8>> = Vec::new();
    proof {
        assert(layout_ok(w1@, w2@, w3@, ls, p1@, p2@, p3@, lead@));
        assert(prefix_ok(ds@, 0, lead@, used@));
    }
    permute_digits(0, &lead, &p1, &p2, &p3, &mut ds, &mut used, &mut valid, Ghost(w1@), Ghost(w2@), Ghost(w3@), Ghost(ls));
    if valid.len() == 0 {
        proof {
            if exists|f: spec_fn(char) -> int| #[trigger] solves(w1@, w2@, w3@, f) {
                let f = choose|f: spec_fn(char) -> int| #[trigger] solves(w1@, w2@, w3@, f);
                let e = Seq::new(n as nat, |i: int| f(ls[i]) as u8);
                assert forall|j: int| 0 <= j < ls.len() implies f(#[trigger] ls[j]) == digit_fn(ls, e)(ls[j]) by {
                    lemma_index_of_unique(ls, j);
                    assert(0 <= f(ls[j]) <= 9);
                }
                lemma_solves_agree(w1@, w2@, w3@, f, digit_fn(ls, e));
                assert(digits_solve(w1@, w2@, w3@, ls, e));
                assert(e.subrange(0, 0) =~= ds@.subrange(0, 0));
            }
        }
        return None;
    }
    if valid.len() >= 0x3000_0000 {
        return Some(pair_letters(&letters, &valid[0], Ghost(w1@), Ghost(w2@), Ghost(w3@)));
    }
    let ghost vs = valid@.map_values(|v: Vec<u8>| v@);
    proof {
        assert forall|i: int| 0 <= i < valid@.len() implies (#[trigger] valid@[i])@.len() == n && forall|l: int|
            0 <= l < n ==> valid@[i]@[l] <= 9 by {
            assert(digits_solve(w1@, w2@, w3@, ls, valid@[i]@));
            let f = digit_fn(ls, valid@[i]@);
            assert forall|l: int| 0 <= l < n implies valid@[i]@[l] <= 9 by {
                lemma_index_of_unique(ls, l);
                assert(0 <= f(ls[l]) <= 9);
            }
        }
    }
    let clauses = puzzle_clauses(n, &leads, &valid);
    if !solver_input_fits(&clauses) {
        return Some(pair_letters(&letters, &valid[0], Ghost(w1@), Ghost(w2@), Ghost(w3@)));
    }
    let ghost f = clauses_formula(clauses@);
    proof {
        lemma_drop_empty_id(f);
    }
    let mut solver = CDCLSolver::new(clauses);
    proof {
        assert(solver.formula() =~= f);
    }
    match solver.solve() {
        Ok(true) => {},
        _ => {
            return Some(pair_letters(&letters, &valid[0], Ghost(w1@), Ghost(w2@), Ghost(w3@)));
        },
    }
    let ghost m = solver.model();
    proof {
        assert(formula_sat(m, f));
        assert(puzzle_encoding(m, n as int, leads@, vs));
    }
    let ghost pick = choose|i: int| 0 <= i < vs.len() && #[trigger] m(aux_vars(n as int, vs.len() as int)[i]);
    proof {
        assert(some_true(m, aux_vars(n as int, vs.len() as int)));
        assert(m(aux_var(n as int, pick)));
        assert forall|l: int| 0 <= l < n implies m(cvar(l, #[trigger] vs[pick][l] as int)) by {
            assert(m(aux_var(n as int, pick)) ==> m(cvar(l, vs[pick][l] as int)));
        }
        assert(vs[pick] == valid@[pick]@);
        assert forall|l2: int| 0 <= l2 < n implies #[trigger] vs[pick][l2] <= 9 by {
            assert(valid@[pick]@[l2] <= 9);
        }
    }
    let mut sol: Vec<(char, usize)> = Vec::new();
    let mut l: usize = 0;
    while l < n
        invariant
            n <= 10,
            l <= n,
            ls == letters@,
            valid@.len() > 0,
            digits_solve(w1@, w2@, w3@, letters@, valid@[0]@),
            w1@ == word1@,
            w2@ == word2@,
            w3@ == result@,
            ls == puzzle_letters(w1@, w2@, w3@),
            letters@.len() == n,
            solver.inv(),
            m == solver.model(),
            0 <= pick < vs.len(),
            vs[pick].len() == n,
            forall|l2: int| 0 <= l2 < n ==> #[trigger] vs[pick][l2] <= 9,
            letters_part(m, n as int),
            forall|l2: int| 0 <= l2 < n ==> m(cvar(l2, #[trigger] vs[pick][l2] as int)),
            sol@.len() == l,
            forall|l2: int| 0 <= l2 < l ==> (#[trigger] sol@[l2]).0 == ls[l2] && sol@[l2].1 == vs[pick][l2] as usize,
        decreases n - l,
    {
        let mut d: usize = 0;
        let mut found = false;
        let mut digit: usize = 0;
        while d < 10
            invariant
                n <= 10,
                l < n,
                d <= 10,
                solver.inv(),
                m == solver.model(),
                0 <= pick < vs.len(),
                vs[pick].len() == n,
                vs[pick][l as int] <= 9,
                letters_part(m, n as int),
                m(cvar(l as int, vs[pick][l as int] as int)),
                found ==> digit == vs[pick][l as int],
            decreases 10 - d,
        {
            let v: i32 = (l * 10 + d + 1) as i32;
            if !found && solver.get_value(v) == Some(true) {
                proof {
                    assert(m(cvar(l as int, d as int)));
                    assert(no_two_true(m, letter_vars(l as int)));
                    let e = vs[pick][l as int] as int;
                    assert(letter_vars(l as int)[d as int] == cvar(l as int, d as int));
                    if e < 10 {
                        assert(letter_vars(l as int)[e] == cvar(l as int, e));
                    }
                    if (d as int) < e {
                        assert(!(m(letter_vars(l as int)[d as int]) && m(letter_vars(l as int)[e])));
                    } else if e < (d as int) {
                        assert(!(m(letter_vars(l as int)[e]) && m(letter_vars(l as int)[d as int])));
                    }
                }
                found = true;
                digit = d;
            }
            d = d + 1;
        }
        if !found {
            return Some(pair_letters(&letters, &valid[0], Ghost(w1@), Ghost(w2@), Ghost(w3@)));
        }
        sol.push((letters[l], digit));
        l = l + 1;
    }
    proof {
        assert(digits_solve(w1@, w2@, w3@, ls, valid@[pick]@));
        let g = pairs_fn(ls, sol@);
        let f0 = digit_fn(ls, vs[pick]);
        assert forall|j: int| 0 <= j < ls.len() implies f0(#[trigger] ls[j]) == g(ls[j]) by {
            lemma_index_of_unique(ls, j);
            assert(sol@[j].1 == vs[pick][j] as usize);
        }
        lemma_solves_agree(w1@, w2@, w3@, f0, g);
    }
    Some(sol)
}

} // verus!
