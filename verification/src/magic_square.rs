//! Magic squares: an `n` x `n` grid holding `1..=n²` once each, where every
//! row, column and both diagonals add up to `n(n²+1)/2`.  Variable
//! `r·n³ + c·n² + v` says that cell (`r`, `c`) (from 0) holds `v` (from 1).
//! Each line's sum is encoded by listing every ordered choice of distinct
//! values with that sum, one selector variable each.
use vstd::prelude::*;
use crate::encode::{exactly_one, no_two_true, push_at_least_one, push_at_most_one, push_implies, push_not_both, some_true, var_ints};
use crate::literal::{clause_ints, clause_sat, clauses_formula, formula_sat, lit_true, Clause, Literal};
use crate::magic_search::{lemma_magic_flat, search_magic, unflatten};
use crate::solver::{lemma_drop_empty_id, lemma_sat_agree_below_max, solver_input_fits, CDCLSolver, SolverError};

verus! {

/// The sum of a sequence of values.
pub open spec fn seq_sum(s: Seq<usize>) -> int
    decreases s.len(),
{
    if s.len() == 0 {
        0
    } else {
        seq_sum(s.drop_last()) + s.last()
    }
}

/// Changing one entry changes the sum by the difference.
proof fn lemma_sum_update(s: Seq<usize>, i: int, x: usize)
    requires
        0 <= i < s.len(),
    ensures
        seq_sum(s.update(i, x)) == seq_sum(s) - s[i] + x,
    decreases s.len(),
{
    let t = s.update(i, x);
    if i == s.len() - 1 {
        assert(t.drop_last() =~= s.drop_last());
    } else {
        lemma_sum_update(s.drop_last(), i, x);
        assert(t.drop_last() =~= s.drop_last().update(i, x));
    }
}

/// Exchanging two entries keeps the sum.
proof fn lemma_sum_swap(s: Seq<usize>, i: int, j: int)
    requires
        0 <= i < s.len(),
        0 <= j < s.len(),
    ensures
        seq_sum(s.update(i, s[j]).update(j, s[i])) == seq_sum(s),
{
    let s1 = s.update(i, s[j]);
    lemma_sum_update(s, i, s[j]);
    lemma_sum_update(s1, j, s[i]);
    if i == j {
        assert(s1[j] == s[j]);
    } else {
        assert(s1[j] == s[j]);
    }
}

/// `s` sorts before `t` in lexicographic order.
pub open spec fn lex_less(s: Seq<usize>, t: Seq<usize>) -> bool {
    exists|p: int|
        0 <= p < s.len() && p < t.len() && s[p] < t[p] && forall|q: int| 0 <= q < p ==> #[trigger] s[q] == t[q]
}

/// Every entry of `t` is an entry of `s`.
pub open spec fn entries_from(t: Seq<usize>, s: Seq<usize>) -> bool {
    forall|k: int| 0 <= k < t.len() ==> s.contains(#[trigger] t[k])
}

/// Exchanges entries `i` and `j`.
fn swap_entries(arr: &mut Vec<usize>, i: usize, j: usize)
    requires
        i < old(arr)@.len(),
        j < old(arr)@.len(),
    ensures
        final(arr)@ == old(arr)@.update(i as int, old(arr)@[j as int]).update(j as int, old(arr)@[i as int]),
{
    let x = arr[i];
    let y = arr[j];
    arr.set(i, y);
    arr.set(j, x);
}

/// Some entry is smaller than the one after it.
pub open spec fn has_ascent(a: Seq<usize>) -> bool {
    exists|p: int| 0 <= p < a.len() - 1 && #[trigger] a[p] < a[p + 1]
}

/// `r` is the permutation after `a` in lexicographic order: with `p` the
/// last position smaller than its successor and `j` the last position
/// whose entry exceeds `a[p]`, entries `p` and `j` are exchanged and the
/// entries after `p` reversed.
pub open spec fn next_perm_of(a: Seq<usize>, r: Seq<usize>) -> bool {
    exists|p: int, j: int|
        #![trigger a[p], a[j]]
        {
            let n = a.len() as int;
            let w = a.update(p, a[j]).update(j, a[p]);
            &&& 0 <= p < j < n
            &&& a[p] < a[p + 1]
            &&& forall|q1: int, q2: int| p < q1 <= q2 < n ==> #[trigger] a[q1] >= #[trigger] a[q2]
            &&& a[j] > a[p]
            &&& forall|k: int| j < k < n ==> #[trigger] a[k] <= a[p]
            &&& r.len() == n
            &&& forall|k: int| 0 <= k <= p ==> #[trigger] r[k] == w[k]
            &&& forall|k: int| p < k < n ==> #[trigger] r[k] == w[p + n - k]
        }
}

/// Rearranges `arr` into the next permutation in lexicographic order;
/// `false` (and `arr` unchanged) when it is already the last one.
#[verifier::rlimit(40)]
pub fn next_permutation(arr: &mut Vec<usize>) -> (b: bool)
    ensures
        final(arr)@.len() == old(arr)@.len(),
        seq_sum(final(arr)@) == seq_sum(old(arr)@),
        entries_from(final(arr)@, old(arr)@),
        !b ==> final(arr)@ == old(arr)@,
        b ==> lex_less(old(arr)@, final(arr)@),
        b == has_ascent(old(arr)@),
        b ==> next_perm_of(old(arr)@, final(arr)@),
{
    let ghost a0 = arr@;
    let n = arr.len();
    if n < 2 {
        proof {
            assert forall|k: int| 0 <= k < arr@.len() implies a0.contains(#[trigger] arr@[k]) by {
                assert(a0[k] == arr@[k]);
            }
            assert(!has_ascent(a0));
        }
        return false;
    }
    let mut i = n - 1;
    while i > 0 && arr[i - 1] >= arr[i]
        invariant
            arr@ == a0,
            n == arr@.len(),
            0 <= i < n,
            forall|q1: int, q2: int| i <= q1 <= q2 < n ==> #[trigger] a0[q1] >= #[trigger] a0[q2],
        decreases i,
    {
        i = i - 1;
    }
    if i == 0 {
        proof {
            assert forall|k: int| 0 <= k < arr@.len() implies a0.contains(#[trigger] arr@[k]) by {
                assert(a0[k] == arr@[k]);
            }
            assert forall|q: int| 0 <= q < n - 1 implies !(#[trigger] a0[q] < a0[q + 1]) by {
                assert(a0[q] >= a0[q + 1]);
            }
            assert(!has_ascent(a0));
        }
        return false;
    }
    let mut j = n - 1;
    while arr[j] <= arr[i - 1]
        invariant
            arr@ == a0,
            n == arr@.len(),
            1 <= i < n,
            i <= j < n,
            a0[i - 1] < a0[i as int],
            forall|k: int| j < k < n ==> #[trigger] a0[k] <= a0[i - 1],
        decreases j,
    {
        j = j - 1;
    }
    let ghost p = (i - 1) as int;
    swap_entries(arr, i - 1, j);
    proof {
        lemma_sum_swap(a0, p, j as int);
        assert forall|k: int| 0 <= k < n implies a0.contains(#[trigger] arr@[k]) by {
            if k == p {
                assert(arr@[k] == a0[j as int]);
            } else if k == j {
                assert(arr@[k] == a0[p]);
            } else {
                assert(arr@[k] == a0[k]);
            }
        }
    }
    let ghost a1 = arr@;
    let mut lo = i;
    let mut hi = n - 1;
    while lo < hi
        invariant
            n == arr@.len(),
            1 <= i <= lo,
            hi < n,
            lo <= hi + 1,
            p == i - 1,
            a1.len() == n,
            a0.len() == n,
            seq_sum(arr@) == seq_sum(a0),
            forall|q: int| 0 <= q < i ==> #[trigger] arr@[q] == a1[q],
            a1[p] > a0[p],
            forall|q: int| 0 <= q < p ==> #[trigger] a1[q] == a0[q],
            forall|k: int| 0 <= k < n ==> a0.contains(#[trigger] arr@[k]),
            lo + hi == i + n - 1,
            forall|k: int| i <= k < lo ==> #[trigger] arr@[k] == a1[i + n - 1 - k],
            forall|k: int| hi < k < n ==> #[trigger] arr@[k] == a1[i + n - 1 - k],
            forall|k: int| lo <= k <= hi ==> #[trigger] arr@[k] == a1[k],
        decreases hi + 1 - lo,
    {
        let ghost before = arr@;
        swap_entries(arr, lo, hi);
        proof {
            lemma_sum_swap(before, lo as int, hi as int);
            assert forall|k: int| 0 <= k < n implies a0.contains(#[trigger] arr@[k]) by {
                if k == lo {
                    assert(arr@[k] == before[hi as int]);
                } else if k == hi {
                    assert(arr@[k] == before[lo as int]);
                } else {
                    assert(arr@[k] == before[k]);
                }
            }
        }
        lo = lo + 1;
        hi = hi - 1;
    }
    proof {
        assert(arr@[p] == a1[p]);
        assert forall|q: int| 0 <= q < p implies #[trigger] a0[q] == arr@[q] by {
            assert(arr@[q] == a1[q]);
        }
        assert(lex_less(a0, arr@));
        let jj = j as int;
        assert(a1 == a0.update(p, a0[jj]).update(jj, a0[p]));
        assert forall|k: int| p < k < n implies #[trigger] arr@[k] == a1[p + n - k] by {
            if k < lo {
            } else if k > hi {
            } else {
                assert(k == lo && k == hi);
            }
        }
        assert(next_perm_of(a0, arr@));
        assert(a0[p] < a0[p + 1]);
        assert(has_ascent(a0));
    }
    true
}

/// `x` lists `count` values of `1..=max_val` adding up to `total`.
pub open spec fn combo_ok(x: Seq<usize>, max_val: int, count: int, total: int) -> bool {
    &&& x.len() == count
    &&& forall|j: int| 0 <= j < x.len() ==> 1 <= #[trigger] x[j] <= max_val
    &&& seq_sum(x) == total
}

/// A copy of a vector of values.
fn copy_values(v: &Vec<usize>) -> (r: Vec<usize>)
    ensures
        r@ == v@,
{
    let mut r: Vec<usize> = Vec::new();
    let mut i: usize = 0;
    while i < v.len()
        invariant
            i <= v@.len(),
            r@ == v@.subrange(0, i as int),
        decreases v@.len() - i,
    {
        r.push(v[i]);
        i = i + 1;
    }
    proof {
        assert(v@.subrange(0, v@.len() as int) =~= v@);
    }
    r
}

/// `c` starts with `cur`, continues increasingly with values from
/// `start..=max_val`, has `count` entries and adds up to `total`.
pub open spec fn completes_combo(c: Seq<usize>, cur: Seq<usize>, start: int, max_val: int, count: int, total: int) -> bool {
    &&& c.len() == count
    &&& cur.len() <= count
    &&& c.subrange(0, cur.len() as int) == cur
    &&& forall|j: int| cur.len() <= j < count ==> start <= #[trigger] c[j] <= max_val
    &&& forall|i: int, j: int| cur.len() <= i < j < count ==> #[trigger] c[i] < #[trigger] c[j]
    &&& seq_sum(c) == total
}

/// `c` is one of `cs[lo..]`.
pub open spec fn values_listed(cs: Seq<Vec<usize>>, lo: int, c: Seq<usize>) -> bool {
    exists|j: int| lo <= j < cs.len() && #[trigger] cs[j]@ == c
}

/// The sum is at least the sum of a prefix plus the next entry.
proof fn lemma_sum_prefix_next(c: Seq<usize>, m: int)
    requires
        0 <= m < c.len(),
    ensures
        seq_sum(c) >= seq_sum(c.subrange(0, m)) + c[m],
    decreases c.len(),
{
    let dl = c.drop_last();
    if m == c.len() - 1 {
        assert(dl =~= c.subrange(0, m));
    } else {
        lemma_sum_prefix_next(dl, m);
        assert(dl.subrange(0, m) =~= c.subrange(0, m));
    }
}

/// Appends every increasing completion of `current` by `remaining` values
/// from `start..=max_val` that adds `target` more.
fn find_combinations_recursive(
    max_val: usize,
    remaining: usize,
    target: usize,
    start: usize,
    current: &mut Vec<usize>,
    results: &mut Vec<Vec<usize>>,
    Ghost(count): Ghost<int>,
    Ghost(total): Ghost<int>,
)
    requires
        1 <= start <= max_val + 1,
        max_val < usize::MAX,
        old(current)@.len() + remaining == count,
        seq_sum(old(current)@) + target == total,
        forall|j: int| 0 <= j < old(current)@.len() ==> 1 <= #[trigger] old(current)@[j] <= max_val,
        forall|i: int| 0 <= i < old(results)@.len() ==> combo_ok(#[trigger] old(results)@[i]@, max_val as int, count, total),
    ensures
        final(current)@ == old(current)@,
        forall|i: int| 0 <= i < final(results)@.len() ==> combo_ok(#[trigger] final(results)@[i]@, max_val as int, count, total),
        final(results)@.len() >= old(results)@.len(),
        forall|i: int| 0 <= i < old(results)@.len() ==> #[trigger] final(results)@[i] == old(results)@[i],
        forall|c: Seq<usize>|
            #[trigger] completes_combo(c, old(current)@, start as int, max_val as int, count, total) ==> values_listed(
                final(results)@,
                old(results)@.len() as int,
                c,
            ),
    decreases remaining,
{
    if remaining == 0 {
        if target == 0 {
            let c = copy_values(current);
            results.push(c);
            proof {
                assert(results@[results@.len() - 1]@ == current@);
            }
        }
        proof {
            assert forall|c: Seq<usize>|
                #[trigger] completes_combo(c, old(current)@, start as int, max_val as int, count, total) implies values_listed(
                results@,
                old(results)@.len() as int,
                c,
            ) by {
                assert(c =~= c.subrange(0, count));
                assert(c == current@);
                assert(results@[results@.len() - 1]@ == c);
            }
        }
        return;
    }
    let ghost c0 = current@;
    let mut v: usize = start;
    while v <= max_val
        invariant
            1 <= start <= v,
            max_val < usize::MAX,
            v <= max_val + 1,
            remaining > 0,
            current@ == c0,
            c0 == old(current)@,
            c0.len() + remaining == count,
            seq_sum(c0) + target == total,
            forall|j: int| 0 <= j < c0.len() ==> 1 <= #[trigger] c0[j] <= max_val,
            forall|i: int| 0 <= i < results@.len() ==> combo_ok(#[trigger] results@[i]@, max_val as int, count, total),
            results@.len() >= old(results)@.len(),
            forall|i: int| 0 <= i < old(results)@.len() ==> #[trigger] results@[i] == old(results)@[i],
            forall|c: Seq<usize>|
                #[trigger] completes_combo(c, c0, start as int, max_val as int, count, total) && c[c0.len() as int] < v
                    ==> values_listed(results@, old(results)@.len() as int, c),
        ensures
            v > max_val || v > target,
            forall|c: Seq<usize>|
                #[trigger] completes_combo(c, c0, start as int, max_val as int, count, total) && c[c0.len() as int] < v
                    ==> values_listed(results@, old(results)@.len() as int, c),
            forall|i: int| 0 <= i < results@.len() ==> combo_ok(#[trigger] results@[i]@, max_val as int, count, total),
            results@.len() >= old(results)@.len(),
            forall|i: int| 0 <= i < old(results)@.len() ==> #[trigger] results@[i] == old(results)@[i],
            current@ == c0,
        decreases max_val + 1 - v,
    {
        if v > target {
            break;
        }
        let ghost pre = results@;
        current.push(v);
        proof {
            assert(current@.drop_last() =~= c0);
        }
        let ghost cur1 = current@;
        find_combinations_recursive(max_val, remaining - 1, target - v, v + 1, current, results, Ghost(count), Ghost(total));
        current.pop();
        proof {
            assert(current@ =~= c0);
            assert forall|i: int| 0 <= i < old(results)@.len() implies #[trigger] results@[i] == old(results)@[i] by {
                assert(results@[i] == pre[i]);
            }
            assert forall|c: Seq<usize>|
                #[trigger] completes_combo(c, c0, start as int, max_val as int, count, total) && c[c0.len() as int] < v + 1
                    implies values_listed(results@, old(results)@.len() as int, c) by {
                if c[c0.len() as int] < v {
                    let j = choose|j: int| old(results)@.len() <= j < pre.len() && #[trigger] pre[j]@ == c;
                    assert(results@[j] == pre[j]);
                } else {
                    assert(c.subrange(0, cur1.len() as int) =~= cur1) by {
                        assert forall|x: int| 0 <= x < cur1.len() implies #[trigger] c.subrange(0, cur1.len() as int)[x] == cur1[x] by {
                            if x < c0.len() {
                                assert(c.subrange(0, c0.len() as int)[x] == c0[x]);
                            }
                        }
                    }
                    assert forall|x: int| cur1.len() <= x < count implies v + 1 <= #[trigger] c[x] by {
                        assert(c[c0.len() as int] < c[x]);
                    }
                    assert(completes_combo(c, cur1, (v + 1) as int, max_val as int, count, total));
                }
            }
        }
        v = v + 1;
    }
    proof {
        assert forall|c: Seq<usize>|
            #[trigger] completes_combo(c, c0, start as int, max_val as int, count, total) implies values_listed(
            results@,
            old(results)@.len() as int,
            c,
        ) by {
            let m = c0.len() as int;
            if c[m] >= v {
                if v > target {
                    lemma_sum_prefix_next(c, m);
                    assert(c.subrange(0, m) == c0);
                }
            }
        }
    }
}

/// `n!`, or `u64::MAX` when it does not fit (`21!` already does not).
fn factorial_capped(n: usize) -> (r: u64)
    ensures
        r == if factorial(n as nat) > u64::MAX { u64::MAX as int } else { factorial(n as nat) as int },
{
    if n > 20 {
        proof {
            lemma_factorial_big(n as nat);
        }
        return u64::MAX;
    }
    let mut r: u64 = 1;
    let mut k: usize = 2;
    proof {
        reveal_with_fuel(factorial, 2);
        lemma_factorial_mono(1, 20);
    }
    while k <= n
        invariant
            2 <= k <= n + 1 || (n < 2 && k == 2),
            n <= 20,
            r == factorial((k - 1) as nat),
            factorial((k - 1) as nat) <= factorial(20),
        decreases n + 1 - k,
    {
        proof {
            lemma_factorial_mono((k) as nat, 20);
            lemma_factorial_values();
            assert(factorial(k as nat) == k * factorial((k - 1) as nat));
            assert((r as int) * (k as int) == (k as int) * (r as int)) by (nonlinear_arith);
        }
        r = match r.checked_mul(k as u64) {
            Some(x) => x,
            None => u64::MAX,
        };
        k = k + 1;
    }
    proof {
        if n < 2 {
            reveal_with_fuel(factorial, 2);
        }
        lemma_factorial_mono(n as nat, 20);
        lemma_factorial_values();
    }
    r
}

/// `n!`.
pub open spec fn factorial(n: nat) -> nat
    decreases n,
{
    if n == 0 {
        1
    } else {
        n * factorial((n - 1) as nat)
    }
}

proof fn lemma_factorial_pos(n: nat)
    ensures
        factorial(n) >= 1,
    decreases n,
{
    if n > 0 {
        lemma_factorial_pos((n - 1) as nat);
        assert(n * factorial((n - 1) as nat) >= 1) by (nonlinear_arith)
            requires n >= 1, factorial((n - 1) as nat) >= 1;
    }
}

proof fn lemma_factorial_mono(m: nat, n: nat)
    requires
        m <= n,
    ensures
        factorial(m) <= factorial(n),
    decreases n,
{
    if m < n {
        lemma_factorial_mono(m, (n - 1) as nat);
        lemma_factorial_pos((n - 1) as nat);
        assert(factorial((n - 1) as nat) <= n * factorial((n - 1) as nat)) by (nonlinear_arith)
            requires n >= 1, factorial((n - 1) as nat) >= 1;
    }
}

/// The values of `n!` up to `21!`.
proof fn lemma_factorial_values()
    ensures
        factorial(20) == 2432902008176640000,
        factorial(21) == 51090942171709440000,
{
    assert(factorial(0) == 1);
    assert(factorial(1) == 1);
    assert(factorial(2) == 2);
    assert(factorial(3) == 6);
    assert(factorial(4) == 24);
    assert(factorial(5) == 120);
    assert(factorial(6) == 720);
    assert(factorial(7) == 5040);
    assert(factorial(8) == 40320);
    assert(factorial(9) == 362880);
    assert(factorial(10) == 3628800);
    assert(factorial(11) == 39916800);
    assert(factorial(12) == 479001600);
    assert(factorial(13) == 6227020800);
    assert(factorial(14) == 87178291200);
    assert(factorial(15) == 1307674368000);
    assert(factorial(16) == 20922789888000);
    assert(factorial(17) == 355687428096000);
    assert(factorial(18) == 6402373705728000);
    assert(factorial(19) == 121645100408832000);
    assert(factorial(20) == 2432902008176640000);
    assert(factorial(21) == 51090942171709440000);
}

/// `n!` exceeds `u64::MAX` from `21` on.
proof fn lemma_factorial_big(n: nat)
    requires
        n > 20,
    ensures
        factorial(n) > u64::MAX,
{
    lemma_factorial_mono(21, n);
    lemma_factorial_values();
}

/// Appends `combo` and each later permutation of it in lexicographic
/// order.  A list of `len` values has at most `len!` orders, which bounds
/// the steps.
fn generate_permutations(combo: &Vec<usize>, results: &mut Vec<Vec<usize>>, Ghost(max_val): Ghost<int>, Ghost(total): Ghost<int>)
    requires
        combo_ok(combo@, max_val, combo@.len() as int, total),
        forall|i: int| 0 <= i < old(results)@.len() ==> combo_ok(#[trigger] old(results)@[i]@, max_val, combo@.len() as int, total),
    ensures
        forall|i: int| 0 <= i < final(results)@.len() ==> combo_ok(#[trigger] final(results)@[i]@, max_val, combo@.len() as int, total),
{
    let mut perm = copy_values(combo);
    let mut budget: u64 = factorial_capped(combo.len());
    loop
        invariant
            combo_ok(perm@, max_val, combo@.len() as int, total),
            forall|i: int| 0 <= i < results@.len() ==> combo_ok(#[trigger] results@[i]@, max_val, combo@.len() as int, total),
        decreases budget,
    {
        let c = copy_values(&perm);
        results.push(c);
        if budget == 0 {
            break;
        }
        budget = budget - 1;
        let ghost p0 = perm@;
        if !next_permutation(&mut perm) {
            break;
        }
        proof {
            assert forall|j: int| 0 <= j < perm@.len() implies 1 <= #[trigger] perm@[j] <= max_val by {
                assert(p0.contains(perm@[j]));
            }
        }
    }
}

/// Every ordering of `count` distinct values of `1..=max_val` that adds up
/// to `target`: the increasing choices first, each followed by its later
/// permutations.
pub fn find_valid_combinations(max_val: usize, count: usize, target: usize) -> (r: Vec<Vec<usize>>)
    requires
        max_val < usize::MAX,
    ensures
        forall|i: int| 0 <= i < r@.len() ==> combo_ok(#[trigger] r@[i]@, max_val as int, count as int, target as int),
{
    let mut results: Vec<Vec<usize>> = Vec::new();
    let mut current: Vec<usize> = Vec::new();
    find_combinations_recursive(max_val, count, target, 1, &mut current, &mut results, Ghost(count as int), Ghost(target as int));
    let mut all_perms: Vec<Vec<usize>> = Vec::new();
    let mut i: usize = 0;
    while i < results.len()
        invariant
            i <= results@.len(),
            forall|k: int| 0 <= k < results@.len() ==> combo_ok(#[trigger] results@[k]@, max_val as int, count as int, target as int),
            forall|k: int| 0 <= k < all_perms@.len() ==> combo_ok(#[trigger] all_perms@[k]@, max_val as int, count as int, target as int),
        decreases results@.len() - i,
    {
        proof {
            assert(combo_ok(results@[i as int]@, max_val as int, count as int, target as int));
        }
        generate_permutations(&results[i], &mut all_perms, Ghost(max_val as int), Ghost(target as int));
        i = i + 1;
    }
    all_perms
}

/// The largest side the variable numbering allows.
pub const MAX_SIDE: usize = 63;

/// The variable "cell (`r`, `c`) holds value `v`".
pub open spec fn square_var(n: int, r: int, c: int, v: int) -> int {
    r * n * n * n + c * n * n + v
}

/// The value variables of cell (`r`, `c`).
pub open spec fn cell_vars(n: int, r: int, c: int) -> Seq<int> {
    Seq::new((n * n) as nat, |i: int| square_var(n, r, c, i + 1))
}

/// The variables "value `v` is in cell k", cells in row-major order.
pub open spec fn value_vars(n: int, v: int) -> Seq<int> {
    Seq::new((n * n) as nat, |k: int| square_var(n, k / n, k % n, v))
}

/// Each cell holds one value, and each value lies in one cell.
pub open spec fn permutation_encoding(a: spec_fn(int) -> bool, n: int) -> bool {
    &&& forall|r: int, c: int| 0 <= r < n && 0 <= c < n ==> exactly_one(a, #[trigger] cell_vars(n, r, c))
    &&& forall|v: int| 1 <= v <= n * n ==> exactly_one(a, #[trigger] value_vars(n, v))
}

proof fn lemma_square_var_range(n: int, r: int, c: int, v: int)
    requires
        0 <= r < n,
        0 <= c < n,
        1 <= v <= n * n,
    ensures
        1 <= square_var(n, r, c, v) <= n * n * n * n,
        0 <= r * n <= n * n,
        0 <= r * n * n <= n * n * n,
        0 <= r * n * n * n <= n * n * n * n,
        0 <= c * n <= n * n,
        0 <= c * n * n <= n * n * n,
{
    assert(0 <= r * n <= n * n) by (nonlinear_arith)
        requires 0 <= r < n;
    assert(0 <= r * n * n <= n * n * n) by (nonlinear_arith)
        requires 0 <= r < n;
    assert(0 <= r * n * n * n <= n * n * n * n) by (nonlinear_arith)
        requires 0 <= r < n;
    assert(0 <= c * n <= n * n) by (nonlinear_arith)
        requires 0 <= c < n;
    assert(0 <= c * n * n <= n * n * n) by (nonlinear_arith)
        requires 0 <= c < n;
    assert(r * n * n * n + c * n * n + v <= n * n * n * n) by (nonlinear_arith)
        requires 0 <= r < n, 0 <= c < n, 1 <= v <= n * n;
    assert(r * n * n * n + c * n * n >= 0) by (nonlinear_arith)
        requires 0 <= r < n, 0 <= c < n;
}

pub(crate) proof fn lemma_side_bounds(n: int)
    requires
        0 <= n <= MAX_SIDE,
    ensures
        n * n <= 3969,
        n * n * n <= 250047,
        n * n * n * n <= 15752961,
        n * n * n * n * n <= 992436543,
{
    assert(n * n <= 63 * 63) by (nonlinear_arith)
        requires 0 <= n <= 63;
    assert(n * n * n <= 250047) by (nonlinear_arith)
        requires 0 <= n <= 63, n * n <= 3969;
    assert(n * n * n * n <= 15752961) by (nonlinear_arith)
        requires 0 <= n <= 63, n * n <= 3969;
    assert(n * n * n * n * n <= 992436543) by (nonlinear_arith)
        requires 0 <= n <= 63, n * n * n * n <= 15752961;
}

/// The value variables of one cell, or the cell variables of one value.
fn group_vars(n: usize, r: usize, c: usize, v: usize, by_cell: bool) -> (g: Vec<i32>)
    requires
        n <= MAX_SIDE,
        r < n,
        c < n,
        1 <= v <= n * n,
    ensures
        var_ints(g@) == if by_cell { cell_vars(n as int, r as int, c as int) } else { value_vars(n as int, v as int) },
        forall|k: int| 0 <= k < g@.len() ==> 1 <= #[trigger] g@[k] <= 15752961,
{
    proof {
        lemma_side_bounds(n as int);
    }
    let mut g: Vec<i32> = Vec::new();
    if by_cell {
        let mut x: usize = 1;
        while x <= n * n
            invariant
                n <= MAX_SIDE,
                n * n <= 3969,
                n * n * n <= 250047,
                n * n * n * n <= 15752961,
                r < n,
                c < n,
                1 <= x <= n * n + 1,
                g@.len() == x - 1,
                forall|k: int| 0 <= k < g@.len() ==> #[trigger] g@[k] == square_var(n as int, r as int, c as int, k + 1),
                forall|k: int| 0 <= k < g@.len() ==> 1 <= #[trigger] g@[k] <= 15752961,
            decreases n * n + 1 - x,
        {
            proof {
                lemma_square_var_range(n as int, r as int, c as int, x as int);
            }
            g.push((r * n * n * n + c * n * n + x) as i32);
            x = x + 1;
        }
        proof {
            assert(var_ints(g@) =~= cell_vars(n as int, r as int, c as int));
        }
    } else {
        let mut rr: usize = 0;
        while rr < n
            invariant
                n <= MAX_SIDE,
                n * n <= 3969,
                n * n * n <= 250047,
                n * n * n * n <= 15752961,
                1 <= v <= n * n,
                rr <= n,
                g@.len() == rr * n,
                forall|k: int| 0 <= k < g@.len() ==> #[trigger] g@[k] == square_var(n as int, k / (n as int), k % (n as int), v as int),
                forall|k: int| 0 <= k < g@.len() ==> 1 <= #[trigger] g@[k] <= 15752961,
            decreases n - rr,
        {
            let mut cc: usize = 0;
            while cc < n
                invariant
                    n <= MAX_SIDE,
                    n * n <= 3969,
                    n * n * n <= 250047,
                    n * n * n * n <= 15752961,
                    1 <= v <= n * n,
                    rr < n,
                    cc <= n,
                    g@.len() == rr * n + cc,
                    forall|k: int| 0 <= k < g@.len() ==> #[trigger] g@[k] == square_var(n as int, k / (n as int), k % (n as int), v as int),
                    forall|k: int| 0 <= k < g@.len() ==> 1 <= #[trigger] g@[k] <= 15752961,
                decreases n - cc,
            {
                proof {
                    lemma_square_var_range(n as int, rr as int, cc as int, v as int);
                    vstd::arithmetic::div_mod::lemma_fundamental_div_mod_converse((rr * n + cc) as int, n as int, rr as int, cc as int);
                }
                g.push((rr * n * n * n + cc * n * n + v) as i32);
                cc = cc + 1;
            }
            proof {
                assert((rr + 1) * n == rr * n + n) by (nonlinear_arith);
            }
            rr = rr + 1;
        }
        proof {
            assert(var_ints(g@) =~= value_vars(n as int, v as int));
        }
    }
    g
}

/// At least one (`alo`) or at most one of the variables `g` is true.
pub open spec fn group_holds(a: spec_fn(int) -> bool, g: Seq<int>, alo: bool) -> bool {
    if alo { some_true(a, g) } else { no_two_true(a, g) }
}

/// The cells before (`r0`, `c0`) in row-major order satisfy `alo` (or its
/// "at most one" counterpart) over their values.
pub open spec fn cells_part(a: spec_fn(int) -> bool, n: int, r0: int, c0: int, alo: bool) -> bool {
    forall|r: int, c: int|
        0 <= r < n && 0 <= c < n && (r < r0 || (r == r0 && c < c0)) ==> group_holds(a, #[trigger] cell_vars(n, r, c), alo)
}

/// The values before `v0` satisfy `alo` (or its counterpart) over cells.
pub open spec fn values_part(a: spec_fn(int) -> bool, n: int, v0: int, alo: bool) -> bool {
    forall|v: int| 1 <= v < v0 && v <= n * n ==> group_holds(a, #[trigger] value_vars(n, v), alo)
}

/// Appends "at least one" (`alo`) or "at most one" value for every cell.
fn push_cell_groups(clauses: &mut Vec<Clause>, n: usize, alo: bool)
    requires
        n <= MAX_SIDE,
    ensures
        forall|a: spec_fn(int) -> bool|
            #[trigger] formula_sat(a, clauses_formula(final(clauses)@)) <==> formula_sat(
                a,
                clauses_formula(old(clauses)@),
            ) && cells_part(a, n as int, n as int, 0, alo),
{
    let ghost c0 = clauses@;
    let mut r: usize = 0;
    while r < n
        invariant
            n <= MAX_SIDE,
            r <= n,
            forall|a: spec_fn(int) -> bool|
                #[trigger] formula_sat(a, clauses_formula(clauses@)) <==> formula_sat(a, clauses_formula(c0))
                    && cells_part(a, n as int, r as int, 0, alo),
        decreases n - r,
    {
        let mut c: usize = 0;
        while c < n
            invariant
                n <= MAX_SIDE,
                r < n,
                c <= n,
                forall|a: spec_fn(int) -> bool|
                    #[trigger] formula_sat(a, clauses_formula(clauses@)) <==> formula_sat(a, clauses_formula(c0))
                        && cells_part(a, n as int, r as int, c as int, alo),
            decreases n - c,
        {
            proof {
                assert(1 <= n * n) by (nonlinear_arith)
                    requires 1 <= n;
            }
            let g = group_vars(n, r, c, 1, true);
            let ghost c1 = clauses@;
            if alo {
                push_at_least_one(clauses, &g, Ghost(15752961));
            } else {
                push_at_most_one(clauses, &g, Ghost(15752961));
            }
            proof {
                assert forall|a: spec_fn(int) -> bool| #[trigger]
                    formula_sat(a, clauses_formula(clauses@)) <==> formula_sat(a, clauses_formula(c0))
                        && cells_part(a, n as int, r as int, c + 1, alo) by {
                    assert(formula_sat(a, clauses_formula(c1)) <==> formula_sat(a, clauses_formula(c0))
                        && cells_part(a, n as int, r as int, c as int, alo));
                    let here = group_holds(a, cell_vars(n as int, r as int, c as int), alo);
                    assert(formula_sat(a, clauses_formula(clauses@)) <==> formula_sat(a, clauses_formula(c1)) && here);
                    if cells_part(a, n as int, r as int, c + 1, alo) {
                        assert(here);
                    }
                }
            }
            c = c + 1;
        }
        proof {
            assert forall|a: spec_fn(int) -> bool|
                #[trigger] cells_part(a, n as int, r as int, n as int, alo) == cells_part(a, n as int, r + 1, 0, alo) by {}
        }
        r = r + 1;
    }
}

/// Appends "in at least one cell" (`alo`) or "in at most one cell" for
/// every value.
fn push_value_groups(clauses: &mut Vec<Clause>, n: usize, alo: bool)
    requires
        n <= MAX_SIDE,
    ensures
        forall|a: spec_fn(int) -> bool|
            #[trigger] formula_sat(a, clauses_formula(final(clauses)@)) <==> formula_sat(
                a,
                clauses_formula(old(clauses)@),
            ) && values_part(a, n as int, n * n + 1, alo),
{
    proof {
        lemma_side_bounds(n as int);
    }
    let ghost c0 = clauses@;
    let mut v: usize = 1;
    while v <= n * n
        invariant
            n <= MAX_SIDE,
            n * n <= 3969,
            1 <= v <= n * n + 1,
            forall|a: spec_fn(int) -> bool|
                #[trigger] formula_sat(a, clauses_formula(clauses@)) <==> formula_sat(a, clauses_formula(c0))
                    && values_part(a, n as int, v as int, alo),
        decreases n * n + 1 - v,
    {
        proof {
            assert(n >= 1) by (nonlinear_arith)
                requires 1 <= v <= n * n;
        }
        let g = group_vars(n, 0, 0, v, false);
        let ghost c1 = clauses@;
        if alo {
            push_at_least_one(clauses, &g, Ghost(15752961));
        } else {
            push_at_most_one(clauses, &g, Ghost(15752961));
        }
        proof {
            assert forall|a: spec_fn(int) -> bool| #[trigger]
                formula_sat(a, clauses_formula(clauses@)) <==> formula_sat(a, clauses_formula(c0))
                    && values_part(a, n as int, v + 1, alo) by {
                assert(formula_sat(a, clauses_formula(c1)) <==> formula_sat(a, clauses_formula(c0))
                    && values_part(a, n as int, v as int, alo));
                let here = group_holds(a, value_vars(n as int, v as int), alo);
                assert(formula_sat(a, clauses_formula(clauses@)) <==> formula_sat(a, clauses_formula(c1)) && here);
                if values_part(a, n as int, v + 1, alo) {
                    assert(here);
                }
            }
        }
        v = v + 1;
    }
}

/// Clauses that hold exactly when every cell holds one value of `1..=n²`
/// and every value lies in one cell.
pub fn generate_permutation_clauses(n: usize) -> (r: Vec<Clause>)
    requires
        n <= MAX_SIDE,
    ensures
        forall|a: spec_fn(int) -> bool| #[trigger] formula_sat(a, clauses_formula(r@)) <==> permutation_encoding(a, n as int),
{
    let mut cs: Vec<Clause> = Vec::new();
    let ghost c0 = cs@;
    push_cell_groups(&mut cs, n, true);
    push_cell_groups(&mut cs, n, false);
    let ghost c2 = cs@;
    push_value_groups(&mut cs, n, true);
    push_value_groups(&mut cs, n, false);
    proof {
        let ni = n as int;
        assert forall|a: spec_fn(int) -> bool| #[trigger] formula_sat(a, clauses_formula(cs@)) <==> permutation_encoding(a, ni) by {
            assert(formula_sat(a, clauses_formula(c0)));
            let cells = cells_part(a, ni, ni, 0, true) && cells_part(a, ni, ni, 0, false);
            let vals = values_part(a, ni, ni * ni + 1, true) && values_part(a, ni, ni * ni + 1, false);
            assert(formula_sat(a, clauses_formula(c2)) <==> cells);
            assert(formula_sat(a, clauses_formula(cs@)) <==> cells && vals);
            if cells && vals {
                assert forall|r: int, c: int| 0 <= r < ni && 0 <= c < ni implies exactly_one(a, #[trigger] cell_vars(ni, r, c)) by {
                    assert(group_holds(a, cell_vars(ni, r, c), true));
                    assert(group_holds(a, cell_vars(ni, r, c), false));
                }
                assert forall|v: int| 1 <= v <= ni * ni implies exactly_one(a, #[trigger] value_vars(ni, v)) by {
                    assert(group_holds(a, value_vars(ni, v), true));
                    assert(group_holds(a, value_vars(ni, v), false));
                }
            }
            if permutation_encoding(a, ni) {
                assert forall|r: int, c: int| 0 <= r < ni && 0 <= c < ni && (r < ni || (r == ni && c < 0)) implies group_holds(
                    a,
                    #[trigger] cell_vars(ni, r, c),
                    true,
                ) by {
                    assert(exactly_one(a, cell_vars(ni, r, c)));
                }
                assert forall|r: int, c: int| 0 <= r < ni && 0 <= c < ni && (r < ni || (r == ni && c < 0)) implies group_holds(
                    a,
                    #[trigger] cell_vars(ni, r, c),
                    false,
                ) by {
                    assert(exactly_one(a, cell_vars(ni, r, c)));
                }
                assert forall|v: int| 1 <= v < ni * ni + 1 && v <= ni * ni implies group_holds(a, #[trigger] value_vars(ni, v), true) by {
                    assert(exactly_one(a, value_vars(ni, v)));
                }
                assert forall|v: int| 1 <= v < ni * ni + 1 && v <= ni * ni implies group_holds(a, #[trigger] value_vars(ni, v), false) by {
                    assert(exactly_one(a, value_vars(ni, v)));
                }
            }
        }
    }
    cs
}

/// Some sequence of values, one per cell of the line `cells`, holds under
/// `a`, takes values in `1..=n²` and adds up to `target`.
pub open spec fn line_sum_ok(a: spec_fn(int) -> bool, n: int, cells: Seq<(usize, usize)>, target: int) -> bool {
    exists|vals: Seq<usize>|
        #[trigger] combo_ok(vals, n * n, cells.len() as int, target) && forall|j: int|
            0 <= j < cells.len() ==> a(square_var(n, cells[j].0 as int, cells[j].1 as int, #[trigger] vals[j] as int))
}

/// The cells lie in the `n` x `n` grid.
pub open spec fn cells_in_grid(cells: Seq<(usize, usize)>, n: int) -> bool {
    forall|j: int| 0 <= j < cells.len() ==> (#[trigger] cells[j]).0 < n && cells[j].1 < n
}

/// Clauses that make some ordering of distinct values of `1..=n²` adding up
/// to `target` fill the cells of the line, one selector variable per
/// ordering from `next_aux` on (the empty clause when no ordering exists).
/// `None` when the selectors would run past the largest variable number.
pub fn encode_sum_constraint(n: usize, cells: &Vec<(usize, usize)>, target: usize, next_aux: &mut i32) -> (r: Option<
    Vec<Clause>,
>)
    requires
        n <= MAX_SIDE,
        cells_in_grid(cells@, n as int),
        *old(next_aux) >= 1,
    ensures
        *final(next_aux) >= *old(next_aux),
        r matches Some(cs) ==> forall|a: spec_fn(int) -> bool| #[trigger]
            formula_sat(a, clauses_formula(cs@)) ==> line_sum_ok(a, n as int, cells@, target as int),
{
    proof {
        lemma_side_bounds(n as int);
    }
    let valid = find_valid_combinations(n * n, cells.len(), target);
    let mut clauses: Vec<Clause> = Vec::new();
    if valid.len() == 0 {
        clauses.push(Clause::new(Vec::new()));
        proof {
            assert forall|a: spec_fn(int) -> bool| #[trigger] formula_sat(a, clauses_formula(clauses@)) implies line_sum_ok(
                a,
                n as int,
                cells@,
                target as int,
            ) by {
                let f = clauses_formula(clauses@);
                assert(f[0].len() == 0);
                assert(clause_sat(a, f[0]));
            }
        }
        return Some(clauses);
    }
    let base = *next_aux;
    if valid.len() > 0x7fff_ffff - (base as usize) {
        return None;
    }
    let mut auxv: Vec<i32> = Vec::new();
    let mut i: usize = 0;
    while i < valid.len()
        invariant
            base >= 1,
            (base as usize) + valid@.len() <= 0x7fff_ffff,
            i <= valid@.len(),
            auxv@.len() == i,
            forall|k: int| 0 <= k < i ==> #[trigger] auxv@[k] == base + k,
        decreases valid@.len() - i,
    {
        auxv.push(base + i as i32);
        i = i + 1;
    }
    *next_aux = base + valid.len() as i32;
    push_at_least_one(&mut clauses, &auxv, Ghost(0x7fff_ffff));
    push_at_most_one(&mut clauses, &auxv, Ghost(0x7fff_ffff));
    let ghost vs = valid@.map_values(|v: Vec<usize>| v@);
    let ghost av = var_ints(auxv@);
    let mut i: usize = 0;
    while i < valid.len()
        invariant
            n <= MAX_SIDE,
            n * n <= 3969,
            n * n * n <= 250047,
            n * n * n * n <= 15752961,
            cells_in_grid(cells@, n as int),
            base >= 1,
            (base as usize) + valid@.len() <= 0x7fff_ffff,
            vs == valid@.map_values(|v: Vec<usize>| v@),
            av == var_ints(auxv@),
            av.len() == valid@.len(),
            forall|k: int| 0 <= k < av.len() ==> #[trigger] av[k] == base + k,
            forall|k: int| 0 <= k < valid@.len() ==> combo_ok(#[trigger] valid@[k]@, n * n, cells@.len() as int, target as int),
            i <= valid@.len(),
            forall|a: spec_fn(int) -> bool| #[trigger] formula_sat(a, clauses_formula(clauses@)) ==> some_true(a, av) && forall|
                i2: int,
                j: int,
            |
                0 <= i2 < i && 0 <= j < cells@.len() ==> (a(#[trigger] av[i2]) ==> a(
                    square_var(n as int, cells@[j].0 as int, cells@[j].1 as int, #[trigger] vs[i2][j] as int),
                )),
        decreases valid@.len() - i,
    {
        let combo = &valid[i];
        proof {
            assert(combo_ok(combo@, n * n, cells@.len() as int, target as int));
            assert(vs[i as int] == combo@);
        }
        let mut j: usize = 0;
        while j < cells.len()
            invariant
                n <= MAX_SIDE,
                n * n <= 3969,
                n * n * n <= 250047,
                n * n * n * n <= 15752961,
                cells_in_grid(cells@, n as int),
                base >= 1,
                (base as usize) + valid@.len() <= 0x7fff_ffff,
                vs == valid@.map_values(|v: Vec<usize>| v@),
                av == var_ints(auxv@),
                av.len() == valid@.len(),
                forall|k: int| 0 <= k < av.len() ==> #[trigger] av[k] == base + k,
                i < valid@.len(),
                combo@ == vs[i as int],
                combo_ok(combo@, n * n, cells@.len() as int, target as int),
                j <= cells@.len(),
                forall|a: spec_fn(int) -> bool| #[trigger] formula_sat(a, clauses_formula(clauses@)) ==> some_true(a, av) && (
                forall|i2: int, j2: int|
                    0 <= i2 < i && 0 <= j2 < cells@.len() ==> (a(#[trigger] av[i2]) ==> a(
                        square_var(n as int, cells@[j2].0 as int, cells@[j2].1 as int, #[trigger] vs[i2][j2] as int),
                    ))) && (forall|j2: int|
                    0 <= j2 < j ==> (a(av[i as int]) ==> a(
                        square_var(n as int, cells@[j2].0 as int, cells@[j2].1 as int, #[trigger] vs[i as int][j2] as int),
                    ))),
            decreases cells@.len() - j,
        {
            let (r, c) = cells[j];
            let v = combo[j];
            proof {
                assert(cells@[j as int].0 < n && cells@[j as int].1 < n);
                assert(1 <= combo@[j as int] <= n * n);
                lemma_square_var_range(n as int, r as int, c as int, v as int);
            }
            let ghost c1 = clauses@;
            push_implies(&mut clauses, base + i as i32, (r * n * n * n + c * n * n + v) as i32);
            proof {
                assert forall|a: spec_fn(int) -> bool| #[trigger] formula_sat(a, clauses_formula(clauses@)) implies some_true(a, av) && (
                forall|i2: int, j2: int|
                    0 <= i2 < i && 0 <= j2 < cells@.len() ==> (a(#[trigger] av[i2]) ==> a(
                        square_var(n as int, cells@[j2].0 as int, cells@[j2].1 as int, #[trigger] vs[i2][j2] as int),
                    ))) && (forall|j2: int|
                    0 <= j2 < j + 1 ==> (a(av[i as int]) ==> a(
                        square_var(n as int, cells@[j2].0 as int, cells@[j2].1 as int, #[trigger] vs[i as int][j2] as int),
                    ))) by {
                    assert(formula_sat(a, clauses_formula(c1)));
                    assert(av[i as int] == base + i);
                    assert(vs[i as int][j as int] == v);
                }
            }
            j = j + 1;
        }
        i = i + 1;
    }
    proof {
        assert forall|a: spec_fn(int) -> bool| #[trigger] formula_sat(a, clauses_formula(clauses@)) implies line_sum_ok(
            a,
            n as int,
            cells@,
            target as int,
        ) by {
            assert(some_true(a, av));
            let k = choose|k: int| 0 <= k < av.len() && #[trigger] a(av[k]);
            let vals = vs[k];
            assert(combo_ok(valid@[k]@, n * n, cells@.len() as int, target as int));
            assert forall|j: int| 0 <= j < cells@.len() implies a(
                square_var(n as int, cells@[j].0 as int, cells@[j].1 as int, #[trigger] vals[j] as int),
            ) by {
                assert(a(av[k]) ==> a(square_var(n as int, cells@[j].0 as int, cells@[j].1 as int, vs[k][j] as int)));
            }
        }
    }
    Some(clauses)
}

/// The magic constant `n(n²+1)/2`.
pub open spec fn magic_sum(n: int) -> int {
    n * (n * n + 1) / 2
}

/// The cells of a line: row `k` (`kind` 0), column `k` (1), the main
/// diagonal (2) or the anti-diagonal (3).
pub open spec fn line_cells(n: int, kind: int, k: int) -> Seq<(usize, usize)> {
    Seq::new(
        n as nat,
        |i: int|
            if kind == 0 {
                (k as usize, i as usize)
            } else if kind == 1 {
                (i as usize, k as usize)
            } else if kind == 2 {
                (i as usize, i as usize)
            } else {
                (i as usize, (n - 1 - i) as usize)
            },
    )
}

/// What the formula says of an assignment: a permutation of `1..=n²`
/// whose rows, columns and diagonals each take values adding up to the
/// magic constant.
pub open spec fn magic_encoding(a: spec_fn(int) -> bool, n: int) -> bool {
    &&& permutation_encoding(a, n)
    &&& forall|kind: int, k: int|
        0 <= kind < 4 && 0 <= k < n && (kind < 2 || k == 0) ==> line_sum_ok(a, n, #[trigger] line_cells(n, kind, k), magic_sum(n))
}

/// The cells of one line (see [`line_cells`]).
pub(crate) fn line_vec(n: usize, kind: usize, k: usize) -> (v: Vec<(usize, usize)>)
    requires
        kind < 4,
        k < n,
    ensures
        v@ == line_cells(n as int, kind as int, k as int),
        cells_in_grid(v@, n as int),
{
    let mut v: Vec<(usize, usize)> = Vec::new();
    let mut i: usize = 0;
    while i < n
        invariant
            kind < 4,
            k < n,
            i <= n,
            v@.len() == i,
            forall|j: int| 0 <= j < i ==> #[trigger] v@[j] == line_cells(n as int, kind as int, k as int)[j],
            forall|j: int| 0 <= j < i ==> (#[trigger] v@[j]).0 < n && v@[j].1 < n,
        decreases n - i,
    {
        let cell = if kind == 0 {
            (k, i)
        } else if kind == 1 {
            (i, k)
        } else if kind == 2 {
            (i, i)
        } else {
            (i, n - 1 - i)
        };
        v.push(cell);
        i = i + 1;
    }
    proof {
        assert(v@ =~= line_cells(n as int, kind as int, k as int));
    }
    v
}

/// The lines before (`kind0`, `k0`) (rows, then columns, then the two
/// diagonals) take values adding up to the magic constant.
pub open spec fn lines_part(a: spec_fn(int) -> bool, n: int, kind0: int, k0: int) -> bool {
    forall|kind: int, k: int|
        0 <= kind < 4 && 0 <= k < n && (kind < 2 || k == 0) && (kind < kind0 || (kind == kind0 && k < k0)) ==> line_sum_ok(
            a,
            n,
            #[trigger] line_cells(n, kind, k),
            magic_sum(n),
        )
}

/// Clauses whose every model places `1..=n²` as a magic square (see
/// [`magic_encoding`]).  `None` when the selector variables would run past
/// the largest variable number.
pub fn generate_magic_square_clauses(n: usize) -> (r: Option<Vec<Clause>>)
    requires
        n <= MAX_SIDE,
    ensures
        r matches Some(cs) ==> forall|a: spec_fn(int) -> bool| #[trigger]
            formula_sat(a, clauses_formula(cs@)) ==> magic_encoding(a, n as int),
{
    proof {
        lemma_side_bounds(n as int);
    }
    let n2 = n * n;
    proof {
        assert(n * (n2 + 1) <= 63 * 3970) by (nonlinear_arith)
            requires n <= 63, n2 <= 3969;
    }
    let magic = n * (n2 + 1) / 2;
    let mut clauses = generate_permutation_clauses(n);
    let mut next_aux: i32 = (n * n * n * n * n + 1) as i32;
    let mut kind: usize = 0;
    while kind < 4
        invariant
            n <= MAX_SIDE,
            magic == magic_sum(n as int),
            kind <= 4,
            next_aux >= 1,
            forall|a: spec_fn(int) -> bool| #[trigger] formula_sat(a, clauses_formula(clauses@)) ==> permutation_encoding(
                a,
                n as int,
            ) && lines_part(a, n as int, kind as int, 0),
        decreases 4 - kind,
    {
        let count = if kind < 2 { n } else if n > 0 { 1 } else { 0 };
        let mut k: usize = 0;
        while k < count
            invariant
                n <= MAX_SIDE,
                magic == magic_sum(n as int),
                kind < 4,
                count == if kind < 2 { n as int } else if n > 0 { 1 } else { 0 },
                k <= count,
                next_aux >= 1,
                forall|a: spec_fn(int) -> bool| #[trigger] formula_sat(a, clauses_formula(clauses@)) ==> permutation_encoding(
                    a,
                    n as int,
                ) && lines_part(a, n as int, kind as int, k as int),
            decreases count - k,
        {
            let cells = line_vec(n, kind, k);
            let ghost c0 = clauses@;
            match encode_sum_constraint(n, &cells, magic, &mut next_aux) {
                None => {
                    return None;
                },
                Some(more) => {
                    let mut more = more;
                    let ghost m0 = more@;
                    clauses.append(&mut more);
                    proof {
                        assert(clauses_formula(clauses@) =~= clauses_formula(c0) + clauses_formula(m0));
                        assert forall|a: spec_fn(int) -> bool| #[trigger] formula_sat(a, clauses_formula(clauses@)) implies permutation_encoding(
                            a,
                            n as int,
                        ) && lines_part(a, n as int, kind as int, k + 1) by {
                            crate::encode::lemma_formula_sat_append(a, clauses_formula(c0), clauses_formula(m0));
                            assert(line_sum_ok(a, n as int, line_cells(n as int, kind as int, k as int), magic_sum(n as int)));
                        }
                    }
                },
            }
            k = k + 1;
        }
        proof {
            assert forall|a: spec_fn(int) -> bool| #[trigger] lines_part(a, n as int, kind as int, count as int) implies lines_part(
                a,
                n as int,
                kind + 1,
                0,
            ) by {}
        }
        kind = kind + 1;
    }
    proof {
        assert forall|a: spec_fn(int) -> bool| #[trigger] formula_sat(a, clauses_formula(clauses@)) implies magic_encoding(a, n as int) by {
            assert(lines_part(a, n as int, 4, 0));
        }
    }
    Some(clauses)
}

/// The values along a line of the grid.
pub open spec fn line_values(g: Seq<Seq<usize>>, n: int, kind: int, k: int) -> Seq<usize> {
    Seq::new(n as nat, |i: int| g[line_cells(n, kind, k)[i].0 as int][line_cells(n, kind, k)[i].1 as int])
}

/// `g` is an `n` x `n` magic square: it holds `1..=n²` once each, and every
/// row, column and both diagonals add up to the magic constant.
pub open spec fn magic_ok(g: Seq<Seq<usize>>, n: int) -> bool {
    &&& g.len() == n
    &&& forall|r: int| 0 <= r < n ==> (#[trigger] g[r]).len() == n
    &&& forall|r: int, c: int| 0 <= r < n && 0 <= c < n ==> 1 <= #[trigger] g[r][c] <= n * n
    &&& forall|r1: int, c1: int, r2: int, c2: int|
        0 <= r1 < n && 0 <= c1 < n && 0 <= r2 < n && 0 <= c2 < n && (r1 != r2 || c1 != c2) ==> #[trigger] g[r1][c1]
            != #[trigger] g[r2][c2]
    &&& forall|kind: int, k: int|
        0 <= kind < 4 && 0 <= k < n && (kind < 2 || k == 0) ==> seq_sum(#[trigger] line_values(g, n, kind, k))
            == magic_sum(n)
}

proof fn lemma_cell_unique(a: spec_fn(int) -> bool, n: int, r: int, c: int, v1: int, v2: int)
    requires
        no_two_true(a, cell_vars(n, r, c)),
        1 <= v1 <= n * n,
        1 <= v2 <= n * n,
        a(square_var(n, r, c, v1)),
        a(square_var(n, r, c, v2)),
    ensures
        v1 == v2,
{
    let g = cell_vars(n, r, c);
    assert(g[v1 - 1] == square_var(n, r, c, v1));
    assert(g[v2 - 1] == square_var(n, r, c, v2));
    if v1 < v2 {
        assert(!(a(g[v1 - 1]) && a(g[v2 - 1])));
    } else if v2 < v1 {
        assert(!(a(g[v2 - 1]) && a(g[v1 - 1])));
    }
}

proof fn lemma_value_unique(a: spec_fn(int) -> bool, n: int, v: int, r1: int, c1: int, r2: int, c2: int)
    requires
        no_two_true(a, value_vars(n, v)),
        0 <= r1 < n,
        0 <= c1 < n,
        0 <= r2 < n,
        0 <= c2 < n,
        a(square_var(n, r1, c1, v)),
        a(square_var(n, r2, c2, v)),
    ensures
        r1 == r2 && c1 == c2,
{
    let g = value_vars(n, v);
    let k1 = r1 * n + c1;
    let k2 = r2 * n + c2;
    vstd::arithmetic::div_mod::lemma_fundamental_div_mod_converse(k1, n, r1, c1);
    vstd::arithmetic::div_mod::lemma_fundamental_div_mod_converse(k2, n, r2, c2);
    assert(0 <= k1 < n * n) by (nonlinear_arith)
        requires 0 <= r1 < n, 0 <= c1 < n, k1 == r1 * n + c1;
    assert(0 <= k2 < n * n) by (nonlinear_arith)
        requires 0 <= r2 < n, 0 <= c2 < n, k2 == r2 * n + c2;
    assert(g[k1] == square_var(n, r1, c1, v));
    assert(g[k2] == square_var(n, r2, c2, v));
    if k1 < k2 {
        assert(!(a(g[k1]) && a(g[k2])));
    } else if k2 < k1 {
        assert(!(a(g[k2]) && a(g[k1])));
    }
}

/// The grid read off an assignment that places the values is a magic
/// square when the assignment satisfies the encoding.
proof fn lemma_grid_magic(a: spec_fn(int) -> bool, n: int, g: Seq<Seq<usize>>)
    requires
        magic_encoding(a, n),
        g.len() == n,
        forall|r: int| 0 <= r < n ==> (#[trigger] g[r]).len() == n,
        forall|r: int, c: int| 0 <= r < n && 0 <= c < n ==> 1 <= #[trigger] g[r][c] <= n * n && a(
            square_var(n, r, c, g[r][c] as int),
        ),
    ensures
        magic_ok(g, n),
{
    assert forall|r1: int, c1: int, r2: int, c2: int|
        0 <= r1 < n && 0 <= c1 < n && 0 <= r2 < n && 0 <= c2 < n && (r1 != r2 || c1 != c2) implies #[trigger] g[r1][c1]
        != #[trigger] g[r2][c2] by {
        if g[r1][c1] == g[r2][c2] {
            let v = g[r1][c1] as int;
            assert(exactly_one(a, value_vars(n, v)));
            lemma_value_unique(a, n, v, r1, c1, r2, c2);
        }
    }
    assert forall|kind: int, k: int| 0 <= kind < 4 && 0 <= k < n && (kind < 2 || k == 0) implies seq_sum(
        #[trigger] line_values(g, n, kind, k),
    ) == magic_sum(n) by {
        let cells = line_cells(n, kind, k);
        assert(line_sum_ok(a, n, cells, magic_sum(n)));
        let vals = choose|vals: Seq<usize>|
            #[trigger] combo_ok(vals, n * n, cells.len() as int, magic_sum(n)) && forall|j: int|
                0 <= j < cells.len() ==> a(square_var(n, cells[j].0 as int, cells[j].1 as int, #[trigger] vals[j] as int));
        assert forall|i: int| 0 <= i < n implies #[trigger] line_values(g, n, kind, k)[i] == vals[i] by {
            let r = cells[i].0 as int;
            let c = cells[i].1 as int;
            assert(0 <= r < n && 0 <= c < n);
            assert(a(square_var(n, r, c, vals[i] as int)));
            assert(a(square_var(n, r, c, g[r][c] as int)));
            assert(exactly_one(a, cell_vars(n, r, c)));
            lemma_cell_unique(a, n, r, c, vals[i] as int, g[r][c] as int);
        }
        assert(line_values(g, n, kind, k) =~= vals);
    }
}

/// A magic square found by trying every grid, or `None` when there is none.
fn magic_by_search(n: usize) -> (r: Option<Vec<Vec<usize>>>)
    requires
        n <= MAX_SIDE,
    ensures
        r matches Some(g) ==> magic_ok(g@.map_values(|row: Vec<usize>| row@), n as int),
        r is None ==> forall|g: Seq<Seq<usize>>| !#[trigger] magic_ok(g, n as int),
{
    let mut cur: Vec<usize> = Vec::new();
    match search_magic(n, &mut cur) {
        Some(t) => Some(unflatten(n, &t)),
        None => {
            proof {
                assert forall|g: Seq<Seq<usize>>| !#[trigger] magic_ok(g, n as int) by {
                    if magic_ok(g, n as int) {
                        lemma_magic_flat(g, n as int);
                        let t = Seq::new((n * n) as nat, |i: int| g[i / (n as int)][i % (n as int)]);
                        assert(t.subrange(0, 0) =~= Seq::<usize>::empty());
                    }
                }
            }
            None
        },
    }
}

/// Searches for an `n` x `n` magic square with the solver.  `Ok(Some(grid))`
/// is one; `Ok(None)` means there is none.  When the solver finds no model,
/// or the problem exceeds its limits, every grid is tried instead.
pub fn solve_magic_square(n: usize) -> (r: Result<Option<Vec<Vec<usize>>>, SolverError>)
    requires
        n <= MAX_SIDE,
    ensures
        r matches Ok(Some(g)) ==> magic_ok(g@.map_values(|row: Vec<usize>| row@), n as int),
        r matches Ok(None) ==> forall|g: Seq<Seq<usize>>| !#[trigger] magic_ok(g, n as int),
        r is Ok,
{
    proof {
        lemma_side_bounds(n as int);
    }
    let clauses = match generate_magic_square_clauses(n) {
        Some(c) => c,
        None => {
            return Ok(magic_by_search(n));
        },
    };
    let ghost cs = clauses@;
    let ghost f = clauses_formula(cs);
    if !solver_input_fits(&clauses) {
        return Ok(magic_by_search(n));
    }
    proof {
        lemma_drop_empty_id(f);
    }
    let mut solver = CDCLSolver::new(clauses);
    proof {
        assert(solver.formula() =~= f);
    }
    match solver.solve() {
        Err(_) => {
            return Ok(magic_by_search(n));
        },
        Ok(false) => {
            return Ok(magic_by_search(n));
        },
        Ok(true) => {},
    }
    let ghost m = solver.model();
    let ghost nv = solver.nvars();
    let ghost a = |x: int| x <= nv && m(x);
    proof {
        lemma_sat_agree_below_max(cs, m, a);
        assert(magic_encoding(a, n as int));
    }
    let n2 = n * n;
    let mut grid: Vec<Vec<usize>> = Vec::new();
    let mut r: usize = 0;
    while r < n
        invariant
            n <= MAX_SIDE,
            n2 == n * n,
            n * n <= 3969,
            n * n * n <= 250047,
            n * n * n * n <= 15752961,
            solver.inv(),
            m == solver.model(),
            nv == solver.nvars(),
            a == (|x: int| x <= nv && m(x)),
            magic_encoding(a, n as int),
            r <= n,
            grid@.len() == r,
            forall|r2: int| 0 <= r2 < r ==> (#[trigger] grid@[r2])@.len() == n,
            forall|r2: int, c2: int| 0 <= r2 < r && 0 <= c2 < n ==> 1 <= #[trigger] grid@[r2]@[c2] <= n * n && a(
                square_var(n as int, r2, c2, grid@[r2]@[c2] as int),
            ),
        decreases n - r,
    {
        let mut row: Vec<usize> = Vec::new();
        let mut c: usize = 0;
        while c < n
            invariant
                n <= MAX_SIDE,
                n2 == n * n,
                n * n <= 3969,
                n * n * n <= 250047,
                n * n * n * n <= 15752961,
                solver.inv(),
                m == solver.model(),
                nv == solver.nvars(),
                a == (|x: int| x <= nv && m(x)),
                magic_encoding(a, n as int),
                r < n,
                c <= n,
                row@.len() == c,
                forall|c2: int| 0 <= c2 < c ==> 1 <= #[trigger] row@[c2] <= n * n && a(
                    square_var(n as int, r as int, c2, row@[c2] as int),
                ),
            decreases n - c,
        {
            let mut v: usize = 1;
            let mut found: usize = 0;
            while v <= n2
                invariant
                    n <= MAX_SIDE,
                    n2 == n * n,
                    n * n <= 3969,
                    n * n * n <= 250047,
                    n * n * n * n <= 15752961,
                    solver.inv(),
                    m == solver.model(),
                    nv == solver.nvars(),
                    a == (|x: int| x <= nv && m(x)),
                    r < n,
                    c < n,
                    1 <= v <= n2 + 1,
                    found == 0 ==> forall|v2: int| 1 <= v2 < v ==> !#[trigger] a(square_var(n as int, r as int, c as int, v2)),
                    found != 0 ==> 1 <= found <= n * n && a(square_var(n as int, r as int, c as int, found as int)),
                decreases n2 + 1 - v,
            {
                proof {
                    lemma_square_var_range(n as int, r as int, c as int, v as int);
                }
                let x = (r * n * n * n + c * n * n + v) as i32;
                if found == 0 && solver.get_value(x) == Some(true) {
                    found = v;
                }
                v = v + 1;
            }
            proof {
                if found == 0 {
                    let g = cell_vars(n as int, r as int, c as int);
                    assert(exactly_one(a, g));
                    let j = choose|j: int| 0 <= j < g.len() && #[trigger] a(g[j]);
                    assert(a(square_var(n as int, r as int, c as int, j + 1)));
                }
            }
            row.push(found);
            c = c + 1;
        }
        grid.push(row);
        r = r + 1;
    }
    proof {
        let g = grid@.map_values(|row: Vec<usize>| row@);
        assert forall|r2: int, c2: int| 0 <= r2 < n && 0 <= c2 < n implies 1 <= #[trigger] g[r2][c2] <= n * n && a(
            square_var(n as int, r2, c2, g[r2][c2] as int),
        ) by {
            assert(g[r2] == grid@[r2]@);
        }
        lemma_grid_magic(a, n as int, g);
    }
    Ok(Some(grid))
}

} // verus!
