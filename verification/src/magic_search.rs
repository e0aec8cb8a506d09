//! Exhaustive search for magic squares: every list of `n²` values in
//! `1..=n²` is tried, read row by row as a grid.
use vstd::prelude::*;
use crate::magic_square::{cells_in_grid, line_cells, line_values, line_vec, magic_ok, magic_sum, seq_sum, MAX_SIDE, lemma_side_bounds};

verus! {

/// The `n` x `n` grid whose cells, row by row, are the entries of `s`.
pub open spec fn flat_grid(s: Seq<usize>, n: int) -> Seq<Seq<usize>> {
    Seq::new(n as nat, |r: int| Seq::new(n as nat, |c: int| s[r * n + c]))
}

/// Cell (`r`, `c`) of an `n`-grid is entry `r·n + c` of its row-by-row list.
proof fn lemma_flat_index(n: int, r: int, c: int)
    requires
        0 <= r < n,
        0 <= c < n,
    ensures
        0 <= r * n + c < n * n,
        (r * n + c) / n == r,
        (r * n + c) % n == c,
{
    assert(0 <= r * n + c < n * n) by (nonlinear_arith)
        requires 0 <= r < n, 0 <= c < n;
    vstd::arithmetic::div_mod::lemma_fundamental_div_mod_converse(r * n + c, n, r, c);
}

/// Every entry of a row-by-row list of an `n`-grid names a cell.
proof fn lemma_flat_cell(n: int, i: int)
    requires
        0 <= i < n * n,
        n > 0,
    ensures
        0 <= i / n < n,
        0 <= i % n < n,
        (i / n) * n + i % n == i,
{
    vstd::arithmetic::div_mod::lemma_fundamental_div_mod(i, n);
    assert(0 <= i / n < n) by (nonlinear_arith)
        requires 0 <= i < n * n, n > 0, i == n * (i / n) + i % n, 0 <= i % n < n;
    assert((i / n) * n == n * (i / n)) by (nonlinear_arith);
}

/// Two equal entries of a row-by-row list are two cells of the grid with
/// the same value.
proof fn lemma_flat_dup(s: Seq<usize>, n: int, p: int, q: int)
    requires
        0 <= n,
        s.len() == n * n,
        0 <= p < n * n,
        0 <= q < n * n,
        p != q,
        s[p] == s[q],
    ensures
        !magic_ok(flat_grid(s, n), n),
{
    let g = flat_grid(s, n);
    assert(n > 0) by (nonlinear_arith)
        requires 0 <= p < n * n, 0 <= n;
    lemma_flat_cell(n, p);
    lemma_flat_cell(n, q);
    let r1 = p / n;
    let c1 = p % n;
    let r2 = q / n;
    let c2 = q % n;
    assert(g[r1][c1] == s[r1 * n + c1]);
    assert(g[r2][c2] == s[r2 * n + c2]);
    assert(r1 != r2 || c1 != c2);
}

/// Distinct entries in a row-by-row list give distinct cell values.
proof fn lemma_flat_distinct(s: Seq<usize>, n: int)
    requires
        0 <= n,
        s.len() == n * n,
        forall|i: int, j: int| 0 <= i < s.len() && 0 <= j < s.len() && i != j ==> #[trigger] s[i] != #[trigger] s[j],
    ensures
        forall|r1: int, c1: int, r2: int, c2: int|
            0 <= r1 < n && 0 <= c1 < n && 0 <= r2 < n && 0 <= c2 < n && (r1 != r2 || c1 != c2)
                ==> #[trigger] flat_grid(s, n)[r1][c1] != #[trigger] flat_grid(s, n)[r2][c2],
{
    assert forall|r1: int, c1: int, r2: int, c2: int|
        0 <= r1 < n && 0 <= c1 < n && 0 <= r2 < n && 0 <= c2 < n && (r1 != r2 || c1 != c2)
            implies #[trigger] flat_grid(s, n)[r1][c1] != #[trigger] flat_grid(s, n)[r2][c2] by {
        lemma_flat_index(n, r1, c1);
        lemma_flat_index(n, r2, c2);
        let i = r1 * n + c1;
        let j = r2 * n + c2;
        if i == j {
            assert(i / n == j / n && i % n == j % n);
        }
        assert(s[i] != s[j]);
    }
}

/// Whether the grid listed row by row in `s` is a magic square.
fn flat_is_magic(n: usize, s: &Vec<usize>) -> (b: bool)
    requires
        n <= MAX_SIDE,
        s@.len() == n * n,
        forall|i: int| 0 <= i < s@.len() ==> 1 <= #[trigger] s@[i] <= n * n,
    ensures
        b == magic_ok(flat_grid(s@, n as int), n as int),
{
    proof {
        lemma_side_bounds(n as int);
    }
    let ghost g = flat_grid(s@, n as int);
    let ghost ni = n as int;
    proof {
        assert forall|r: int, c: int| 0 <= r < ni && 0 <= c < ni implies 1 <= #[trigger] g[r][c] <= ni * ni by {
            lemma_flat_index(ni, r, c);
        }
    }
    let mut p: usize = 0;
    while p < n * n
        invariant
            n <= MAX_SIDE,
            n * n <= 3969,
            s@.len() == n * n,
            p <= n * n,
            forall|i: int, j: int| 0 <= i < p && 0 <= j < s@.len() && i != j ==> #[trigger] s@[i] != #[trigger] s@[j],
        decreases n * n - p,
    {
        let mut q: usize = 0;
        while q < n * n
            invariant
                n <= MAX_SIDE,
                n * n <= 3969,
                s@.len() == n * n,
                p < n * n,
                q <= n * n,
                forall|i: int| 0 <= i < q && i != p ==> s@[p as int] != #[trigger] s@[i],
            decreases n * n - q,
        {
            if q != p && s[p] == s[q] {
                proof {
                    lemma_flat_dup(s@, n as int, p as int, q as int);
                }
                return false;
            }
            q = q + 1;
        }
        p = p + 1;
    }
    proof {
        lemma_flat_distinct(s@, n as int);
    }
    proof {
        assert(n * (n * n + 1) <= 63 * 3970) by (nonlinear_arith)
            requires n <= 63, n * n <= 3969;
    }
    let target = n * (n * n + 1) / 2;
    let mut kind: usize = 0;
    while kind < 4
        invariant
            n <= MAX_SIDE,
            n * n <= 3969,
            s@.len() == n * n,
            forall|i: int| 0 <= i < s@.len() ==> 1 <= #[trigger] s@[i] <= n * n,
            g == flat_grid(s@, n as int),
            ni == n as int,
            target == magic_sum(ni),
            kind <= 4,
            forall|kd: int, k: int|
                0 <= kd < kind && 0 <= k < ni && (kd < 2 || k == 0) ==> seq_sum(#[trigger] line_values(g, ni, kd, k))
                    == magic_sum(ni),
        decreases 4 - kind,
    {
        let count = if kind < 2 { n } else if n > 0 { 1 } else { 0 };
        let mut k: usize = 0;
        while k < count
            invariant
                n <= MAX_SIDE,
                n * n <= 3969,
                s@.len() == n * n,
                forall|i: int| 0 <= i < s@.len() ==> 1 <= #[trigger] s@[i] <= n * n,
                g == flat_grid(s@, n as int),
                ni == n as int,
                target == magic_sum(ni),
                kind < 4,
                count == if kind < 2 { ni } else if ni > 0 { 1 } else { 0 },
                k <= count,
                forall|kd: int, k2: int|
                    0 <= kd < kind && 0 <= k2 < ni && (kd < 2 || k2 == 0) ==> seq_sum(#[trigger] line_values(g, ni, kd, k2))
                        == magic_sum(ni),
                forall|k2: int| 0 <= k2 < k ==> seq_sum(#[trigger] line_values(g, ni, kind as int, k2)) == magic_sum(ni),
            decreases count - k,
        {
            let cells = line_vec(n, kind, k);
            let ghost lv = line_values(g, ni, kind as int, k as int);
            let mut sum: usize = 0;
            let mut i: usize = 0;
            while i < n
                invariant
                    n <= MAX_SIDE,
                    n * n <= 3969,
                    s@.len() == n * n,
                    forall|i2: int| 0 <= i2 < s@.len() ==> 1 <= #[trigger] s@[i2] <= n * n,
                    g == flat_grid(s@, n as int),
                    ni == n as int,
                    k < n,
                    cells@ == line_cells(ni, kind as int, k as int),
                    cells_in_grid(cells@, ni),
                    lv == line_values(g, ni, kind as int, k as int),
                    i <= n,
                    sum == seq_sum(lv.take(i as int)),
                    sum <= i * 3969,
                decreases n - i,
            {
                let (r, c) = cells[i];
                proof {
                    assert(cells@[i as int].0 < n && cells@[i as int].1 < n);
                    lemma_flat_index(ni, r as int, c as int);
                    assert(lv[i as int] == g[r as int][c as int]);
                    assert(lv.take(i + 1).drop_last() =~= lv.take(i as int));
                }
                sum = sum + s[r * n + c];
                i = i + 1;
            }
            proof {
                assert(lv.take(ni) =~= lv);
            }
            if sum != target {
                return false;
            }
            k = k + 1;
        }
        kind = kind + 1;
    }
    true
}

/// Tries every list of `n²` values in `1..=n²` that starts with `cur`,
/// returning one that is a magic square read row by row.
pub fn search_magic(n: usize, cur: &mut Vec<usize>) -> (r: Option<Vec<usize>>)
    requires
        n <= MAX_SIDE,
        old(cur)@.len() <= n * n,
        forall|i: int| 0 <= i < old(cur)@.len() ==> 1 <= #[trigger] old(cur)@[i] <= n * n,
    ensures
        final(cur)@ == old(cur)@,
        r matches Some(t) ==> t@.len() == n * n && magic_ok(flat_grid(t@, n as int), n as int),
        r is None ==> forall|t: Seq<usize>|
            t.len() == n * n && t.subrange(0, old(cur)@.len() as int) == old(cur)@ && (forall|i: int|
                0 <= i < t.len() ==> 1 <= #[trigger] t[i] <= n * n) ==> !#[trigger] magic_ok(flat_grid(t, n as int), n as int),
    decreases n * n - old(cur)@.len(),
{
    proof {
        lemma_side_bounds(n as int);
    }
    let k = cur.len();
    if k == n * n {
        if flat_is_magic(n, cur) {
            let mut out: Vec<usize> = Vec::new();
            let mut i: usize = 0;
            while i < k
                invariant
                    k == cur@.len(),
                    i <= k,
                    out@ == cur@.subrange(0, i as int),
                decreases k - i,
            {
                out.push(cur[i]);
                i = i + 1;
                proof {
                    assert(out@ =~= cur@.subrange(0, i as int));
                }
            }
            proof {
                assert(out@ =~= cur@);
            }
            return Some(out);
        }
        proof {
            assert forall|t: Seq<usize>|
                t.len() == n * n && t.subrange(0, k as int) == cur@ && (forall|i: int|
                    0 <= i < t.len() ==> 1 <= #[trigger] t[i] <= n * n) implies !#[trigger] magic_ok(flat_grid(t, n as int), n as int) by {
                assert(t =~= t.subrange(0, k as int));
            }
        }
        return None;
    }
    let ghost c0 = cur@;
    let mut v: usize = 1;
    while v <= n * n
        invariant
            n <= MAX_SIDE,
            n * n <= 3969,
            cur@ == c0,
            c0 == old(cur)@,
            k == c0.len(),
            k < n * n,
            forall|i: int| 0 <= i < c0.len() ==> 1 <= #[trigger] c0[i] <= n * n,
            1 <= v <= n * n + 1,
            forall|t: Seq<usize>|
                t.len() == n * n && t.subrange(0, k as int) == c0 && 1 <= t[k as int] < v && (forall|i: int|
                    0 <= i < t.len() ==> 1 <= #[trigger] t[i] <= n * n) ==> !#[trigger] magic_ok(flat_grid(t, n as int), n as int),
        decreases n * n + 1 - v,
    {
        cur.push(v);
        proof {
            assert(cur@.len() == k + 1);
            assert(n * n - cur@.len() < n * n - c0.len());
        }
        let r = search_magic(n, cur);
        cur.pop();
        proof {
            assert(cur@ =~= c0);
        }
        match r {
            Some(t) => {
                return Some(t);
            },
            None => {},
        }
        proof {
            assert forall|t: Seq<usize>|
                t.len() == n * n && t.subrange(0, k as int) == c0 && 1 <= t[k as int] < v + 1 && (forall|i: int|
                    0 <= i < t.len() ==> 1 <= #[trigger] t[i] <= n * n) implies !#[trigger] magic_ok(flat_grid(t, n as int), n as int) by {
                if t[k as int] == v {
                    assert(t.subrange(0, k + 1) =~= c0.push(v));
                }
            }
        }
        v = v + 1;
    }
    proof {
        assert forall|t: Seq<usize>|
            t.len() == n * n && t.subrange(0, k as int) == c0 && (forall|i: int|
                0 <= i < t.len() ==> 1 <= #[trigger] t[i] <= n * n) implies !#[trigger] magic_ok(flat_grid(t, n as int), n as int) by {
            assert(1 <= t[k as int] <= n * n);
        }
    }
    None
}

/// The grid listed row by row in `t`, as rows.
pub fn unflatten(n: usize, t: &Vec<usize>) -> (g: Vec<Vec<usize>>)
    requires
        n <= MAX_SIDE,
        t@.len() == n * n,
    ensures
        g@.map_values(|row: Vec<usize>| row@) == flat_grid(t@, n as int),
{
    proof {
        lemma_side_bounds(n as int);
    }
    let mut g: Vec<Vec<usize>> = Vec::new();
    let mut r: usize = 0;
    while r < n
        invariant
            n <= MAX_SIDE,
            n * n <= 3969,
            t@.len() == n * n,
            r <= n,
            g@.len() == r,
            forall|r2: int| 0 <= r2 < r ==> (#[trigger] g@[r2])@ == flat_grid(t@, n as int)[r2],
        decreases n - r,
    {
        let mut row: Vec<usize> = Vec::new();
        let mut c: usize = 0;
        while c < n
            invariant
                n <= MAX_SIDE,
                n * n <= 3969,
                t@.len() == n * n,
                r < n,
                c <= n,
                row@.len() == c,
                forall|c2: int| 0 <= c2 < c ==> #[trigger] row@[c2] == t@[r * n + c2],
            decreases n - c,
        {
            proof {
                lemma_flat_index(n as int, r as int, c as int);
            }
            row.push(t[r * n + c]);
            c = c + 1;
        }
        proof {
            assert(row@ =~= flat_grid(t@, n as int)[r as int]);
        }
        g.push(row);
        r = r + 1;
    }
    proof {
        assert(g@.map_values(|row: Vec<usize>| row@) =~= flat_grid(t@, n as int));
    }
    g
}

/// Every magic square, listed row by row, is a list of `n²` values in
/// `1..=n²` that reads back as it.
pub proof fn lemma_magic_flat(g: Seq<Seq<usize>>, n: int)
    requires
        0 <= n <= MAX_SIDE,
        magic_ok(g, n),
    ensures
        ({
            let t = Seq::new((n * n) as nat, |i: int| g[i / n][i % n]);
            &&& t.len() == n * n
            &&& forall|i: int| 0 <= i < t.len() ==> 1 <= #[trigger] t[i] <= n * n
            &&& flat_grid(t, n) == g
        }),
{
    lemma_side_bounds(n);
    let t = Seq::new((n * n) as nat, |i: int| g[i / n][i % n]);
    assert forall|i: int| 0 <= i < t.len() implies 1 <= #[trigger] t[i] <= n * n by {
        lemma_flat_cell(n, i);
    }
    assert forall|r: int| 0 <= r < n implies #[trigger] flat_grid(t, n)[r] == g[r] by {
        assert forall|c: int| 0 <= c < n implies flat_grid(t, n)[r][c] == g[r][c] by {
            lemma_flat_index(n, r, c);
        }
        assert(flat_grid(t, n)[r] =~= g[r]);
    }
    assert(flat_grid(t, n) =~= g);
}

} // verus!
