//! Preprocessing of CNF formulas given as clauses of signed literals: unit
//! propagation, pure literals, equivalent-literal substitution, subsumption,
//! self-subsumption, failed-literal probing and bounded variable elimination.
//!
//! Variables fixed along the way are recorded in an assignment (1 true,
//! -1 false, 0 free); the clauses handed back mention free variables only.
//! When a contradiction is found the result is the formula `x1 ∧ ¬x1`.
use vstd::prelude::*;
use crate::solver::{empty_lists, vec_of};
use crate::sorting::{sort_by_key, sorted_by_key};
use crate::literal::{clause_sat, formula_sat, int_clauses, ints, lit_true, satisfiable};
use crate::encode::lemma_formula_sat_push;

verus! {

/// A literal whose variable is at most `n` (the literal 0 included).
pub open spec fn lit_within(l: int, n: int) -> bool {
    -n <= l <= n
}

/// Every literal of every clause is within `n`.
pub open spec fn clauses_within(cs: Seq<Vec<i32>>, n: int) -> bool {
    forall|i: int, k: int| 0 <= i < cs.len() && 0 <= k < cs[i]@.len() ==> lit_within(#[trigger] cs[i]@[k] as int, n)
}

/// Inputs the preprocessor accepts: literals within the variable count, and
/// a variable count small enough for its tables.
pub open spec fn preprocess_input_ok(cs: Seq<Vec<i32>>, num_vars: usize) -> bool {
    &&& num_vars < 0x3fff_fff0
    &&& clauses_within(cs, num_vars as int)
}

/// Whether the preprocessor accepts the clauses with `num_vars` variables.
pub fn preprocess_input_check(clauses: &Vec<Vec<i32>>, num_vars: usize) -> (b: bool)
    ensures
        b == preprocess_input_ok(clauses@, num_vars),
{
    if num_vars >= 0x3fff_fff0 {
        return false;
    }
    let n = num_vars as i32;
    let mut i: usize = 0;
    while i < clauses.len()
        invariant
            num_vars < 0x3fff_fff0,
            n == num_vars,
            i <= clauses@.len(),
            forall|a: int, k: int| 0 <= a < i && 0 <= k < clauses@[a]@.len() ==> lit_within(
                #[trigger] clauses@[a]@[k] as int,
                num_vars as int,
            ),
        decreases clauses@.len() - i,
    {
        let c = &clauses[i];
        let mut k: usize = 0;
        while k < c.len()
            invariant
                num_vars < 0x3fff_fff0,
                n == num_vars,
                i < clauses@.len(),
                c@ == clauses@[i as int]@,
                k <= c@.len(),
                forall|m: int| 0 <= m < k ==> lit_within(#[trigger] c@[m] as int, num_vars as int),
            decreases c@.len() - k,
        {
            let l = c[k];
            if l < -n || l > n {
                return false;
            }
            k = k + 1;
        }
        i = i + 1;
    }
    true
}

/// Variable of a signed literal.
pub open spec fn lvar(l: int) -> int {
    if l < 0 {
        -l
    } else {
        l
    }
}

/// The literals of `s` whose variable is free in `a`, in order.
pub open spec fn free_lits(s: Seq<i32>, a: Seq<i8>) -> Seq<i32>
    decreases s.len(),
{
    if s.len() == 0 {
        s
    } else {
        let rest = free_lits(s.drop_last(), a);
        if a[lvar(s.last() as int)] == 0 {
            rest.push(s.last())
        } else {
            rest
        }
    }
}

/// Number of free variables (zero entries) of an assignment.
pub open spec fn free_count(s: Seq<i8>) -> nat
    decreases s.len(),
{
    if s.len() == 0 {
        0
    } else {
        free_count(s.drop_last()) + if s.last() == 0 {
            1nat
        } else {
            0nat
        }
    }
}

/// Fixing a free variable lowers the count of free variables by one; setting
/// a fixed one to another non-zero value keeps it.
pub proof fn lemma_free_count_update(s: Seq<i8>, i: int, x: i8)
    requires
        0 <= i < s.len(),
        x != 0,
    ensures
        s[i] == 0 ==> free_count(s.update(i, x)) + 1 == free_count(s),
        s[i] != 0 ==> free_count(s.update(i, x)) == free_count(s),
    decreases s.len(),
{
    let t = s.update(i, x);
    if i < s.len() - 1 {
        lemma_free_count_update(s.drop_last(), i, x);
        assert(t.drop_last() =~= s.drop_last().update(i, x));
    } else {
        assert(t.drop_last() =~= s.drop_last());
    }
}

/// No clause holds the literal 0.
pub open spec fn no_zero_lits(cs: Seq<Vec<i32>>) -> bool {
    forall|i: int, k: int| 0 <= i < cs.len() && 0 <= k < cs[i]@.len() ==> #[trigger] cs[i]@[k] != 0
}

/// The literal is true under the partial assignment.
pub open spec fn true_under(asg: Seq<i8>, l: int) -> bool {
    (l > 0 && asg[lvar(l)] == 1) || (l < 0 && asg[lvar(l)] == -1)
}

/// The literal is false under the partial assignment.
pub open spec fn false_under(asg: Seq<i8>, l: int) -> bool {
    (l > 0 && asg[lvar(l)] == -1) || (l < 0 && asg[lvar(l)] == 1)
}

/// The total assignment `a` gives every fixed variable its fixed value.
pub open spec fn agrees(a: spec_fn(int) -> bool, asg: Seq<i8>) -> bool {
    forall|v: int| 1 <= v < asg.len() ==> (#[trigger] asg[v] == 1 ==> a(v)) && (asg[v] == -1 ==> !a(v))
}

/// `a` makes a literal of `c` true.
pub open spec fn vec_sat(a: spec_fn(int) -> bool, c: Seq<i32>) -> bool {
    exists|k: int| 0 <= k < c.len() && lit_true(a, #[trigger] c[k] as int)
}

/// `a` satisfies every clause that is not deleted.
pub open spec fn live_sat(a: spec_fn(int) -> bool, cs: Seq<Vec<i32>>, deleted: Seq<bool>) -> bool {
    forall|i: int| 0 <= i < cs.len() && !deleted[i] ==> #[trigger] vec_sat(a, cs[i]@)
}

/// A literal fixed true (false) is true (false) under an agreeing assignment.
pub proof fn lemma_agrees_lit(a: spec_fn(int) -> bool, asg: Seq<i8>, l: int)
    requires
        agrees(a, asg),
        l != 0,
        lvar(l) < asg.len(),
    ensures
        true_under(asg, l) ==> lit_true(a, l),
        false_under(asg, l) ==> !lit_true(a, l),
{
    assert(asg[lvar(l)] == asg[lvar(l)]);
}

/// A clause with no literal fixed true whose free literals all occur in a
/// second clause: an agreeing assignment that satisfies the first
/// satisfies the second.
pub proof fn lemma_subsumed_sat(a: spec_fn(int) -> bool, c: Seq<i32>, d: Seq<i32>, asg: Seq<i8>, n: int)
    requires
        agrees(a, asg),
        asg.len() == n + 1,
        forall|k: int| 0 <= k < c.len() ==> #[trigger] c[k] != 0 && lit_within(c[k] as int, n),
        !(exists|k: int|
            0 <= k < c.len() && {
                let l = #[trigger] c[k];
                (l > 0 && asg[lvar(l as int)] == 1) || (l < 0 && asg[lvar(l as int)] == -1)
            }),
        forall|v: int| 0 <= v < asg.len() ==> -1 <= #[trigger] asg[v] <= 1,
        forall|j: int| 0 <= j < free_lits(c, asg).len() ==> d.contains(#[trigger] free_lits(c, asg)[j]),
        vec_sat(a, c),
    ensures
        vec_sat(a, d),
{
    let k = choose|k: int| 0 <= k < c.len() && lit_true(a, #[trigger] c[k] as int);
    let l = c[k];
    assert(lit_within(l as int, n));
    if asg[lvar(l as int)] != 0 {
        assert(!((l > 0 && asg[lvar(l as int)] == 1) || (l < 0 && asg[lvar(l as int)] == -1)));
        assert(false_under(asg, l as int));
        lemma_agrees_lit(a, asg, l as int);
    }
    assert(c.contains(l));
    lemma_free_lits_members(c, asg, l);
    let f = free_lits(c, asg);
    let j = choose|j: int| 0 <= j < f.len() && f[j] == l;
    assert(d.contains(f[j]));
    let i = choose|i: int| 0 <= i < d.len() && d[i] == l;
    assert(lit_true(a, d[i] as int));
}

/// The free literals of a clause are literals of it, and every literal of
/// it with a free variable is among them.
pub proof fn lemma_free_lits_members(c: Seq<i32>, asg: Seq<i8>, l: i32)
    ensures
        free_lits(c, asg).contains(l) ==> c.contains(l),
        c.contains(l) && asg[lvar(l as int)] == 0 ==> free_lits(c, asg).contains(l),
    decreases c.len(),
{
    if c.len() > 0 {
        let d = c.drop_last();
        lemma_free_lits_members(d, asg, l);
        let rest = free_lits(d, asg);
        if free_lits(c, asg).contains(l) {
            let k = choose|k: int| 0 <= k < free_lits(c, asg).len() && free_lits(c, asg)[k] == l;
            if k < rest.len() {
                assert(rest[k] == l);
                let j = choose|j: int| 0 <= j < d.len() && d[j] == l;
                assert(c[j] == l);
            } else {
                assert(c[c.len() - 1] == l);
            }
        }
        if c.contains(l) && asg[lvar(l as int)] == 0 {
            let j = choose|j: int| 0 <= j < c.len() && c[j] == l;
            if j < c.len() - 1 {
                assert(d[j] == l);
                let k = choose|k: int| 0 <= k < rest.len() && rest[k] == l;
                assert(free_lits(c, asg)[k] == l);
            } else {
                assert(free_lits(c, asg) == rest.push(l));
                assert(free_lits(c, asg)[rest.len() as int] == l);
            }
        }
    }
}

/// Under an agreeing assignment, a clause with no literal fixed true holds
/// exactly when its free literals do.
pub proof fn lemma_free_lits_sat(a: spec_fn(int) -> bool, c: Seq<i32>, asg: Seq<i8>)
    requires
        agrees(a, asg),
        forall|k: int| 0 <= k < c.len() ==> #[trigger] c[k] != 0 && lvar(c[k] as int) < asg.len(),
        forall|k: int| 0 <= k < c.len() ==> !true_under(asg, #[trigger] c[k] as int),
        forall|v: int| 0 <= v < asg.len() ==> -1 <= #[trigger] asg[v] <= 1,
    ensures
        vec_sat(a, c) <==> clause_sat(a, ints(free_lits(c, asg))),
    decreases c.len(),
{
    if c.len() == 0 {
        assert(ints(free_lits(c, asg)).len() == 0);
    } else {
        let d = c.drop_last();
        let l = c.last();
        assert(forall|k: int| 0 <= k < d.len() ==> d[k] == c[k]);
        lemma_free_lits_sat(a, d, asg);
        let rest = free_lits(d, asg);
        assert(c[c.len() - 1] == l);
        assert(!true_under(asg, l as int));
        if vec_sat(a, c) {
            let k = choose|k: int| 0 <= k < c.len() && lit_true(a, #[trigger] c[k] as int);
            if k < c.len() - 1 {
                assert(d[k] == c[k]);
                assert(vec_sat(a, d));
            } else if asg[lvar(l as int)] != 0 {
                assert(false_under(asg, l as int));
                lemma_agrees_lit(a, asg, l as int);
            }
        }
        if asg[lvar(l as int)] == 0 {
            let f = ints(rest.push(l));
            assert(free_lits(c, asg) == rest.push(l));
            if clause_sat(a, f) {
                let k = choose|k: int| 0 <= k < f.len() && lit_true(a, #[trigger] f[k]);
                if k < rest.len() {
                    assert(ints(rest)[k] == f[k]);
                    assert(clause_sat(a, ints(rest)));
                    let j = choose|j: int| 0 <= j < d.len() && lit_true(a, #[trigger] d[j] as int);
                    assert(c[j] == d[j]);
                } else {
                    assert(lit_true(a, c[c.len() - 1] as int));
                }
            }
            if vec_sat(a, c) {
                let k = choose|k: int| 0 <= k < c.len() && lit_true(a, #[trigger] c[k] as int);
                if k < c.len() - 1 {
                    assert(d[k] == c[k]);
                    let j = choose|j: int| 0 <= j < ints(rest).len() && lit_true(a, #[trigger] ints(rest)[j]);
                    assert(f[j] == ints(rest)[j]);
                } else {
                    assert(f[rest.len() as int] == l as int);
                }
            }
        } else {
            assert(free_lits(c, asg) == rest);
            if vec_sat(a, d) {
                let j = choose|j: int| 0 <= j < d.len() && lit_true(a, #[trigger] d[j] as int);
                assert(c[j] == d[j]);
            }
        }
    }
}

/// Changing an assignment on fixed variables only keeps the truth of a clause
/// of free literals.
pub proof fn lemma_free_clause_same(a: spec_fn(int) -> bool, b: spec_fn(int) -> bool, c: Seq<i32>, asg: Seq<i8>)
    requires
        forall|k: int| 0 <= k < c.len() ==> 0 <= lvar(#[trigger] c[k] as int) < asg.len() && asg[lvar(c[k] as int)] == 0,
        forall|v: int| 0 <= v < asg.len() && asg[v] == 0 ==> a(v) == b(v),
    ensures
        clause_sat(a, ints(c)) <==> clause_sat(b, ints(c)),
{
    if clause_sat(a, ints(c)) {
        let k = choose|k: int| 0 <= k < ints(c).len() && lit_true(a, #[trigger] ints(c)[k]);
        assert(ints(c)[k] == c[k] as int);
        assert(lit_true(b, ints(c)[k]));
    }
    if clause_sat(b, ints(c)) {
        let k = choose|k: int| 0 <= k < ints(c).len() && lit_true(b, #[trigger] ints(c)[k]);
        assert(ints(c)[k] == c[k] as int);
        assert(lit_true(a, ints(c)[k]));
    }
}

/// The value of variable `v` after fixing the pure literals: its fixed
/// value, else true when it occurs only positively (`pos`), false when only
/// negatively (`neg`), else free.
pub open spec fn pure_value(asg: Seq<i8>, pos: Seq<bool>, neg: Seq<bool>, v: int) -> i8 {
    if asg[v] != 0 {
        asg[v]
    } else if pos[v] && !neg[v] {
        1i8
    } else if neg[v] && !pos[v] {
        -1i8
    } else {
        0i8
    }
}

/// Which techniques to leave out of a full preprocessing run.
#[derive(Clone, Copy, Debug)]
pub struct PreprocessOptions {
    pub skip_bve: bool,
    pub skip_probe: bool,
    pub skip_equiv: bool,
    pub skip_pure: bool,
}

impl PreprocessOptions {
    /// Every technique enabled.
    pub fn all() -> (o: Self)
        ensures
            !o.skip_bve && !o.skip_probe && !o.skip_equiv && !o.skip_pure,
    {
        PreprocessOptions { skip_bve: false, skip_probe: false, skip_equiv: false, skip_pure: false }
    }
}

/// Index of a literal in occurrence tables: `2v` for `v`, `2v + 1` for `-v`.
fn occ_index(lit: i32) -> (r: usize)
    requires
        lit > i32::MIN,
        -0x3fff_fff0 <= lit <= 0x3fff_fff0,
    ensures
        r == if lit > 0 { 2 * lit } else { 2 * (-lit) + 1 },
{
    if lit > 0 {
        (lit as usize) * 2
    } else {
        ((-lit) as usize) * 2 + 1
    }
}

/// Variable of a literal.
fn var_index(lit: i32) -> (r: usize)
    requires
        lit > i32::MIN,
    ensures
        r == lvar(lit as int),
{
    if lit < 0 {
        (-lit) as usize
    } else {
        lit as usize
    }
}

struct Preprocessor {
    clauses: Vec<Vec<i32>>,
    num_vars: usize,
    deleted: Vec<bool>,
    /// 0 free, 1 true, -1 false.
    assigned: Vec<i8>,
    unsat: bool,
}

impl Preprocessor {
    spec fn wf(&self) -> bool {
        &&& self.num_vars < 0x3fff_fff0
        &&& self.deleted@.len() == self.clauses@.len()
        &&& self.assigned@.len() == self.num_vars + 1
        &&& clauses_within(self.clauses@, self.num_vars as int)
        &&& forall|v: int| 0 <= v < self.assigned@.len() ==> -1 <= #[trigger] self.assigned@[v] <= 1
    }

    fn new(clauses: Vec<Vec<i32>>, num_vars: usize) -> (p: Self)
        requires
            preprocess_input_ok(clauses@, num_vars),
        ensures
            p.wf(),
            p.clauses@ == clauses@,
            p.num_vars == num_vars,
            !p.unsat,
            forall|v: int| 0 <= v <= num_vars ==> #[trigger] p.assigned@[v] == 0,
            forall|i: int| 0 <= i < clauses@.len() ==> !#[trigger] p.deleted@[i],
    {
        let n = clauses.len();
        Preprocessor {
            clauses,
            num_vars,
            deleted: vec_of(n, false),
            assigned: vec_of(num_vars + 1, 0i8),
            unsat: false,
        }
    }

    /// Whether the literal is true under the current assignment.
    fn is_true(&self, lit: i32) -> (b: bool)
        requires
            self.wf(),
            lit_within(lit as int, self.num_vars as int),
        ensures
            b == ((lit > 0 && self.assigned@[lvar(lit as int)] == 1) || (lit < 0 && self.assigned@[lvar(
                lit as int,
            )] == -1)),
    {
        let val = self.assigned[var_index(lit)];
        (lit > 0 && val == 1) || (lit < 0 && val == -1)
    }

    /// Whether clause `ci` has a true literal.
    fn clause_satisfied(&self, ci: usize) -> (b: bool)
        requires
            self.wf(),
            ci < self.clauses@.len(),
        ensures
            b == exists|k: int|
                0 <= k < self.clauses@[ci as int]@.len() && {
                    let l = #[trigger] self.clauses@[ci as int]@[k];
                    (l > 0 && self.assigned@[lvar(l as int)] == 1) || (l < 0 && self.assigned@[lvar(l as int)] == -1)
                },
    {
        let c = &self.clauses[ci];
        let mut k: usize = 0;
        while k < c.len()
            invariant
                self.wf(),
                ci < self.clauses@.len(),
                c@ == self.clauses@[ci as int]@,
                k <= c@.len(),
                forall|j: int| 0 <= j < k ==> {
                    let l = #[trigger] c@[j];
                    !((l > 0 && self.assigned@[lvar(l as int)] == 1) || (l < 0 && self.assigned@[lvar(l as int)] == -1))
                },
            decreases c@.len() - k,
        {
            proof {
                assert(lit_within(self.clauses@[ci as int]@[k as int] as int, self.num_vars as int));
            }
            if self.is_true(c[k]) {
                return true;
            }
            k = k + 1;
        }
        false
    }

    /// The literals of clause `ci` whose variable is free.
    fn live_lits(&self, ci: usize) -> (r: Vec<i32>)
        requires
            self.wf(),
            ci < self.clauses@.len(),
        ensures
            r@ == free_lits(self.clauses@[ci as int]@, self.assigned@),
            forall|k: int| 0 <= k < r@.len() ==> lit_within(#[trigger] r@[k] as int, self.num_vars as int)
                && self.assigned@[lvar(r@[k] as int)] == 0,
            r@.len() <= self.clauses@[ci as int]@.len(),
    {
        let c = &self.clauses[ci];
        let mut r: Vec<i32> = Vec::new();
        let mut k: usize = 0;
        while k < c.len()
            invariant
                self.wf(),
                ci < self.clauses@.len(),
                c@ == self.clauses@[ci as int]@,
                k <= c@.len(),
                r@ == free_lits(c@.subrange(0, k as int), self.assigned@),
                r@.len() <= k,
                forall|j: int| 0 <= j < r@.len() ==> lit_within(#[trigger] r@[j] as int, self.num_vars as int)
                    && self.assigned@[lvar(r@[j] as int)] == 0,
            decreases c@.len() - k,
        {
            let lit = c[k];
            proof {
                assert(lit_within(self.clauses@[ci as int]@[k as int] as int, self.num_vars as int));
                assert(c@.subrange(0, k + 1).drop_last() =~= c@.subrange(0, k as int));
            }
            if self.assigned[var_index(lit)] == 0 {
                r.push(lit);
            }
            k = k + 1;
        }
        proof {
            assert(c@.subrange(0, c@.len() as int) =~= c@);
        }
        r
    }

    /// Fixes literal `lit` true.
    fn set_true(&mut self, lit: i32)
        requires
            old(self).wf(),
            lit_within(lit as int, old(self).num_vars as int),
        ensures
            final(self).wf(),
            final(self).clauses == old(self).clauses,
            final(self).deleted == old(self).deleted,
            final(self).num_vars == old(self).num_vars,
            final(self).unsat == old(self).unsat,
            final(self).assigned@ == old(self).assigned@.update(lvar(lit as int), if lit > 0 { 1i8 } else { -1i8 }),
    {
        let v = var_index(lit);
        self.assigned.set(v, if lit > 0 { 1 } else { -1 });
    }

    /// `a` is a model of the state: no contradiction was found, `a` agrees
    /// with the fixed variables and satisfies every clause left.
    spec fn model(&self, a: spec_fn(int) -> bool) -> bool {
        &&& !self.unsat
        &&& agrees(a, self.assigned@)
        &&& live_sat(a, self.clauses@, self.deleted@)
    }

    /// Repeated unit propagation: satisfied clauses are deleted, a clause
    /// with one free literal and no true one fixes that literal and is
    /// deleted, and a clause with neither marks the formula unsatisfiable.
    /// Without the literal 0 the models stay the same.
    fn unit_propagate(&mut self)
        requires
            old(self).wf(),
        ensures
            final(self).wf(),
            final(self).clauses == old(self).clauses,
            final(self).num_vars == old(self).num_vars,
            old(self).unsat ==> final(self).unsat,
            no_zero_lits(old(self).clauses@) ==> forall|a: spec_fn(int) -> bool|
                #[trigger] final(self).model(a) == old(self).model(a),
    {
        let mut changed = true;
        while changed && !self.unsat
            invariant
                self.wf(),
                self.clauses == old(self).clauses,
                self.num_vars == old(self).num_vars,
                old(self).unsat ==> self.unsat,
                no_zero_lits(old(self).clauses@) ==> forall|a: spec_fn(int) -> bool|
                    #[trigger] self.model(a) == old(self).model(a),
            decreases free_count(self.assigned@) + if changed { 1nat } else { 0nat },
        {
            changed = false;
            let ghost start = free_count(self.assigned@);
            let mut ci: usize = 0;
            while ci < self.clauses.len()
                invariant
                    self.wf(),
                    self.clauses == old(self).clauses,
                    self.num_vars == old(self).num_vars,
                    old(self).unsat ==> self.unsat,
                    changed ==> free_count(self.assigned@) < start,
                    !changed ==> free_count(self.assigned@) == start,
                    !self.unsat,
                    no_zero_lits(old(self).clauses@) ==> forall|a: spec_fn(int) -> bool|
                        #[trigger] self.model(a) == old(self).model(a),
                decreases self.clauses@.len() - ci,
            {
                if self.deleted[ci] {
                    ci = ci + 1;
                    continue;
                }
                let mut unresolved_count: usize = 0;
                let mut unit_lit: i32 = 0;
                let mut satisfied = false;
                let c = &self.clauses[ci];
                let mut k: usize = 0;
                while k < c.len()
                    invariant_except_break
                        !satisfied,
                    invariant
                        self.wf(),
                        ci < self.clauses@.len(),
                        c@ == self.clauses@[ci as int]@,
                        k <= c@.len(),
                        unresolved_count > 0 ==> exists|j: int| 0 <= j < k && #[trigger] c@[j] == unit_lit,
                        unresolved_count <= k,
                        lit_within(unit_lit as int, self.num_vars as int),
                        unresolved_count > 0 ==> self.assigned@[lvar(unit_lit as int)] == 0,
                        forall|j: int| 0 <= j < k ==> !true_under(self.assigned@, #[trigger] c@[j] as int),
                        forall|j: int| 0 <= j < k && self.assigned@[lvar(#[trigger] c@[j] as int)] == 0
                            ==> unresolved_count >= 1 && (unresolved_count == 1 ==> c@[j] == unit_lit),
                    ensures
                        k <= c@.len(),
                        unresolved_count > 0 ==> exists|j: int| 0 <= j < c@.len() && #[trigger] c@[j] == unit_lit,
                        unresolved_count <= k,
                        lit_within(unit_lit as int, self.num_vars as int),
                        unresolved_count > 0 ==> self.assigned@[lvar(unit_lit as int)] == 0,
                        satisfied ==> k < c@.len() && true_under(self.assigned@, c@[k as int] as int),
                        !satisfied ==> k == c@.len(),
                        !satisfied ==> forall|j: int| 0 <= j < c@.len() ==> !true_under(self.assigned@, #[trigger] c@[j] as int),
                        !satisfied ==> forall|j: int| 0 <= j < c@.len() && self.assigned@[lvar(#[trigger] c@[j] as int)] == 0
                            ==> unresolved_count >= 1 && (unresolved_count == 1 ==> c@[j] == unit_lit),
                    decreases c@.len() - k,
                {
                    let lit = c[k];
                    proof {
                        assert(lit_within(self.clauses@[ci as int]@[k as int] as int, self.num_vars as int));
                    }
                    let val = self.assigned[var_index(lit)];
                    if (lit > 0 && val == 1) || (lit < 0 && val == -1) {
                        satisfied = true;
                        break;
                    }
                    if val == 0 {
                        unresolved_count = unresolved_count + 1;
                        unit_lit = lit;
                    }
                    k = k + 1;
                }
                let ghost s0 = *self;
                let ghost cl = self.clauses@[ci as int]@;
                if satisfied {
                    self.deleted.set(ci, true);
                    proof {
                        if no_zero_lits(old(self).clauses@) {
                            assert forall|a: spec_fn(int) -> bool| #[trigger] self.model(a) == s0.model(a) by {
                                if s0.model(a) {
                                    assert(live_sat(a, self.clauses@, self.deleted@));
                                }
                                if self.model(a) {
                                    assert(cl[k as int] != 0);
                                    lemma_agrees_lit(a, self.assigned@, cl[k as int] as int);
                                    assert(vec_sat(a, cl));
                                    assert forall|i: int| 0 <= i < self.clauses@.len() && !s0.deleted@[i] implies
                                        #[trigger] vec_sat(a, self.clauses@[i]@) by {
                                        if i != ci {
                                            assert(!self.deleted@[i]);
                                        }
                                    }
                                }
                            }
                        }
                    }
                    ci = ci + 1;
                    continue;
                }
                if unresolved_count == 0 {
                    self.unsat = true;
                    proof {
                        if no_zero_lits(old(self).clauses@) {
                            assert forall|a: spec_fn(int) -> bool| #[trigger] self.model(a) == s0.model(a) by {
                                if s0.model(a) {
                                    assert(vec_sat(a, cl));
                                    let j = choose|j: int| 0 <= j < cl.len() && lit_true(a, #[trigger] cl[j] as int);
                                    assert(cl[j] != 0);
                                    assert(!true_under(s0.assigned@, cl[j] as int));
                                    assert(s0.assigned@[lvar(cl[j] as int)] != 0);
                                    assert(false_under(s0.assigned@, cl[j] as int));
                                    lemma_agrees_lit(a, s0.assigned@, cl[j] as int);
                                }
                            }
                        }
                    }
                    return;
                }
                if unresolved_count == 1 {
                    proof {
                        lemma_free_count_update(self.assigned@, lvar(unit_lit as int), if unit_lit > 0 { 1i8 } else { -1i8 });
                    }
                    self.set_true(unit_lit);
                    self.deleted.set(ci, true);
                    proof {
                        if no_zero_lits(old(self).clauses@) {
                            let u = unit_lit as int;
                            let v = lvar(u);
                            assert forall|a: spec_fn(int) -> bool| #[trigger] self.model(a) == s0.model(a) by {
                                if self.model(a) {
                                    assert forall|w: int| 1 <= w < s0.assigned@.len() implies (#[trigger] s0.assigned@[w] == 1 ==> a(w))
                                        && (s0.assigned@[w] == -1 ==> !a(w)) by {
                                        if w != v {
                                            assert(self.assigned@[w] == s0.assigned@[w]);
                                        }
                                    }
                                    let j = choose|j: int| 0 <= j < cl.len() && #[trigger] cl[j] == unit_lit;
                                    assert(cl[j] != 0);
                                    assert(u != 0);
                                    assert(true_under(self.assigned@, u));
                                    lemma_agrees_lit(a, self.assigned@, u);
                                    assert(lit_true(a, cl[j] as int));
                                    assert(vec_sat(a, cl));
                                    assert forall|i: int| 0 <= i < self.clauses@.len() && !s0.deleted@[i] implies
                                        #[trigger] vec_sat(a, self.clauses@[i]@) by {
                                        if i != ci {
                                            assert(!self.deleted@[i]);
                                        }
                                    }
                                }
                                if s0.model(a) {
                                    assert(vec_sat(a, cl));
                                    let j = choose|j: int| 0 <= j < cl.len() && lit_true(a, #[trigger] cl[j] as int);
                                    assert(cl[j] != 0);
                                    if s0.assigned@[lvar(cl[j] as int)] != 0 {
                                        assert(!true_under(s0.assigned@, cl[j] as int));
                                        assert(false_under(s0.assigned@, cl[j] as int));
                                        lemma_agrees_lit(a, s0.assigned@, cl[j] as int);
                                    }
                                    assert(cl[j] == unit_lit);
                                    assert(lit_true(a, u));
                                    assert forall|w: int| 1 <= w < self.assigned@.len() implies (#[trigger] self.assigned@[w] == 1 ==> a(w))
                                        && (self.assigned@[w] == -1 ==> !a(w)) by {
                                        if w != v {
                                            assert(self.assigned@[w] == s0.assigned@[w]);
                                        }
                                    }
                                    assert(live_sat(a, self.clauses@, self.deleted@));
                                }
                            }
                        }
                    }
                    changed = true;
                }
                ci = ci + 1;
            }
        }
    }

    /// Fixes every free variable that occurs with one polarity only in the
    /// live clauses, then deletes the satisfied clauses.  Without the
    /// literal 0, every model of the result is one of the state before, and
    /// the result has a model when that state has one.
    fn pure_literal_elimination(&mut self)
        requires
            old(self).wf(),
        ensures
            final(self).wf(),
            final(self).clauses == old(self).clauses,
            final(self).num_vars == old(self).num_vars,
            final(self).unsat == old(self).unsat,
            no_zero_lits(old(self).clauses@) ==> forall|a: spec_fn(int) -> bool|
                #[trigger] final(self).model(a) ==> old(self).model(a),
            no_zero_lits(old(self).clauses@) ==> ((exists|a: spec_fn(int) -> bool| #[trigger] old(self).model(a))
                ==> exists|a: spec_fn(int) -> bool| #[trigger] final(self).model(a)),
    {
        let n = self.num_vars;
        let mut pos: Vec<bool> = vec_of(n + 1, false);
        let mut neg: Vec<bool> = vec_of(n + 1, false);
        let mut ci: usize = 0;
        while ci < self.clauses.len()
            invariant
                self.wf(),
                self == old(self),
                n == self.num_vars,
                pos@.len() == n + 1,
                neg@.len() == n + 1,
                ci <= self.clauses@.len(),
                forall|i: int, k: int|
                    0 <= i < ci && !self.deleted@[i] && 0 <= k < self.clauses@[i]@.len() && self.assigned@[lvar(
                        #[trigger] self.clauses@[i]@[k] as int,
                    )] == 0 ==> (self.clauses@[i]@[k] > 0 ==> pos@[lvar(self.clauses@[i]@[k] as int)]) && (
                    self.clauses@[i]@[k] < 0 ==> neg@[lvar(self.clauses@[i]@[k] as int)]),
            decreases self.clauses@.len() - ci,
        {
            if !self.deleted[ci] {
                let c = &self.clauses[ci];
                let mut k: usize = 0;
                while k < c.len()
                    invariant
                        self.wf(),
                        self == old(self),
                        n == self.num_vars,
                        ci < self.clauses@.len(),
                        !self.deleted@[ci as int],
                        c@ == self.clauses@[ci as int]@,
                        pos@.len() == n + 1,
                        neg@.len() == n + 1,
                        k <= c@.len(),
                        forall|i: int, kk: int|
                            0 <= i < ci && !self.deleted@[i] && 0 <= kk < self.clauses@[i]@.len() && self.assigned@[lvar(
                                #[trigger] self.clauses@[i]@[kk] as int,
                            )] == 0 ==> (self.clauses@[i]@[kk] > 0 ==> pos@[lvar(self.clauses@[i]@[kk] as int)]) && (
                            self.clauses@[i]@[kk] < 0 ==> neg@[lvar(self.clauses@[i]@[kk] as int)]),
                        forall|kk: int|
                            0 <= kk < k && self.assigned@[lvar(#[trigger] c@[kk] as int)] == 0 ==> (c@[kk] > 0
                                ==> pos@[lvar(c@[kk] as int)]) && (c@[kk] < 0 ==> neg@[lvar(c@[kk] as int)]),
                    decreases c@.len() - k,
                {
                    let lit = c[k];
                    proof {
                        assert(lit_within(self.clauses@[ci as int]@[k as int] as int, n as int));
                    }
                    let var = var_index(lit);
                    if self.assigned[var] == 0 {
                        if lit > 0 {
                            pos.set(var, true);
                        } else {
                            neg.set(var, true);
                        }
                    }
                    k = k + 1;
                }
            }
            ci = ci + 1;
        }
        let ghost s0 = *self;
        let ghost ps = pos@;
        let ghost ns = neg@;
        let mut var: usize = 1;
        while var <= n
            invariant
                self.wf(),
                n == self.num_vars,
                self.clauses == old(self).clauses,
                self.deleted == old(self).deleted,
                self.unsat == old(self).unsat,
                pos@.len() == n + 1,
                neg@.len() == n + 1,
                pos@ == ps,
                neg@ == ns,
                1 <= var <= n + 1,
                forall|v: int| 0 <= v < n + 1 ==> #[trigger] self.assigned@[v] == if 1 <= v < var {
                    pure_value(s0.assigned@, ps, ns, v)
                } else {
                    s0.assigned@[v]
                },
            decreases n + 1 - var,
        {
            let ghost a0 = self.assigned@;
            if self.assigned[var] == 0 {
                if pos[var] && !neg[var] {
                    self.assigned.set(var, 1);
                } else if neg[var] && !pos[var] {
                    self.assigned.set(var, -1);
                }
            }
            proof {
                assert(a0[var as int] == s0.assigned@[var as int]);
                assert(self.assigned@[var as int] == pure_value(s0.assigned@, ps, ns, var as int));
                assert forall|v: int| 0 <= v < n + 1 implies #[trigger] self.assigned@[v] == if 1 <= v < var + 1 {
                    pure_value(s0.assigned@, ps, ns, v)
                } else {
                    s0.assigned@[v]
                } by {
                    if v != var {
                        assert(self.assigned@[v] == a0[v]);
                    }
                }
            }
            var = var + 1;
        }
        let ghost s1 = *self;
        proof {
            if no_zero_lits(old(self).clauses@) {
                assert forall|a: spec_fn(int) -> bool| #[trigger] s1.model(a) implies s0.model(a) by {
                    assert forall|v: int| 1 <= v < s0.assigned@.len() implies (#[trigger] s0.assigned@[v] == 1 ==> a(v))
                        && (s0.assigned@[v] == -1 ==> !a(v)) by {
                        assert(s1.assigned@[v] == pure_value(s0.assigned@, ps, ns, v));
                    }
                }
                if exists|a: spec_fn(int) -> bool| #[trigger] s0.model(a) {
                    let m = choose|a: spec_fn(int) -> bool| #[trigger] s0.model(a);
                    let m2 = |v: int|
                        if 1 <= v <= n && s0.assigned@[v] == 0 && pure_value(s0.assigned@, ps, ns, v) == 1 {
                            true
                        } else if 1 <= v <= n && s0.assigned@[v] == 0 && pure_value(s0.assigned@, ps, ns, v) == -1 {
                            false
                        } else {
                            m(v)
                        };
                    assert forall|v: int| 1 <= v < s1.assigned@.len() implies (#[trigger] s1.assigned@[v] == 1 ==> m2(v))
                        && (s1.assigned@[v] == -1 ==> !m2(v)) by {
                        assert(s1.assigned@[v] == pure_value(s0.assigned@, ps, ns, v));
                        assert(s0.assigned@[v] == 1 ==> m(v));
                        assert(s0.assigned@[v] == -1 ==> !m(v));
                    }
                    assert forall|i: int| 0 <= i < s1.clauses@.len() && !s1.deleted@[i] implies #[trigger] vec_sat(
                        m2,
                        s1.clauses@[i]@,
                    ) by {
                        let c = s1.clauses@[i]@;
                        assert(vec_sat(m, c));
                        let k = choose|k: int| 0 <= k < c.len() && lit_true(m, #[trigger] c[k] as int);
                        let l = c[k] as int;
                        assert(l != 0);
                        assert(lit_within(l, n as int));
                        let v = lvar(l);
                        if 1 <= v <= n && s0.assigned@[v] == 0 && pure_value(s0.assigned@, ps, ns, v) != 0 {
                            assert(s0.clauses@[i]@[k] == c[k]);
                            if l > 0 {
                                assert(pos@[v]);
                            } else {
                                assert(neg@[v]);
                            }
                        }
                        assert(lit_true(m2, c[k] as int));
                    }
                    assert(s1.model(m2));
                    assert(exists|a: spec_fn(int) -> bool| #[trigger] s1.model(a));
                }
            }
        }
        self.delete_satisfied();
        proof {
            if no_zero_lits(old(self).clauses@) && exists|a: spec_fn(int) -> bool| #[trigger] s0.model(a) {
                let m = choose|a: spec_fn(int) -> bool| #[trigger] s1.model(a);
                assert(self.model(m));
            }
        }
    }

    /// Deletes every live clause that has a true literal.  Without the
    /// literal 0 the models stay the same.
    fn delete_satisfied(&mut self)
        requires
            old(self).wf(),
        ensures
            final(self).wf(),
            final(self).clauses == old(self).clauses,
            final(self).assigned == old(self).assigned,
            final(self).num_vars == old(self).num_vars,
            final(self).unsat == old(self).unsat,
            forall|i: int| 0 <= i < old(self).deleted@.len() ==> #[trigger] final(self).deleted@[i] == (old(
                self,
            ).deleted@[i] || old(self).satisfied_now(i)),
            no_zero_lits(old(self).clauses@) ==> forall|a: spec_fn(int) -> bool|
                #[trigger] final(self).model(a) == old(self).model(a),
    {
        let mut ci: usize = 0;
        while ci < self.clauses.len()
            invariant
                self.wf(),
                self.clauses == old(self).clauses,
                self.assigned == old(self).assigned,
                self.num_vars == old(self).num_vars,
                self.unsat == old(self).unsat,
                ci <= self.clauses@.len(),
                self.deleted@.len() == old(self).deleted@.len(),
                forall|i: int| 0 <= i < old(self).deleted@.len() ==> #[trigger] self.deleted@[i] == if i < ci {
                    old(self).deleted@[i] || old(self).satisfied_now(i)
                } else {
                    old(self).deleted@[i]
                },
            decreases self.clauses@.len() - ci,
        {
            if !self.deleted[ci] && self.clause_satisfied(ci) {
                self.deleted.set(ci, true);
            }
            ci = ci + 1;
        }
        proof {
            if no_zero_lits(old(self).clauses@) {
                assert forall|a: spec_fn(int) -> bool| #[trigger] self.model(a) == old(self).model(a) by {
                    if self.model(a) {
                        assert forall|i: int| 0 <= i < self.clauses@.len() && !old(self).deleted@[i] implies
                            #[trigger] vec_sat(a, self.clauses@[i]@) by {
                            if self.deleted@[i] {
                                let c = self.clauses@[i]@;
                                let k = choose|k: int|
                                    0 <= k < c.len() && {
                                        let l = #[trigger] c[k];
                                        (l > 0 && self.assigned@[lvar(l as int)] == 1) || (l < 0
                                            && self.assigned@[lvar(l as int)] == -1)
                                    };
                                assert(c[k] != 0);
                                assert(lit_within(c[k] as int, self.num_vars as int));
                                lemma_agrees_lit(a, self.assigned@, c[k] as int);
                            }
                        }
                    }
                    if old(self).model(a) {
                        assert(live_sat(a, self.clauses@, self.deleted@));
                    }
                }
            }
        }
    }

    /// The simplified formula: the live clauses without satisfied ones and
    /// with their false literals removed; `x1 ∧ ¬x1` when a contradiction
    /// was found.  Without the literal 0 it is satisfiable exactly when the
    /// state has a model.
    fn into_clauses(self) -> (r: Vec<Vec<i32>>)
        requires
            self.wf(),
        ensures
            self.unsat ==> r@.len() == 2 && r@[0]@ == seq![1i32] && r@[1]@ == seq![-1i32],
            !self.unsat ==> forall|i: int, k: int|
                0 <= i < r@.len() && 0 <= k < r@[i]@.len() ==> lit_within(#[trigger] r@[i]@[k] as int, self.num_vars as int)
                    && self.assigned@[lvar(r@[i]@[k] as int)] == 0,
            no_zero_lits(self.clauses@) ==> (satisfiable(int_clauses(r@)) <==> exists|a: spec_fn(int) -> bool|
                #[trigger] self.model(a)),
    {
        if self.unsat {
            let r = vec![vec![1i32], vec![-1i32]];
            proof {
                assert(r@[0]@ =~= seq![1i32]);
                assert(r@[1]@ =~= seq![-1i32]);
                let f = int_clauses(r@);
                assert(f[0] == seq![1int]);
                assert(f[1] == seq![-1int]);
                if satisfiable(f) {
                    let a = choose|a: spec_fn(int) -> bool| #[trigger] formula_sat(a, f);
                    assert(clause_sat(a, f[0]));
                    assert(clause_sat(a, f[1]));
                    let k0 = choose|k: int| 0 <= k < f[0].len() && #[trigger] lit_true(a, f[0][k]);
                    let k1 = choose|k: int| 0 <= k < f[1].len() && #[trigger] lit_true(a, f[1][k]);
                }
            }
            return r;
        }
        let mut result: Vec<Vec<i32>> = Vec::new();
        let mut ci: usize = 0;
        while ci < self.clauses.len()
            invariant
                self.wf(),
                !self.unsat,
                ci <= self.clauses@.len(),
                forall|i: int, k: int|
                    0 <= i < result@.len() && 0 <= k < result@[i]@.len() ==> lit_within(
                        #[trigger] result@[i]@[k] as int,
                        self.num_vars as int,
                    ) && self.assigned@[lvar(result@[i]@[k] as int)] == 0,
                no_zero_lits(self.clauses@) ==> forall|a: spec_fn(int) -> bool|
                    agrees(a, self.assigned@) ==> (#[trigger] formula_sat(a, int_clauses(result@)) <==> forall|i: int|
                        0 <= i < ci && !self.deleted@[i] ==> #[trigger] vec_sat(a, self.clauses@[i]@)),
            decreases self.clauses@.len() - ci,
        {
            let ghost r0 = result@;
            if !self.deleted[ci] && !self.clause_satisfied(ci) {
                let simplified = self.live_lits(ci);
                result.push(simplified);
                proof {
                    assert forall|i: int, k: int|
                        0 <= i < result@.len() && 0 <= k < result@[i]@.len() implies lit_within(
                            #[trigger] result@[i]@[k] as int,
                            self.num_vars as int,
                        ) && self.assigned@[lvar(result@[i]@[k] as int)] == 0 by {
                        if i < r0.len() {
                            assert(result@[i] == r0[i]);
                        }
                    }
                    if no_zero_lits(self.clauses@) {
                        let c = self.clauses@[ci as int]@;
                        assert(int_clauses(result@) =~= int_clauses(r0).push(ints(simplified@)));
                        assert forall|a: spec_fn(int) -> bool| agrees(a, self.assigned@) implies (#[trigger] formula_sat(
                            a,
                            int_clauses(result@),
                        ) <==> forall|i: int|
                            0 <= i < ci + 1 && !self.deleted@[i] ==> #[trigger] vec_sat(a, self.clauses@[i]@)) by {
                            lemma_formula_sat_push(a, int_clauses(r0), ints(simplified@));
                            assert forall|k: int| 0 <= k < c.len() implies #[trigger] c[k] != 0 && lvar(c[k] as int)
                                < self.assigned@.len() by {
                                assert(lit_within(c[k] as int, self.num_vars as int));
                            }
                            assert forall|k: int| 0 <= k < c.len() implies !true_under(self.assigned@, #[trigger] c[k] as int) by {
                                assert(lit_within(c[k] as int, self.num_vars as int));
                            }
                            lemma_free_lits_sat(a, c, self.assigned@);
                        }
                    }
                }
            } else {
                proof {
                    if no_zero_lits(self.clauses@) {
                        assert forall|a: spec_fn(int) -> bool| agrees(a, self.assigned@) implies (#[trigger] formula_sat(
                            a,
                            int_clauses(result@),
                        ) <==> forall|i: int|
                            0 <= i < ci + 1 && !self.deleted@[i] ==> #[trigger] vec_sat(a, self.clauses@[i]@)) by {
                            if !self.deleted@[ci as int] {
                                let c = self.clauses@[ci as int]@;
                                let k = choose|k: int|
                                    0 <= k < c.len() && {
                                        let l = #[trigger] c[k];
                                        (l > 0 && self.assigned@[lvar(l as int)] == 1) || (l < 0
                                            && self.assigned@[lvar(l as int)] == -1)
                                    };
                                assert(c[k] != 0);
                                assert(lit_within(c[k] as int, self.num_vars as int));
                                lemma_agrees_lit(a, self.assigned@, c[k] as int);
                                assert(vec_sat(a, c));
                            }
                        }
                    }
                }
            }
            ci = ci + 1;
        }
        proof {
            if no_zero_lits(self.clauses@) {
                let f = int_clauses(result@);
                let asg = self.assigned@;
                if satisfiable(f) {
                    let b = choose|b: spec_fn(int) -> bool| #[trigger] formula_sat(b, f);
                    let a = |v: int|
                        if 1 <= v < asg.len() && asg[v] == 1 {
                            true
                        } else if 1 <= v < asg.len() && asg[v] == -1 {
                            false
                        } else {
                            b(v)
                        };
                    assert(agrees(a, asg));
                    assert forall|i: int| 0 <= i < f.len() implies #[trigger] clause_sat(a, f[i]) by {
                        assert(clause_sat(b, f[i]));
                        assert(f[i] == ints(result@[i]@));
                        assert forall|k: int| 0 <= k < result@[i]@.len() implies 0 <= lvar(#[trigger] result@[i]@[k] as int)
                            < asg.len() && asg[lvar(result@[i]@[k] as int)] == 0 by {
                            assert(lit_within(result@[i]@[k] as int, self.num_vars as int));
                        }
                        lemma_free_clause_same(a, b, result@[i]@, asg);
                    }
                    assert(formula_sat(a, f));
                    assert(live_sat(a, self.clauses@, self.deleted@));
                    assert(self.model(a));
                }
                if exists|a: spec_fn(int) -> bool| #[trigger] self.model(a) {
                    let a = choose|a: spec_fn(int) -> bool| #[trigger] self.model(a);
                    assert(formula_sat(a, f));
                }
            }
        }
        result
    }
}


/// Whether `x` occurs in `v`.
/// The resolvent on `var` of the clauses `pos` and `neg` is a tautology:
/// some literal of `neg` (not of `var`) has its negation in `pos` or `neg`.
pub open spec fn resolvent_tautology(pos: Seq<i32>, neg: Seq<i32>, var: int) -> bool {
    exists|j: int|
        0 <= j < neg.len() && lvar(#[trigger] neg[j] as int) != var && (pos.contains((-neg[j]) as i32) || neg.subrange(
            0,
            j,
        ).contains((-neg[j]) as i32))
}

/// A tautology found on a prefix of `neg` is one of `neg`.
proof fn lemma_taut_prefix(pos: Seq<i32>, neg: Seq<i32>, var: int, k: int)
    requires
        0 <= k < neg.len(),
        lvar(neg[k] as int) != var,
        neg[k] != i32::MIN,
        pos.contains((-neg[k]) as i32) || neg.subrange(0, k).contains((-neg[k]) as i32),
    ensures
        resolvent_tautology(pos, neg, var),
{
    assert(lvar(neg[k] as int) != var);
}

fn lits_contain(v: &Vec<i32>, x: i32) -> (b: bool)
    ensures
        b == v@.contains(x),
{
    let mut i: usize = 0;
    while i < v.len()
        invariant
            i <= v@.len(),
            forall|j: int| 0 <= j < i ==> v@[j] != x,
        decreases v@.len() - i,
    {
        if v[i] == x {
            return true;
        }
        i = i + 1;
    }
    false
}

impl Preprocessor {
    /// Deletes every live clause whose free literals include all free
    /// literals of a shorter live clause (of at most ten free literals),
    /// after deleting the satisfied clauses.  Candidates are found through
    /// the rarest literal of the shorter clause; shorter clauses are tried
    /// first.  Without the literal 0 the models stay the same.
    fn subsumption(&mut self)
        requires
            old(self).wf(),
        ensures
            final(self).wf(),
            final(self).clauses == old(self).clauses,
            final(self).assigned == old(self).assigned,
            final(self).num_vars == old(self).num_vars,
            final(self).unsat == old(self).unsat,
            no_zero_lits(old(self).clauses@) ==> forall|a: spec_fn(int) -> bool|
                #[trigger] final(self).model(a) == old(self).model(a),
    {
        let n = self.num_vars;
        let max_lit = (n + 1) * 2;
        let mut occ: Vec<Vec<usize>> = empty_lists(max_lit);
        let mut live_clauses: Vec<(u64, usize)> = Vec::new();
        let mut ci: usize = 0;
        while ci < self.clauses.len()
            invariant
                self.wf(),
                self.clauses == old(self).clauses,
                self.assigned == old(self).assigned,
                self.num_vars == old(self).num_vars,
                self.unsat == old(self).unsat,
                n == self.num_vars,
                max_lit == (n + 1) * 2,
                occ@.len() == max_lit,
                forall|i: int, j: int| 0 <= i < occ@.len() && 0 <= j < occ@[i]@.len() ==> #[trigger] occ@[i]@[j] < self.clauses@.len(),
                forall|k: int| 0 <= k < live_clauses@.len() ==> (#[trigger] live_clauses@[k]).1 < self.clauses@.len()
                    && free_lits(self.clauses@[live_clauses@[k].1 as int]@, self.assigned@).len() > 0
                    && !self.satisfied_now(live_clauses@[k].1 as int),
                self.deleted@.len() == old(self).deleted@.len(),
                no_zero_lits(old(self).clauses@) ==> forall|a: spec_fn(int) -> bool|
                    #[trigger] self.model(a) == old(self).model(a),
            decreases self.clauses@.len() - ci,
        {
            if self.deleted[ci] {
                ci = ci + 1;
                continue;
            }
            if self.clause_satisfied(ci) {
                let ghost s0 = *self;
                self.deleted.set(ci, true);
                proof {
                    if no_zero_lits(old(self).clauses@) {
                        assert forall|a: spec_fn(int) -> bool| #[trigger] self.model(a) == s0.model(a) by {
                            if self.model(a) {
                                let c = self.clauses@[ci as int]@;
                                let k = choose|k: int|
                                    0 <= k < c.len() && {
                                        let l = #[trigger] c[k];
                                        (l > 0 && self.assigned@[lvar(l as int)] == 1) || (l < 0
                                            && self.assigned@[lvar(l as int)] == -1)
                                    };
                                assert(c[k] != 0);
                                assert(lit_within(c[k] as int, self.num_vars as int));
                                lemma_agrees_lit(a, self.assigned@, c[k] as int);
                                assert forall|i: int| 0 <= i < self.clauses@.len() && !s0.deleted@[i] implies
                                    #[trigger] vec_sat(a, self.clauses@[i]@) by {
                                    if i != ci {
                                        assert(!self.deleted@[i]);
                                    }
                                }
                            }
                            if s0.model(a) {
                                assert(live_sat(a, self.clauses@, self.deleted@));
                            }
                        }
                    }
                }
                ci = ci + 1;
                continue;
            }
            let lits = self.live_lits(ci);
            if lits.len() == 0 {
                ci = ci + 1;
                continue;
            }
            let ghost lc0 = live_clauses@;
            live_clauses.push((lits.len() as u64, ci));
            proof {
                assert forall|k: int| 0 <= k < live_clauses@.len() implies (#[trigger] live_clauses@[k]).1
                    < self.clauses@.len() && free_lits(self.clauses@[live_clauses@[k].1 as int]@, self.assigned@).len()
                    > 0 && !self.satisfied_now(live_clauses@[k].1 as int) by {
                    if k < lc0.len() {
                        assert(live_clauses@[k] == lc0[k]);
                    }
                }
            }
            let mut k: usize = 0;
            while k < lits.len()
                invariant
                    self.wf(),
                    n == self.num_vars,
                    max_lit == (n + 1) * 2,
                    ci < self.clauses@.len(),
                    occ@.len() == max_lit,
                    forall|i: int, j: int| 0 <= i < occ@.len() && 0 <= j < occ@[i]@.len() ==> #[trigger] occ@[i]@[j] < self.clauses@.len(),
                    forall|j: int| 0 <= j < lits@.len() ==> lit_within(#[trigger] lits@[j] as int, n as int),
                decreases lits@.len() - k,
            {
                let lit = lits[k];
                proof {
                    assert(lit_within(lits@[k as int] as int, n as int));
                }
                let idx = occ_index(lit);
                if idx < max_lit {
                    occ[idx].push(ci);
                }
                k = k + 1;
            }
            ci = ci + 1;
        }
        let sorted = sort_by_key(live_clauses);
        proof {
            assert forall|k: int| 0 <= k < sorted@.len() implies (#[trigger] sorted@[k]).1 < self.clauses@.len()
                && free_lits(self.clauses@[sorted@[k].1 as int]@, self.assigned@).len() > 0
                && !self.satisfied_now(sorted@[k].1 as int) by {
                assert(live_clauses@.contains(sorted@[k]));
                let j = choose|j: int| 0 <= j < live_clauses@.len() && live_clauses@[j] == sorted@[k];
                assert(live_clauses@[j].1 < self.clauses@.len());
            }
        }
        let mut si: usize = 0;
        while si < sorted.len()
            invariant
                self.wf(),
                self.clauses == old(self).clauses,
                self.assigned == old(self).assigned,
                self.num_vars == old(self).num_vars,
                self.unsat == old(self).unsat,
                n == self.num_vars,
                max_lit == (n + 1) * 2,
                occ@.len() == max_lit,
                forall|i: int, j: int| 0 <= i < occ@.len() && 0 <= j < occ@[i]@.len() ==> #[trigger] occ@[i]@[j] < self.clauses@.len(),
                forall|k: int| 0 <= k < sorted@.len() ==> (#[trigger] sorted@[k]).1 < self.clauses@.len()
                    && free_lits(self.clauses@[sorted@[k].1 as int]@, self.assigned@).len() > 0
                    && !self.satisfied_now(sorted@[k].1 as int),
                self.deleted@.len() == old(self).deleted@.len(),
                no_zero_lits(old(self).clauses@) ==> forall|a: spec_fn(int) -> bool|
                    #[trigger] self.model(a) == old(self).model(a),
            decreases sorted@.len() - si,
        {
            let ci = sorted[si].1;
            si = si + 1;
            proof {
                assert(sorted@[si - 1].1 < self.clauses@.len());
            }
            if self.deleted[ci] {
                continue;
            }
            let lits_a = self.live_lits(ci);
            if lits_a.len() > 10 {
                break;
            }
            // the rarest literal of the clause (the first one on ties)
            let mut best: usize = 0;
            let mut best_count: usize = usize::MAX;
            let mut k: usize = 0;
            while k < lits_a.len()
                invariant
                    n == self.num_vars,
                    max_lit == (n + 1) * 2,
                    occ@.len() == max_lit,
                    lits_a@.len() > 0,
                    n < 0x3fff_fff0,
                    best < lits_a@.len(),
                    forall|j: int| 0 <= j < lits_a@.len() ==> lit_within(#[trigger] lits_a@[j] as int, n as int),
                decreases lits_a@.len() - k,
            {
                let lit = lits_a[k];
                proof {
                    assert(lit_within(lits_a@[k as int] as int, n as int));
                }
                let idx = occ_index(lit);
                let count = if idx < max_lit { occ[idx].len() } else { usize::MAX };
                if count < best_count {
                    best_count = count;
                    best = k;
                }
                k = k + 1;
            }
            let idx = occ_index(lits_a[best]);
            if idx >= max_lit {
                continue;
            }
            let mut oi: usize = 0;
            while oi < occ[idx].len()
                invariant
                    self.wf(),
                    self.clauses == old(self).clauses,
                    self.assigned == old(self).assigned,
                    self.num_vars == old(self).num_vars,
                    self.unsat == old(self).unsat,
                    idx < occ@.len(),
                    forall|i: int, j: int| 0 <= i < occ@.len() && 0 <= j < occ@[i]@.len() ==> #[trigger] occ@[i]@[j] < self.clauses@.len(),
                    ci < self.clauses@.len(),
                    !self.satisfied_now(ci as int),
                    !self.deleted@[ci as int],
                    lits_a@ == free_lits(self.clauses@[ci as int]@, self.assigned@),
                    self.deleted@.len() == old(self).deleted@.len(),
                    no_zero_lits(old(self).clauses@) ==> forall|a: spec_fn(int) -> bool|
                        #[trigger] self.model(a) == old(self).model(a),
                decreases occ@[idx as int]@.len() - oi,
            {
                let cj = occ[idx][oi];
                oi = oi + 1;
                proof {
                    assert(occ@[idx as int]@[oi - 1] < self.clauses@.len());
                }
                if cj == ci || self.deleted[cj] {
                    continue;
                }
                let lits_b = self.live_lits(cj);
                if lits_b.len() <= lits_a.len() {
                    continue;
                }
                let mut all_in = true;
                let mut q: usize = 0;
                while q < lits_a.len()
                    invariant_except_break
                        all_in,
                    invariant
                        q <= lits_a@.len(),
                        forall|j: int| 0 <= j < q ==> lits_b@.contains(#[trigger] lits_a@[j]),
                    ensures
                        all_in ==> forall|j: int| 0 <= j < lits_a@.len() ==> lits_b@.contains(#[trigger] lits_a@[j]),
                    decreases lits_a@.len() - q,
                {
                    if !lits_contain(&lits_b, lits_a[q]) {
                        all_in = false;
                        break;
                    }
                    q = q + 1;
                }
                if all_in {
                    let ghost s0 = *self;
                    self.deleted.set(cj, true);
                    proof {
                        if no_zero_lits(old(self).clauses@) {
                            assert forall|a: spec_fn(int) -> bool| #[trigger] self.model(a) == s0.model(a) by {
                                if self.model(a) {
                                    let cc = self.clauses@[ci as int]@;
                                    let dd = self.clauses@[cj as int]@;
                                    assert forall|j: int| 0 <= j < free_lits(cc, self.assigned@).len() implies dd.contains(
                                        #[trigger] free_lits(cc, self.assigned@)[j],
                                    ) by {
                                        let x = free_lits(cc, self.assigned@)[j];
                                        assert(lits_a@[j] == x);
                                        assert(lits_b@.contains(x));
                                        lemma_free_lits_members(dd, self.assigned@, x);
                                    }
                                    assert forall|k: int| 0 <= k < cc.len() implies #[trigger] cc[k] != 0 && lit_within(
                                        cc[k] as int,
                                        self.num_vars as int,
                                    ) by {
                                        assert(lit_within(cc[k] as int, self.num_vars as int));
                                    }
                                    lemma_subsumed_sat(a, cc, dd, self.assigned@, self.num_vars as int);
                                    assert(vec_sat(a, self.clauses@[ci as int]@));
                                    assert forall|i: int| 0 <= i < self.clauses@.len() && !s0.deleted@[i] implies
                                        #[trigger] vec_sat(a, self.clauses@[i]@) by {
                                        if i != cj {
                                            assert(!self.deleted@[i]);
                                        }
                                    }
                                }
                                if s0.model(a) {
                                    assert(live_sat(a, self.clauses@, self.deleted@));
                                }
                            }
                        }
                    }
                }
            }
        }
    }

    /// Self-subsuming resolution with the live binary clauses: for a binary
    /// clause `(a | b)` and a longer live clause holding `-a` and `b`, `-a`
    /// is removed from the longer clause; if it is left with one free
    /// literal, that literal is fixed and the clause deleted.
    fn self_subsumption(&mut self)
        requires
            old(self).wf(),
        ensures
            final(self).wf(),
            final(self).num_vars == old(self).num_vars,
            final(self).clauses@.len() == old(self).clauses@.len(),
            final(self).unsat == old(self).unsat,
    {
        let n = self.num_vars;
        let max_lit = (n + 1) * 2;
        let mut binaries: Vec<(i32, i32)> = Vec::new();
        let mut ci: usize = 0;
        while ci < self.clauses.len()
            invariant
                self.wf(),
                n == self.num_vars,
                forall|k: int| 0 <= k < binaries@.len() ==> lit_within((#[trigger] binaries@[k]).0 as int, n as int)
                    && lit_within(binaries@[k].1 as int, n as int),
            decreases self.clauses@.len() - ci,
        {
            if !self.deleted[ci] {
                let lits = self.live_lits(ci);
                if lits.len() == 2 {
                    proof {
                        assert(lit_within(lits@[0] as int, n as int));
                        assert(lit_within(lits@[1] as int, n as int));
                    }
                    binaries.push((lits[0], lits[1]));
                }
            }
            ci = ci + 1;
        }
        let mut neg_lit_occ: Vec<Vec<usize>> = empty_lists(max_lit);
        let mut ci: usize = 0;
        while ci < self.clauses.len()
            invariant
                self.wf(),
                n == self.num_vars,
                max_lit == (n + 1) * 2,
                neg_lit_occ@.len() == max_lit,
                forall|i: int, j: int|
                    0 <= i < neg_lit_occ@.len() && 0 <= j < neg_lit_occ@[i]@.len() ==> #[trigger] neg_lit_occ@[i]@[j]
                        < self.clauses@.len(),
            decreases self.clauses@.len() - ci,
        {
            if !self.deleted[ci] {
                let lits = self.live_lits(ci);
                if lits.len() > 2 {
                    let mut k: usize = 0;
                    while k < lits.len()
                        invariant
                            self.wf(),
                            n == self.num_vars,
                            max_lit == (n + 1) * 2,
                            ci < self.clauses@.len(),
                            neg_lit_occ@.len() == max_lit,
                            forall|i: int, j: int|
                                0 <= i < neg_lit_occ@.len() && 0 <= j < neg_lit_occ@[i]@.len()
                                    ==> #[trigger] neg_lit_occ@[i]@[j] < self.clauses@.len(),
                            forall|j: int| 0 <= j < lits@.len() ==> lit_within(#[trigger] lits@[j] as int, n as int),
                        decreases lits@.len() - k,
                    {
                        let lit = lits[k];
                        proof {
                            assert(lit_within(lits@[k as int] as int, n as int));
                        }
                        let idx = occ_index(-lit);
                        if idx < max_lit {
                            neg_lit_occ[idx].push(ci);
                        }
                        k = k + 1;
                    }
                }
            }
            ci = ci + 1;
        }
        let mut bi: usize = 0;
        while bi < binaries.len()
            invariant
                self.wf(),
                n == self.num_vars,
                max_lit == (n + 1) * 2,
                self.clauses@.len() == old(self).clauses@.len(),
                self.unsat == old(self).unsat,
                neg_lit_occ@.len() == max_lit,
                forall|i: int, j: int|
                    0 <= i < neg_lit_occ@.len() && 0 <= j < neg_lit_occ@[i]@.len() ==> #[trigger] neg_lit_occ@[i]@[j]
                        < self.clauses@.len(),
                forall|k: int| 0 <= k < binaries@.len() ==> lit_within((#[trigger] binaries@[k]).0 as int, n as int)
                    && lit_within(binaries@[k].1 as int, n as int),
            decreases binaries@.len() - bi,
        {
            let (a, b) = binaries[bi];
            proof {
                assert(lit_within(binaries@[bi as int].0 as int, n as int));
            }
            bi = bi + 1;
            let a_idx = occ_index(a);
            if a_idx >= max_lit {
                continue;
            }
            let mut oi: usize = 0;
            while oi < neg_lit_occ[a_idx].len()
                invariant
                    self.wf(),
                    n == self.num_vars,
                    self.clauses@.len() == old(self).clauses@.len(),
                    self.unsat == old(self).unsat,
                    a_idx < neg_lit_occ@.len(),
                    lit_within(a as int, n as int),
                    forall|i: int, j: int|
                        0 <= i < neg_lit_occ@.len() && 0 <= j < neg_lit_occ@[i]@.len() ==> #[trigger] neg_lit_occ@[i]@[j]
                            < self.clauses@.len(),
                decreases neg_lit_occ@[a_idx as int]@.len() - oi,
            {
                let ci = neg_lit_occ[a_idx][oi];
                oi = oi + 1;
                proof {
                    assert(neg_lit_occ@[a_idx as int]@[oi - 1] < self.clauses@.len());
                }
                if self.deleted[ci] {
                    continue;
                }
                let lits = self.live_lits(ci);
                let neg_a = -a;
                let has_neg_a = lits_contain(&lits, neg_a);
                let has_b = lits_contain(&lits, b);
                if has_neg_a && has_b {
                    let old_c = self.clauses[ci].clone();
                    let mut kept: Vec<i32> = Vec::new();
                    let mut k: usize = 0;
                    while k < old_c.len()
                        invariant
                            self.wf(),
                            ci < self.clauses@.len(),
                            old_c@ == self.clauses@[ci as int]@,
                            n == self.num_vars,
                            forall|j: int| 0 <= j < kept@.len() ==> lit_within(#[trigger] kept@[j] as int, n as int),
                        decreases old_c@.len() - k,
                    {
                        proof {
                            assert(lit_within(self.clauses@[ci as int]@[k as int] as int, n as int));
                        }
                        if old_c[k] != neg_a {
                            kept.push(old_c[k]);
                        }
                        k = k + 1;
                    }
                    let ghost cs0 = self.clauses@;
                    self.clauses.set(ci, kept);
                    proof {
                        assert forall|i: int, k: int|
                            0 <= i < self.clauses@.len() && 0 <= k < self.clauses@[i]@.len() implies lit_within(
                            #[trigger] self.clauses@[i]@[k] as int,
                            n as int,
                        ) by {
                            if i != ci {
                                assert(self.clauses@[i] == cs0[i]);
                            }
                        }
                    }
                    let new_lits = self.live_lits(ci);
                    if new_lits.len() == 1 {
                        let lit = new_lits[0];
                        if self.assigned[var_index(lit)] == 0 {
                            self.set_true(lit);
                        }
                        self.deleted.set(ci, true);
                    }
                }
            }
        }
    }
}


/// A copy of an assignment.
fn copy_assignment(a: &Vec<i8>) -> (r: Vec<i8>)
    ensures
        r@ == a@,
{
    let mut r: Vec<i8> = Vec::new();
    let mut i: usize = 0;
    while i < a.len()
        invariant
            i <= a@.len(),
            r@ == a@.subrange(0, i as int),
        decreases a@.len() - i,
    {
        r.push(a[i]);
        i = i + 1;
        proof {
            assert(r@ =~= a@.subrange(0, i as int));
        }
    }
    proof {
        assert(a@.subrange(0, a@.len() as int) =~= a@);
    }
    r
}

impl Preprocessor {
    /// Tentatively sets `var` to `value` and propagates units over the live
    /// clauses listed in `lit_to_clause` (by literal index).  `None` on a
    /// conflict, otherwise the assignments made.  Without the literal 0, a
    /// conflict means that no model of the state gives `var` that value.
    fn probe(&self, var: usize, value: i8, lit_to_clause: &Vec<Vec<usize>>, max_lit: usize) -> (r: Option<
        Vec<(usize, i8)>,
    >)
        requires
            self.wf(),
            1 <= var <= self.num_vars,
            value == 1 || value == -1,
            lit_to_clause@.len() == max_lit,
            forall|i: int, j: int|
                0 <= i < lit_to_clause@.len() && 0 <= j < lit_to_clause@[i]@.len() ==> #[trigger] lit_to_clause@[i]@[j]
                    < self.clauses@.len(),
        ensures
            match r {
                Some(v) => forall|k: int| 0 <= k < v@.len() ==> (#[trigger] v@[k]).0 <= self.num_vars,
                None => true,
            },
            r is None && no_zero_lits(self.clauses@) ==> forall|a: spec_fn(int) -> bool|
                #[trigger] self.model(a) ==> a(var as int) != (value == 1),
    {
        let n = self.num_vars;
        let mut local = copy_assignment(&self.assigned);
        local.set(var, value);
        let first: i32 = if value > 0 { var as i32 } else { -(var as i32) };
        let mut queue: Vec<i32> = vec![first];
        let mut implied: Vec<(usize, i8)> = vec![(var, value)];
        proof {
            if no_zero_lits(self.clauses@) {
                assert forall|a: spec_fn(int) -> bool| #[trigger] self.model(a) && a(var as int) == (value == 1)
                    implies agrees(a, local@) by {
                    assert forall|w: int| 1 <= w < local@.len() implies (#[trigger] local@[w] == 1 ==> a(w)) && (
                    local@[w] == -1 ==> !a(w)) by {
                        if w != var {
                            assert(local@[w] == self.assigned@[w]);
                        }
                    }
                }
            }
        }
        while queue.len() > 0
            invariant
                no_zero_lits(self.clauses@) ==> forall|a: spec_fn(int) -> bool|
                    #[trigger] self.model(a) && a(var as int) == (value == 1) ==> agrees(a, local@),
                forall|w: int| 0 <= w < local@.len() ==> -1 <= #[trigger] local@[w] <= 1,
                self.wf(),
                n == self.num_vars,
                local@.len() == n + 1,
                lit_to_clause@.len() == max_lit,
                forall|i: int, j: int|
                    0 <= i < lit_to_clause@.len() && 0 <= j < lit_to_clause@[i]@.len() ==> #[trigger] lit_to_clause@[i]@[j]
                        < self.clauses@.len(),
                forall|k: int| 0 <= k < queue@.len() ==> lit_within(#[trigger] queue@[k] as int, n as int),
                forall|k: int| 0 <= k < implied@.len() ==> (#[trigger] implied@[k]).0 <= n,
            decreases free_count(local@) + queue@.len(),
        {
            let ghost q0 = queue@;
            let assigned_lit = match queue.pop() {
                Some(l) => l,
                None => 0,
            };
            proof {
                assert(lit_within(q0[q0.len() - 1] as int, n as int));
                assert forall|k: int| 0 <= k < queue@.len() implies lit_within(#[trigger] queue@[k] as int, n as int) by {
                    assert(queue@[k] == q0[k]);
                }
            }
            let ghost budget = free_count(local@) + queue@.len();
            let idx = occ_index(-assigned_lit);
            if idx >= max_lit {
                continue;
            }
            let mut oi: usize = 0;
            while oi < lit_to_clause[idx].len()
                invariant
                    self.wf(),
                    n == self.num_vars,
                    local@.len() == n + 1,
                    idx < lit_to_clause@.len(),
                    forall|i: int, j: int|
                        0 <= i < lit_to_clause@.len() && 0 <= j < lit_to_clause@[i]@.len() ==> #[trigger] lit_to_clause@[i]@[j]
                            < self.clauses@.len(),
                    forall|k: int| 0 <= k < queue@.len() ==> lit_within(#[trigger] queue@[k] as int, n as int),
                    forall|k: int| 0 <= k < implied@.len() ==> (#[trigger] implied@[k]).0 <= n,
                    free_count(local@) + queue@.len() == budget,
                    no_zero_lits(self.clauses@) ==> forall|a: spec_fn(int) -> bool|
                        #[trigger] self.model(a) && a(var as int) == (value == 1) ==> agrees(a, local@),
                    forall|w: int| 0 <= w < local@.len() ==> -1 <= #[trigger] local@[w] <= 1,
                decreases lit_to_clause@[idx as int]@.len() - oi,
            {
                let ci = lit_to_clause[idx][oi];
                oi = oi + 1;
                proof {
                    assert(lit_to_clause@[idx as int]@[oi - 1] < self.clauses@.len());
                }
                if self.deleted[ci] {
                    continue;
                }
                let mut unresolved_count: usize = 0;
                let mut unit_lit: i32 = 0;
                let mut satisfied = false;
                let c = &self.clauses[ci];
                let mut k: usize = 0;
                while k < c.len()
                    invariant_except_break
                        unresolved_count <= 1,
                        !satisfied,
                        unresolved_count > 0 ==> exists|j: int| 0 <= j < k && #[trigger] c@[j] == unit_lit,
                    invariant
                        self.wf(),
                        n == self.num_vars,
                        local@.len() == n + 1,
                        ci < self.clauses@.len(),
                        c@ == self.clauses@[ci as int]@,
                        k <= c@.len(),
                        lit_within(unit_lit as int, n as int),
                        unresolved_count > 0 ==> local@[lvar(unit_lit as int)] == 0,
                        forall|j: int| 0 <= j < k ==> !true_under(local@, #[trigger] c@[j] as int),
                        forall|j: int| 0 <= j < k && local@[lvar(#[trigger] c@[j] as int)] == 0
                            ==> unresolved_count >= 1 && (unresolved_count == 1 ==> c@[j] == unit_lit),
                    ensures
                        lit_within(unit_lit as int, n as int),
                        unresolved_count > 0 ==> local@[lvar(unit_lit as int)] == 0,
                        !satisfied && unresolved_count <= 1 ==> forall|j: int| 0 <= j < c@.len() ==> !true_under(local@, #[trigger] c@[j] as int),
                        !satisfied && unresolved_count <= 1 ==> forall|j: int| 0 <= j < c@.len() && local@[lvar(#[trigger] c@[j] as int)] == 0
                            ==> unresolved_count >= 1 && (unresolved_count == 1 ==> c@[j] == unit_lit),
                        !satisfied && unresolved_count == 1 ==> exists|j: int| 0 <= j < c@.len() && #[trigger] c@[j] == unit_lit,
                    decreases c@.len() - k,
                {
                    let lit = c[k];
                    proof {
                        assert(lit_within(self.clauses@[ci as int]@[k as int] as int, n as int));
                    }
                    let a = local[var_index(lit)];
                    if (lit > 0 && a == 1) || (lit < 0 && a == -1) {
                        satisfied = true;
                        break;
                    }
                    if a == 0 {
                        unresolved_count = unresolved_count + 1;
                        unit_lit = lit;
                        if unresolved_count > 1 {
                            break;
                        }
                    }
                    k = k + 1;
                }
                if satisfied {
                    continue;
                }
                let ghost cl = self.clauses@[ci as int]@;
                if unresolved_count == 0 {
                    proof {
                        if no_zero_lits(self.clauses@) {
                            assert forall|a: spec_fn(int) -> bool| #[trigger] self.model(a) implies a(var as int) != (value == 1) by {
                                if a(var as int) == (value == 1) {
                                    assert(agrees(a, local@));
                                    assert(vec_sat(a, cl));
                                    let j = choose|j: int| 0 <= j < cl.len() && lit_true(a, #[trigger] cl[j] as int);
                                    assert(cl[j] != 0);
                                    assert(lit_within(cl[j] as int, n as int));
                                    assert(!true_under(local@, cl[j] as int));
                                    assert(local@[lvar(cl[j] as int)] != 0);
                                    assert(false_under(local@, cl[j] as int));
                                    lemma_agrees_lit(a, local@, cl[j] as int);
                                }
                            }
                        }
                    }
                    return None;
                }
                if unresolved_count == 1 {
                    let v = var_index(unit_lit);
                    let val: i8 = if unit_lit > 0 { 1 } else { -1 };
                    if local[v] == 0 {
                        proof {
                            lemma_free_count_update(local@, v as int, val);
                        }
                        let ghost l0 = local@;
                        local.set(v, val);
                        queue.push(unit_lit);
                        implied.push((v, val));
                        proof {
                            if no_zero_lits(self.clauses@) {
                                assert forall|a: spec_fn(int) -> bool| #[trigger] self.model(a) && a(var as int) == (value
                                    == 1) implies agrees(a, local@) by {
                                    assert(agrees(a, l0));
                                    assert(vec_sat(a, cl));
                                    let j = choose|j: int| 0 <= j < cl.len() && lit_true(a, #[trigger] cl[j] as int);
                                    assert(cl[j] != 0);
                                    assert(lit_within(cl[j] as int, n as int));
                                    if l0[lvar(cl[j] as int)] != 0 {
                                        assert(!true_under(l0, cl[j] as int));
                                        assert(false_under(l0, cl[j] as int));
                                        lemma_agrees_lit(a, l0, cl[j] as int);
                                    }
                                    assert(cl[j] == unit_lit);
                                    assert forall|w: int| 1 <= w < local@.len() implies (#[trigger] local@[w] == 1 ==> a(w))
                                        && (local@[w] == -1 ==> !a(w)) by {
                                        if w != v {
                                            assert(local@[w] == l0[w]);
                                        }
                                    }
                                }
                            }
                        }
                    }
                }
            }
        }
        Some(implied)
    }

    /// Failed-literal probing: a free variable for which one polarity leads
    /// to a conflict is fixed to the other; both failing marks the formula
    /// unsatisfiable.  Satisfied clauses are then deleted.  Without the
    /// literal 0 the models stay the same.
    fn failed_literal_probing(&mut self)
        requires
            old(self).wf(),
        ensures
            final(self).wf(),
            final(self).clauses == old(self).clauses,
            final(self).num_vars == old(self).num_vars,
            old(self).unsat ==> final(self).unsat,
            no_zero_lits(old(self).clauses@) ==> forall|a: spec_fn(int) -> bool|
                #[trigger] final(self).model(a) == old(self).model(a),
    {
        let n = self.num_vars;
        let max_lit = (n + 1) * 2;
        let mut lit_to_clause: Vec<Vec<usize>> = empty_lists(max_lit);
        let mut ci: usize = 0;
        while ci < self.clauses.len()
            invariant
                self.wf(),
                self == old(self),
                n == self.num_vars,
                max_lit == (n + 1) * 2,
                lit_to_clause@.len() == max_lit,
                forall|i: int, j: int|
                    0 <= i < lit_to_clause@.len() && 0 <= j < lit_to_clause@[i]@.len() ==> #[trigger] lit_to_clause@[i]@[j]
                        < self.clauses@.len(),
            decreases self.clauses@.len() - ci,
        {
            if !self.deleted[ci] {
                let c = &self.clauses[ci];
                let mut k: usize = 0;
                while k < c.len()
                    invariant
                        self.wf(),
                        self == old(self),
                        n == self.num_vars,
                        max_lit == (n + 1) * 2,
                        ci < self.clauses@.len(),
                        c@ == self.clauses@[ci as int]@,
                        lit_to_clause@.len() == max_lit,
                        forall|i: int, j: int|
                            0 <= i < lit_to_clause@.len() && 0 <= j < lit_to_clause@[i]@.len()
                                ==> #[trigger] lit_to_clause@[i]@[j] < self.clauses@.len(),
                    decreases c@.len() - k,
                {
                    let lit = c[k];
                    proof {
                        assert(lit_within(self.clauses@[ci as int]@[k as int] as int, n as int));
                    }
                    if self.assigned[var_index(lit)] == 0 {
                        let idx = occ_index(lit);
                        if idx < max_lit {
                            lit_to_clause[idx].push(ci);
                        }
                    }
                    k = k + 1;
                }
            }
            ci = ci + 1;
        }
        let mut forced: usize = 0;
        let mut var: usize = 1;
        while var <= n
            invariant
                self.wf(),
                n == self.num_vars,
                n == old(self).num_vars,
                self.clauses == old(self).clauses,
                old(self).unsat ==> self.unsat,
                lit_to_clause@.len() == max_lit,
                forall|i: int, j: int|
                    0 <= i < lit_to_clause@.len() && 0 <= j < lit_to_clause@[i]@.len() ==> #[trigger] lit_to_clause@[i]@[j]
                        < self.clauses@.len(),
                1 <= var,
                forced < var,
                self.deleted == old(self).deleted,
                no_zero_lits(old(self).clauses@) ==> forall|a: spec_fn(int) -> bool|
                    #[trigger] self.model(a) == old(self).model(a),
            decreases n + 1 - var,
        {
            if self.assigned[var] == 0 {
                let pos = self.probe(var, 1, &lit_to_clause, max_lit);
                let neg = self.probe(var, -1, &lit_to_clause, max_lit);
                let ghost s0 = *self;
                match (pos, neg) {
                    (None, None) => {
                        self.unsat = true;
                        proof {
                            if no_zero_lits(old(self).clauses@) {
                                assert forall|a: spec_fn(int) -> bool| #[trigger] self.model(a) == old(self).model(a) by {
                                    if s0.model(a) {
                                        assert(a(var as int) != true);
                                        assert(a(var as int) != false);
                                    }
                                }
                            }
                        }
                        return;
                    },
                    (None, Some(_)) => {
                        self.assigned.set(var, -1);
                        forced = forced + 1;
                        proof {
                            if no_zero_lits(old(self).clauses@) {
                                assert forall|a: spec_fn(int) -> bool| #[trigger] self.model(a) == s0.model(a) by {
                                    if s0.model(a) {
                                        assert(a(var as int) != true);
                                        assert forall|w: int| 1 <= w < self.assigned@.len() implies (#[trigger] self.assigned@[w] == 1
                                            ==> a(w)) && (self.assigned@[w] == -1 ==> !a(w)) by {
                                            if w != var {
                                                assert(self.assigned@[w] == s0.assigned@[w]);
                                            }
                                        }
                                        assert(self.model(a));
                                    }
                                    if self.model(a) {
                                        assert forall|w: int| 1 <= w < s0.assigned@.len() implies (#[trigger] s0.assigned@[w] == 1
                                            ==> a(w)) && (s0.assigned@[w] == -1 ==> !a(w)) by {
                                            if w != var {
                                                assert(self.assigned@[w] == s0.assigned@[w]);
                                            }
                                        }
                                        assert(s0.model(a));
                                    }
                                }
                            }
                        }
                    },
                    (Some(_), None) => {
                        self.assigned.set(var, 1);
                        forced = forced + 1;
                        proof {
                            if no_zero_lits(old(self).clauses@) {
                                assert forall|a: spec_fn(int) -> bool| #[trigger] self.model(a) == s0.model(a) by {
                                    if s0.model(a) {
                                        assert(a(var as int) != false);
                                        assert forall|w: int| 1 <= w < self.assigned@.len() implies (#[trigger] self.assigned@[w] == 1
                                            ==> a(w)) && (self.assigned@[w] == -1 ==> !a(w)) by {
                                            if w != var {
                                                assert(self.assigned@[w] == s0.assigned@[w]);
                                            }
                                        }
                                        assert(self.model(a));
                                    }
                                    if self.model(a) {
                                        assert forall|w: int| 1 <= w < s0.assigned@.len() implies (#[trigger] s0.assigned@[w] == 1
                                            ==> a(w)) && (s0.assigned@[w] == -1 ==> !a(w)) by {
                                            if w != var {
                                                assert(self.assigned@[w] == s0.assigned@[w]);
                                            }
                                        }
                                        assert(s0.model(a));
                                    }
                                }
                            }
                        }
                    },
                    (Some(_), Some(_)) => {},
                }
            }
            var = var + 1;
        }
        if forced > 0 {
            self.delete_satisfied();
        }
    }
}


/// Every entry of every list is below `bound`.
pub open spec fn entries_below(lists: Seq<Vec<usize>>, bound: int) -> bool {
    forall|i: int, j: int| 0 <= i < lists.len() && 0 <= j < lists[i]@.len() ==> #[trigger] lists[i]@[j] < bound
}

impl Preprocessor {
    /// The clauses of `occ` that are live and not satisfied.
    fn live_unsatisfied(&self, occ: &Vec<usize>) -> (r: Vec<usize>)
        requires
            self.wf(),
            forall|j: int| 0 <= j < occ@.len() ==> #[trigger] occ@[j] < self.clauses@.len(),
        ensures
            forall|j: int| 0 <= j < r@.len() ==> #[trigger] r@[j] < self.clauses@.len(),
            r@.len() <= occ@.len(),
            r@ == self.live_of(occ@),
    {
        let mut r: Vec<usize> = Vec::new();
        let mut j: usize = 0;
        while j < occ.len()
            invariant
                self.wf(),
                j <= occ@.len(),
                r@.len() <= j,
                forall|k: int| 0 <= k < occ@.len() ==> #[trigger] occ@[k] < self.clauses@.len(),
                forall|k: int| 0 <= k < r@.len() ==> #[trigger] r@[k] < self.clauses@.len(),
                r@ == self.live_of(occ@.subrange(0, j as int)),
            decreases occ@.len() - j,
        {
            let ci = occ[j];
            proof {
                assert(occ@[j as int] < self.clauses@.len());
                assert(occ@.subrange(0, j + 1).drop_last() =~= occ@.subrange(0, j as int));
            }
            if !self.deleted[ci] && !self.clause_satisfied(ci) {
                r.push(ci);
            }
            j = j + 1;
        }
        proof {
            assert(occ@.subrange(0, occ@.len() as int) =~= occ@);
        }
        r
    }

    /// Clause `ci` has a literal made true by the assignment.
    spec fn satisfied_now(&self, ci: int) -> bool {
        exists|k: int|
            0 <= k < self.clauses@[ci]@.len() && {
                let l = #[trigger] self.clauses@[ci]@[k];
                (l > 0 && self.assigned@[lvar(l as int)] == 1) || (l < 0 && self.assigned@[lvar(l as int)] == -1)
            }
    }

    /// The clauses of `occ`, in order, that are neither deleted nor
    /// satisfied.
    spec fn live_of(&self, occ: Seq<usize>) -> Seq<usize>
        decreases occ.len(),
    {
        if occ.len() == 0 {
            occ
        } else {
            let ci = occ.last();
            let rest = self.live_of(occ.drop_last());
            if !self.deleted@[ci as int] && !self.satisfied_now(ci as int) {
                rest.push(ci)
            } else {
                rest
            }
        }
    }

    /// The resolvent on `var` of two clauses given by their free literals:
    /// the literals of `pos_lits` other than those of `var`, then those of
    /// `neg_lits` not yet present.  `None` when it is a tautology.
    fn resolve(&self, var: usize, pos_lits: &Vec<i32>, neg_lits: &Vec<i32>) -> (r: Option<Vec<i32>>)
        requires
            self.wf(),
            forall|k: int| 0 <= k < pos_lits@.len() ==> lit_within(#[trigger] pos_lits@[k] as int, self.num_vars as int),
            forall|k: int| 0 <= k < neg_lits@.len() ==> lit_within(#[trigger] neg_lits@[k] as int, self.num_vars as int),
        ensures
            match r {
                Some(v) => forall|k: int| 0 <= k < v@.len() ==> lit_within(#[trigger] v@[k] as int, self.num_vars as int)
                    && lvar(v@[k] as int) != var,
                None => true,
            },
            r is None <==> resolvent_tautology(pos_lits@, neg_lits@, var as int),
            r matches Some(v) ==> forall|x: i32| #[trigger] v@.contains(x) <==> lvar(x as int) != var && (pos_lits@.contains(x)
                || neg_lits@.contains(x)),
    {
        let n = self.num_vars;
        let mut res: Vec<i32> = Vec::new();
        let mut k: usize = 0;
        while k < pos_lits.len()
            invariant
                n == self.num_vars,
                n < 0x3fff_fff0,
                forall|j: int| 0 <= j < pos_lits@.len() ==> lit_within(#[trigger] pos_lits@[j] as int, n as int),
                forall|j: int| 0 <= j < res@.len() ==> lit_within(#[trigger] res@[j] as int, n as int) && lvar(
                    res@[j] as int,
                ) != var,
                forall|x: i32| #[trigger] res@.contains(x) <==> lvar(x as int) != var && pos_lits@.subrange(0, k as int).contains(x),
                k <= pos_lits@.len(),
            decreases pos_lits@.len() - k,
        {
            let lit = pos_lits[k];
            proof {
                assert(lit_within(pos_lits@[k as int] as int, n as int));
            }
            let ghost r0 = res@;
            if var_index(lit) != var {
                res.push(lit);
            }
            proof {
                assert forall|x: i32| #[trigger] res@.contains(x) <==> lvar(x as int) != var && pos_lits@.subrange(0, k + 1).contains(x) by {
                    if pos_lits@.subrange(0, k + 1).contains(x) && !pos_lits@.subrange(0, k as int).contains(x) {
                        let q = choose|q: int| 0 <= q < k + 1 && #[trigger] pos_lits@.subrange(0, k + 1)[q] == x;
                        if q < k {
                            assert(pos_lits@.subrange(0, k as int)[q] == x);
                        }
                    }
                    if pos_lits@.subrange(0, k as int).contains(x) {
                        let q = choose|q: int| 0 <= q < k && #[trigger] pos_lits@.subrange(0, k as int)[q] == x;
                        assert(pos_lits@.subrange(0, k + 1)[q] == x);
                    }
                    if res@.contains(x) && !r0.contains(x) {
                        assert(x == lit);
                        assert(pos_lits@.subrange(0, k + 1)[k as int] == x);
                    }
                    if r0.contains(x) {
                        let q = choose|q: int| 0 <= q < r0.len() && #[trigger] r0[q] == x;
                        assert(res@[q] == x);
                    }
                    if x == lit && lvar(x as int) != var {
                        assert(res@[res@.len() - 1] == x);
                    }
                }
            }
            k = k + 1;
        }
        proof {
            assert(pos_lits@.subrange(0, pos_lits@.len() as int) =~= pos_lits@);
            assert(neg_lits@.subrange(0, 0) =~= Seq::<i32>::empty());
            assert forall|x: i32| #[trigger] res@.contains(x) <==> lvar(x as int) != var && (pos_lits@.contains(x)
                || neg_lits@.subrange(0, 0).contains(x)) by {
                assert(pos_lits@.subrange(0, pos_lits@.len() as int) == pos_lits@);
                if neg_lits@.subrange(0, 0).contains(x) {
                    let q = choose|q: int| 0 <= q < 0 && #[trigger] neg_lits@.subrange(0, 0)[q] == x;
                }
            }
        }
        let mut k: usize = 0;
        while k < neg_lits.len()
            invariant
                n == self.num_vars,
                n < 0x3fff_fff0,
                forall|j: int| 0 <= j < neg_lits@.len() ==> lit_within(#[trigger] neg_lits@[j] as int, n as int),
                forall|j: int| 0 <= j < res@.len() ==> lit_within(#[trigger] res@[j] as int, n as int) && lvar(
                    res@[j] as int,
                ) != var,
                forall|x: i32| #[trigger] res@.contains(x) <==> lvar(x as int) != var && (pos_lits@.contains(x)
                    || neg_lits@.subrange(0, k as int).contains(x)),
                !resolvent_tautology(pos_lits@, neg_lits@.subrange(0, k as int), var as int),
                k <= neg_lits@.len(),
            decreases neg_lits@.len() - k,
        {
            let lit = neg_lits[k];
            proof {
                assert(lit_within(neg_lits@[k as int] as int, n as int));
                assert(neg_lits@.subrange(0, k + 1)[k as int] == lit);
            }
            let ghost r0 = res@;
            let ghost in_r0 = r0.contains((-lit) as i32);
            if var_index(lit) != var {
                if lits_contain(&res, -lit) {
                    proof {
                        lemma_taut_prefix(pos_lits@, neg_lits@, var as int, k as int);
                    }
                    return None;
                }
                if !lits_contain(&res, lit) {
                    res.push(lit);
                }
            }
            proof {
                let nk = neg_lits@.subrange(0, k as int);
                let nk1 = neg_lits@.subrange(0, k + 1);
                assert forall|x: i32| nk.contains(x) implies nk1.contains(x) by {
                    let q = choose|q: int| 0 <= q < nk.len() && #[trigger] nk[q] == x;
                    assert(nk1[q] == x);
                }
                assert forall|x: i32| nk1.contains(x) && x != lit implies nk.contains(x) by {
                    let q = choose|q: int| 0 <= q < nk1.len() && #[trigger] nk1[q] == x;
                    assert(nk[q] == x);
                }
                assert forall|x: i32| #[trigger] res@.contains(x) <==> lvar(x as int) != var && (pos_lits@.contains(x)
                    || nk1.contains(x)) by {
                    if r0.contains(x) {
                        let q = choose|q: int| 0 <= q < r0.len() && #[trigger] r0[q] == x;
                        assert(res@[q] == x);
                    }
                    if res@.contains(x) && !r0.contains(x) {
                        assert(x == lit);
                    }
                    if x == lit && lvar(x as int) != var {
                        if !r0.contains(x) {
                            assert(res@[res@.len() - 1] == x);
                        }
                    }
                }
                assert forall|j: int| 0 <= j < nk1.len() && lvar(#[trigger] nk1[j] as int) != var implies !pos_lits@.contains(
                    (-nk1[j]) as i32,
                ) && !nk1.subrange(0, j).contains((-nk1[j]) as i32) by {
                    if j < k {
                        assert(nk1[j] == nk[j]);
                        assert(nk1.subrange(0, j) =~= nk.subrange(0, j));
                    } else {
                        assert(nk1[j] == lit);
                        assert(!in_r0);
                        assert(nk1.subrange(0, j) =~= nk);
                        if nk.contains((-lit) as i32) {
                            let q = choose|q: int| 0 <= q < nk.len() && #[trigger] nk[q] == (-lit) as i32;
                            assert(lvar(nk[q] as int) == lvar(lit as int));
                            assert(r0.contains((-lit) as i32));
                        }
                    }
                }
                assert(!resolvent_tautology(pos_lits@, nk1, var as int));
            }
            k = k + 1;
        }
        proof {
            assert(neg_lits@.subrange(0, neg_lits@.len() as int) =~= neg_lits@);
        }
        Some(res)
    }

    /// Bounded variable elimination: a free variable occurring in few live
    /// clauses (product of positive and negative occurrence counts at most
    /// 100, cheapest first) is eliminated when its non-tautological
    /// resolvents are no more numerous than the clauses they replace and
    /// their count stays within 20 of that product.  Its clauses are deleted
    /// and the resolvents added: an empty one marks the formula
    /// unsatisfiable, a unit one fixes its literal (or marks the formula
    /// unsatisfiable if the opposite is already fixed).
    fn bounded_variable_elimination(&mut self)
        requires
            old(self).wf(),
        ensures
            final(self).wf(),
            final(self).num_vars == old(self).num_vars,
            old(self).unsat ==> final(self).unsat,
    {
        let n = self.num_vars;
        let mut pos_occ: Vec<Vec<usize>> = empty_lists(n + 1);
        let mut neg_occ: Vec<Vec<usize>> = empty_lists(n + 1);
        let mut ci: usize = 0;
        while ci < self.clauses.len()
            invariant
                self.wf(),
                n == self.num_vars,
                pos_occ@.len() == n + 1,
                neg_occ@.len() == n + 1,
                entries_below(pos_occ@, self.clauses@.len() as int),
                entries_below(neg_occ@, self.clauses@.len() as int),
            decreases self.clauses@.len() - ci,
        {
            if !self.deleted[ci] {
                let c = &self.clauses[ci];
                let mut k: usize = 0;
                while k < c.len()
                    invariant
                        self.wf(),
                        n == self.num_vars,
                        ci < self.clauses@.len(),
                        c@ == self.clauses@[ci as int]@,
                        pos_occ@.len() == n + 1,
                        neg_occ@.len() == n + 1,
                        entries_below(pos_occ@, self.clauses@.len() as int),
                        entries_below(neg_occ@, self.clauses@.len() as int),
                    decreases c@.len() - k,
                {
                    let lit = c[k];
                    proof {
                        assert(lit_within(self.clauses@[ci as int]@[k as int] as int, n as int));
                    }
                    let var = var_index(lit);
                    if self.assigned[var] == 0 {
                        if lit > 0 {
                            pos_occ[var].push(ci);
                        } else {
                            neg_occ[var].push(ci);
                        }
                    }
                    k = k + 1;
                }
            }
            ci = ci + 1;
        }
        let mut candidates: Vec<(u64, usize)> = Vec::new();
        let mut var: usize = 1;
        while var <= n
            invariant
                self.wf(),
                n == self.num_vars,
                pos_occ@.len() == n + 1,
                neg_occ@.len() == n + 1,
                1 <= var,
                forall|k: int| 0 <= k < candidates@.len() ==> 1 <= (#[trigger] candidates@[k]).1 <= n,
            decreases n + 1 - var,
        {
            if self.assigned[var] == 0 {
                let p = pos_occ[var].len();
                let q = neg_occ[var].len();
                if p > 0 && q > 0 && p <= 100 && q <= 100 {
                    proof {
                        assert(p * q <= 100 * 100) by (nonlinear_arith)
                            requires
                                p <= 100,
                                q <= 100,
                        ;
                    }
                    if p * q <= 100 {
                        candidates.push(((p * q) as u64, var));
                    }
                }
            }
            var = var + 1;
        }
        let sorted = sort_by_key(candidates);
        let mut si: usize = 0;
        while si < sorted.len()
            invariant
                self.wf(),
                n == self.num_vars,
                n == old(self).num_vars,
                old(self).unsat ==> self.unsat,
                pos_occ@.len() == n + 1,
                neg_occ@.len() == n + 1,
                entries_below(pos_occ@, self.clauses@.len() as int),
                entries_below(neg_occ@, self.clauses@.len() as int),
                forall|k: int| 0 <= k < sorted@.len() ==> 1 <= (#[trigger] sorted@[k]).1 <= n,
            decreases sorted@.len() - si,
        {
            if self.unsat {
                break;
            }
            let var = sorted[si].1;
            proof {
                assert(1 <= sorted@[si as int].1 <= n);
            }
            si = si + 1;
            let pos = self.live_unsatisfied(&pos_occ[var]);
            let neg = self.live_unsatisfied(&neg_occ[var]);
            let p = pos.len();
            let q = neg.len();
            if p == 0 || q == 0 {
                continue;
            }
            proof {
                assert((p as u128) * (q as u128) <= 0xFFFF_FFFF_FFFF_FFFFu128 * 0xFFFF_FFFF_FFFF_FFFFu128) by (nonlinear_arith)
                    requires
                        p <= 0xFFFF_FFFF_FFFF_FFFFu64,
                        q <= 0xFFFF_FFFF_FFFF_FFFFu64,
                ;
            }
            if (p as u128) * (q as u128) > (p as u128) + (q as u128) + 20 {
                continue;
            }
            let mut resolvents: Vec<Vec<i32>> = Vec::new();
            let mut profitable = true;
            let mut pi: usize = 0;
            while pi < pos.len() && profitable
                invariant
                    self.wf(),
                    n == self.num_vars,
                    forall|j: int| 0 <= j < pos@.len() ==> #[trigger] pos@[j] < self.clauses@.len(),
                    forall|j: int| 0 <= j < neg@.len() ==> #[trigger] neg@[j] < self.clauses@.len(),
                    clauses_within(resolvents@, n as int),
                decreases pos@.len() - pi,
            {
                let pos_lits = self.live_lits(pos[pi]);
                let mut ni: usize = 0;
                while ni < neg.len() && profitable
                    invariant
                        self.wf(),
                        n == self.num_vars,
                        forall|j: int| 0 <= j < neg@.len() ==> #[trigger] neg@[j] < self.clauses@.len(),
                        forall|k: int| 0 <= k < pos_lits@.len() ==> lit_within(#[trigger] pos_lits@[k] as int, n as int),
                        clauses_within(resolvents@, n as int),
                    decreases neg@.len() - ni,
                {
                    let neg_lits = self.live_lits(neg[ni]);
                    match self.resolve(var, &pos_lits, &neg_lits) {
                        Some(res) => {
                            let ghost r0 = resolvents@;
                            resolvents.push(res);
                            proof {
                                assert forall|i: int, k: int|
                                    0 <= i < resolvents@.len() && 0 <= k < resolvents@[i]@.len() implies lit_within(
                                    #[trigger] resolvents@[i]@[k] as int,
                                    n as int,
                                ) by {
                                    if i < r0.len() {
                                        assert(resolvents@[i] == r0[i]);
                                    }
                                }
                            }
                            if (resolvents.len() as u128) > (p as u128) + (q as u128) {
                                profitable = false;
                            }
                        },
                        None => {},
                    }
                    ni = ni + 1;
                }
                pi = pi + 1;
            }
            if !profitable {
                continue;
            }
            let mut k: usize = 0;
            while k < pos.len()
                invariant
                    self.wf(),
                    n == self.num_vars,
                    old(self).unsat ==> self.unsat,
                    entries_below(pos_occ@, self.clauses@.len() as int),
                    entries_below(neg_occ@, self.clauses@.len() as int),
                    forall|j: int| 0 <= j < pos@.len() ==> #[trigger] pos@[j] < self.clauses@.len(),
                    forall|j: int| 0 <= j < neg@.len() ==> #[trigger] neg@[j] < self.clauses@.len(),
                    pos_occ@.len() == n + 1,
                    neg_occ@.len() == n + 1,
                    clauses_within(resolvents@, n as int),
                    n == old(self).num_vars,
                decreases pos@.len() - k,
            {
                proof {
                    assert(pos@[k as int] < self.clauses@.len());
                }
                self.deleted.set(pos[k], true);
                k = k + 1;
            }
            let mut k: usize = 0;
            while k < neg.len()
                invariant
                    self.wf(),
                    n == self.num_vars,
                    old(self).unsat ==> self.unsat,
                    entries_below(pos_occ@, self.clauses@.len() as int),
                    entries_below(neg_occ@, self.clauses@.len() as int),
                    forall|j: int| 0 <= j < neg@.len() ==> #[trigger] neg@[j] < self.clauses@.len(),
                    pos_occ@.len() == n + 1,
                    neg_occ@.len() == n + 1,
                    clauses_within(resolvents@, n as int),
                    n == old(self).num_vars,
                decreases neg@.len() - k,
            {
                proof {
                    assert(neg@[k as int] < self.clauses@.len());
                }
                self.deleted.set(neg[k], true);
                k = k + 1;
            }
            let mut ri: usize = 0;
            while ri < resolvents.len()
                invariant
                    self.wf(),
                    n == self.num_vars,
                    n == old(self).num_vars,
                    old(self).unsat ==> self.unsat,
                    pos_occ@.len() == n + 1,
                    neg_occ@.len() == n + 1,
                    entries_below(pos_occ@, self.clauses@.len() as int),
                    entries_below(neg_occ@, self.clauses@.len() as int),
                    clauses_within(resolvents@, n as int),
                decreases resolvents@.len() - ri,
            {
                let res = resolvents[ri].clone();
                proof {
                    assert forall|k: int| 0 <= k < res@.len() implies lit_within(#[trigger] res@[k] as int, n as int) by {
                        assert(lit_within(resolvents@[ri as int]@[k] as int, n as int));
                    }
                }
                ri = ri + 1;
                if res.len() == 0 {
                    self.unsat = true;
                    break;
                } else if res.len() == 1 {
                    let lit = res[0];
                    let v = var_index(lit);
                    if self.assigned[v] == 0 {
                        self.set_true(lit);
                    } else {
                        let expected: i8 = if lit > 0 { 1 } else { -1 };
                        if self.assigned[v] != expected {
                            self.unsat = true;
                            break;
                        }
                    }
                } else {
                    let ci = self.clauses.len();
                    let ghost cs0 = self.clauses@;
                    self.clauses.push(res.clone());
                    self.deleted.push(false);
                    proof {
                        assert forall|i: int, k: int|
                            0 <= i < self.clauses@.len() && 0 <= k < self.clauses@[i]@.len() implies lit_within(
                            #[trigger] self.clauses@[i]@[k] as int,
                            n as int,
                        ) by {
                            if i < cs0.len() {
                                assert(self.clauses@[i] == cs0[i]);
                            }
                        }
                    }
                    let mut k: usize = 0;
                    while k < res.len()
                        invariant
                            self.wf(),
                            n == self.num_vars,
                            ci < self.clauses@.len(),
                            pos_occ@.len() == n + 1,
                            neg_occ@.len() == n + 1,
                            entries_below(pos_occ@, self.clauses@.len() as int),
                            entries_below(neg_occ@, self.clauses@.len() as int),
                            forall|j: int| 0 <= j < res@.len() ==> lit_within(#[trigger] res@[j] as int, n as int),
                        decreases res@.len() - k,
                    {
                        let lit = res[k];
                        proof {
                            assert(lit_within(res@[k as int] as int, n as int));
                        }
                        let v = var_index(lit);
                        if lit > 0 {
                            pos_occ[v].push(ci);
                        } else {
                            neg_occ[v].push(ci);
                        }
                        k = k + 1;
                    }
                }
            }
        }
    }
}


/// A union-find forest: every link stays in range and leads to a node of
/// higher rank.
pub open spec fn uf_wf(parent: Seq<usize>, rank: Seq<u8>) -> bool {
    &&& parent.len() == rank.len()
    &&& forall|x: int|
        0 <= x < parent.len() ==> #[trigger] parent[x] < parent.len() && (parent[x] != x ==> rank[x]
            < rank[parent[x] as int])
}

/// The root of `x`'s tree; every node on the way is linked straight to it.
fn uf_find(parent: &mut Vec<usize>, rank: &Vec<u8>, x: usize) -> (r: usize)
    requires
        uf_wf(old(parent)@, rank@),
        x < old(parent)@.len(),
    ensures
        uf_wf(final(parent)@, rank@),
        final(parent)@.len() == old(parent)@.len(),
        r < final(parent)@.len(),
        final(parent)@[r as int] == r,
        rank@[x as int] <= rank@[r as int],
        forall|y: int| 0 <= y < old(parent)@.len() && old(parent)@[y] == y ==> #[trigger] final(parent)@[y] == y,
    decreases 256 - rank@[x as int],
{
    let p = parent[x];
    if p != x {
        let r = uf_find(parent, rank, p);
        parent.set(x, r);
        r
    } else {
        x
    }
}

/// Merges the trees of `a` and `b` (union by rank).  Leaves them apart in
/// the one case a rank would pass 255, which takes more than 2^255 nodes.
fn uf_union(parent: &mut Vec<usize>, rank: &mut Vec<u8>, a: usize, b: usize)
    requires
        uf_wf(old(parent)@, old(rank)@),
        a < old(parent)@.len(),
        b < old(parent)@.len(),
    ensures
        uf_wf(final(parent)@, final(rank)@),
        final(parent)@.len() == old(parent)@.len(),
{
    let ra = uf_find(parent, rank, a);
    let rb = uf_find(parent, rank, b);
    if ra == rb {
        return;
    }
    if rank[ra] < rank[rb] {
        parent.set(ra, rb);
    } else if rank[ra] > rank[rb] {
        parent.set(rb, ra);
    } else if rank[ra] < 255 {
        parent.set(rb, ra);
        let r = rank[ra];
        rank.set(ra, r + 1);
    }
}

impl Preprocessor {
    /// Equivalent-literal substitution: variables `a` and `b` are merged when
    /// the live binary clauses give both `a -> b` and `b -> a` (positive
    /// literals only); every variable is then replaced by the root of its
    /// class.  A changed clause is sorted by variable and freed of repeated
    /// literals, and deleted when it holds a literal and its negation.
    fn equivalent_literal_substitution(&mut self)
        requires
            old(self).wf(),
        ensures
            final(self).wf(),
            final(self).num_vars == old(self).num_vars,
            final(self).clauses@.len() == old(self).clauses@.len(),
            final(self).assigned == old(self).assigned,
            final(self).unsat == old(self).unsat,
    {
        let n = self.num_vars;
        let max_lit = (n + 1) * 2;
        let mut implies: Vec<Vec<i32>> = empty_lists(max_lit);
        let mut ci: usize = 0;
        while ci < self.clauses.len()
            invariant
                self.wf(),
                n == self.num_vars,
                max_lit == (n + 1) * 2,
                implies@.len() == max_lit,
            decreases self.clauses@.len() - ci,
        {
            if !self.deleted[ci] {
                let lits = self.live_lits(ci);
                if lits.len() == 2 {
                    let a = lits[0];
                    let b = lits[1];
                    proof {
                        assert(lit_within(lits@[0] as int, n as int));
                        assert(lit_within(lits@[1] as int, n as int));
                    }
                    let na_idx = occ_index(-a);
                    let nb_idx = occ_index(-b);
                    if na_idx < max_lit {
                        implies[na_idx].push(b);
                    }
                    if nb_idx < max_lit {
                        implies[nb_idx].push(a);
                    }
                }
            }
            ci = ci + 1;
        }
        let mut parent: Vec<usize> = Vec::new();
        let mut v: usize = 0;
        while v <= n
            invariant
                n < 0x3fff_fff0,
                parent@.len() == v,
                v <= n + 1,
                forall|x: int| 0 <= x < v ==> #[trigger] parent@[x] == x,
            decreases n + 1 - v,
        {
            parent.push(v);
            v = v + 1;
        }
        let mut rank: Vec<u8> = vec_of(n + 1, 0u8);
        let mut merged = false;
        let mut var_a: usize = 1;
        while var_a <= n
            invariant
                self.wf(),
                self == old(self),
                n == self.num_vars,
                max_lit == (n + 1) * 2,
                implies@.len() == max_lit,
                parent@.len() == n + 1,
                uf_wf(parent@, rank@),
                1 <= var_a,
            decreases n + 1 - var_a,
        {
            if self.assigned[var_a] != 0 {
                var_a = var_a + 1;
                continue;
            }
            let a_pos_idx = occ_index(var_a as i32);
            if a_pos_idx >= max_lit {
                var_a = var_a + 1;
                continue;
            }
            let mut bi: usize = 0;
            while bi < implies[a_pos_idx].len()
                invariant
                    self.wf(),
                    self == old(self),
                    n == self.num_vars,
                    max_lit == (n + 1) * 2,
                    implies@.len() == max_lit,
                    a_pos_idx < max_lit,
                    parent@.len() == n + 1,
                    uf_wf(parent@, rank@),
                    1 <= var_a <= n,
                decreases implies@[a_pos_idx as int]@.len() - bi,
            {
                let b = implies[a_pos_idx][bi];
                bi = bi + 1;
                if b <= 0 {
                    continue;
                }
                let var_b = b as usize;
                if var_b > n || self.assigned[var_b] != 0 {
                    continue;
                }
                let b_pos_idx = occ_index(b);
                if b_pos_idx < max_lit && lits_contain(&implies[b_pos_idx], var_a as i32) {
                    let ra = uf_find(&mut parent, &rank, var_a);
                    let rb = uf_find(&mut parent, &rank, var_b);
                    if ra != rb {
                        uf_union(&mut parent, &mut rank, var_a, var_b);
                        merged = true;
                    }
                }
            }
            var_a = var_a + 1;
        }
        if !merged {
            return;
        }
        let mut repr: Vec<i32> = Vec::new();
        repr.push(0);
        let mut v: usize = 1;
        while v <= n
            invariant
                n < 0x3fff_fff0,
                parent@.len() == n + 1,
                uf_wf(parent@, rank@),
                repr@.len() == v,
                1 <= v <= n + 1,
                forall|x: int| 0 <= x < repr@.len() ==> 0 <= #[trigger] repr@[x] <= n,
            decreases n + 1 - v,
        {
            let root = uf_find(&mut parent, &rank, v);
            repr.push(root as i32);
            v = v + 1;
        }
        let mut ci: usize = 0;
        while ci < self.clauses.len()
            invariant
                self.wf(),
                n == self.num_vars,
                n == old(self).num_vars,
                self.clauses@.len() == old(self).clauses@.len(),
                self.assigned == old(self).assigned,
                self.unsat == old(self).unsat,
                repr@.len() == n + 1,
                forall|x: int| 0 <= x < repr@.len() ==> 0 <= #[trigger] repr@[x] <= n,
            decreases self.clauses@.len() - ci,
        {
            if self.deleted[ci] {
                ci = ci + 1;
                continue;
            }
            let c = &self.clauses[ci];
            let mut mapped: Vec<i32> = Vec::new();
            let mut modified = false;
            let mut k: usize = 0;
            while k < c.len()
                invariant
                    self.wf(),
                    n == self.num_vars,
                    ci < self.clauses@.len(),
                    c@ == self.clauses@[ci as int]@,
                    repr@.len() == n + 1,
                    forall|x: int| 0 <= x < repr@.len() ==> 0 <= #[trigger] repr@[x] <= n,
                    forall|j: int| 0 <= j < mapped@.len() ==> lit_within(#[trigger] mapped@[j] as int, n as int),
                decreases c@.len() - k,
            {
                let lit = c[k];
                proof {
                    assert(lit_within(self.clauses@[ci as int]@[k as int] as int, n as int));
                }
                let var = var_index(lit);
                let new_var = repr[var];
                if new_var != var as i32 {
                    mapped.push(if lit > 0 { new_var } else { -new_var });
                    modified = true;
                } else {
                    mapped.push(lit);
                }
                k = k + 1;
            }
            if modified {
                let (clause, taut) = sorted_distinct_by_var(mapped, n);
                let ghost cs0 = self.clauses@;
                self.clauses.set(ci, clause);
                proof {
                    assert forall|i: int, k: int|
                        0 <= i < self.clauses@.len() && 0 <= k < self.clauses@[i]@.len() implies lit_within(
                        #[trigger] self.clauses@[i]@[k] as int,
                        n as int,
                    ) by {
                        if i != ci {
                            assert(self.clauses@[i] == cs0[i]);
                        }
                    }
                }
                if taut {
                    self.deleted.set(ci, true);
                }
            }
            ci = ci + 1;
        }
    }
}

/// Sorts literals by variable, drops repeated neighbours, and tells whether
/// a literal and its negation end up side by side.
fn sorted_distinct_by_var(lits: Vec<i32>, n: usize) -> (r: (Vec<i32>, bool))
    requires
        n < 0x3fff_fff0,
        forall|j: int| 0 <= j < lits@.len() ==> lit_within(#[trigger] lits@[j] as int, n as int),
    ensures
        forall|j: int| 0 <= j < r.0@.len() ==> lit_within(#[trigger] r.0@[j] as int, n as int),
{
    let mut keyed: Vec<(u64, i32)> = Vec::new();
    let mut k: usize = 0;
    while k < lits.len()
        invariant
            n < 0x3fff_fff0,
            forall|j: int| 0 <= j < lits@.len() ==> lit_within(#[trigger] lits@[j] as int, n as int),
            forall|j: int| 0 <= j < keyed@.len() ==> lit_within((#[trigger] keyed@[j]).1 as int, n as int),
        decreases lits@.len() - k,
    {
        let lit = lits[k];
        proof {
            assert(lit_within(lits@[k as int] as int, n as int));
        }
        keyed.push((var_index(lit) as u64, lit));
        k = k + 1;
    }
    let sorted = sort_by_key(keyed);
    let mut out: Vec<i32> = Vec::new();
    let mut taut = false;
    let mut k: usize = 0;
    while k < sorted.len()
        invariant
            n < 0x3fff_fff0,
            forall|j: int| 0 <= j < keyed@.len() ==> lit_within((#[trigger] keyed@[j]).1 as int, n as int),
            forall|j: int| 0 <= j < sorted@.len() ==> keyed@.contains(#[trigger] sorted@[j]),
            forall|j: int| 0 <= j < out@.len() ==> lit_within(#[trigger] out@[j] as int, n as int),
        decreases sorted@.len() - k,
    {
        let lit = sorted[k].1;
        proof {
            assert(keyed@.contains(sorted@[k as int]));
            let q = choose|q: int| 0 <= q < keyed@.len() && #[trigger] keyed@[q] == sorted@[k as int];
            assert(lit_within(keyed@[q].1 as int, n as int));
        }
        if out.len() == 0 || out[out.len() - 1] != lit {
            if out.len() > 0 && out[out.len() - 1] == -lit {
                taut = true;
            }
            out.push(lit);
        }
        k = k + 1;
    }
    (out, taut)
}


impl Preprocessor {
    /// Light preprocessing: unit propagation, self-subsumption, pure
    /// literals and variable elimination.
    fn run_light(&mut self)
        requires
            old(self).wf(),
        ensures
            final(self).wf(),
            final(self).num_vars == old(self).num_vars,
    {
        self.unit_propagate();
        if self.unsat {
            return;
        }
        self.self_subsumption();
        self.unit_propagate();
        if self.unsat {
            return;
        }
        self.pure_literal_elimination();
        self.bounded_variable_elimination();
        self.unit_propagate();
    }

    /// Full preprocessing: up to three rounds of all techniques (those not
    /// left out by `opts`), stopping early when a round adds no clause, then
    /// a last unit propagation and subsumption.
    fn run(&mut self, opts: PreprocessOptions)
        requires
            old(self).wf(),
        ensures
            final(self).wf(),
            final(self).num_vars == old(self).num_vars,
    {
        let mut round: usize = 0;
        while round < 3
            invariant
                self.wf(),
                self.num_vars == old(self).num_vars,
            decreases 3 - round,
        {
            round = round + 1;
            let before = self.clauses.len();
            self.unit_propagate();
            if self.unsat {
                return;
            }
            if !opts.skip_equiv {
                self.equivalent_literal_substitution();
            }
            self.unit_propagate();
            if self.unsat {
                return;
            }
            if !opts.skip_pure {
                self.pure_literal_elimination();
            }
            self.self_subsumption();
            self.subsumption();
            if !opts.skip_probe {
                self.failed_literal_probing();
            }
            if self.unsat {
                return;
            }
            if !opts.skip_bve {
                self.bounded_variable_elimination();
            }
            if self.unsat {
                return;
            }
            if self.clauses.len() == before {
                break;
            }
        }
        self.unit_propagate();
        self.subsumption();
    }
}

/// Full preprocessing with every technique.  Returns the simplified clauses
/// (see `preprocess_with_options`).
pub fn preprocess(clauses: Vec<Vec<i32>>, num_vars: usize) -> (r: Vec<Vec<i32>>)
    requires
        preprocess_input_ok(clauses@, num_vars),
    ensures
        is_contradiction(r@) || clauses_within(r@, num_vars as int),
{
    preprocess_with_assignments(clauses, num_vars).0
}

/// Full preprocessing with every technique; also returns the assignment
/// made along the way (`[var]` is 1, -1 or 0 for free).
pub fn preprocess_with_assignments(clauses: Vec<Vec<i32>>, num_vars: usize) -> (r: (Vec<Vec<i32>>, Vec<i8>))
    requires
        preprocess_input_ok(clauses@, num_vars),
    ensures
        preprocess_outcome(r.0@, r.1@, num_vars as int),
{
    preprocess_with_options(clauses, num_vars, PreprocessOptions::all())
}

/// What a preprocessing run hands back: an assignment of `0..=n` with values
/// in {-1, 0, 1}, and either the contradiction `x1 ∧ ¬x1` or clauses whose
/// literals are within `n` and all of free variables.
pub open spec fn preprocess_outcome(cs: Seq<Vec<i32>>, assigned: Seq<i8>, n: int) -> bool {
    &&& assigned.len() == n + 1
    &&& forall|v: int| 0 <= v <= n ==> -1 <= #[trigger] assigned[v] <= 1
    &&& is_contradiction(cs) || (clauses_within(cs, n) && forall|i: int, k: int|
        0 <= i < cs.len() && 0 <= k < cs[i]@.len() ==> #[trigger] assigned[lvar(cs[i]@[k] as int)] == 0)
}

/// The formula `x1 ∧ ¬x1`.
pub open spec fn is_contradiction(cs: Seq<Vec<i32>>) -> bool {
    cs.len() == 2 && cs[0]@ == seq![1i32] && cs[1]@ == seq![-1i32]
}

/// Full preprocessing leaving out the techniques that `opts` names.
pub fn preprocess_with_options(clauses: Vec<Vec<i32>>, num_vars: usize, opts: PreprocessOptions) -> (r: (
    Vec<Vec<i32>>,
    Vec<i8>,
))
    requires
        preprocess_input_ok(clauses@, num_vars),
    ensures
        preprocess_outcome(r.0@, r.1@, num_vars as int),
{
    let mut pp = Preprocessor::new(clauses, num_vars);
    pp.run(opts);
    let assigned = copy_assignment(&pp.assigned);
    let out = pp.into_clauses();
    (out, assigned)
}

/// Light preprocessing (self-subsumption, pure literals and variable
/// elimination, with unit propagation), as used between searches.
pub fn preprocess_light(clauses: Vec<Vec<i32>>, num_vars: usize) -> (r: Vec<Vec<i32>>)
    requires
        preprocess_input_ok(clauses@, num_vars),
    ensures
        is_contradiction(r@) || clauses_within(r@, num_vars as int),
{
    let mut pp = Preprocessor::new(clauses, num_vars);
    pp.run_light();
    pp.into_clauses()
}

} // verus!
