//! Literals, clauses, and the truth semantics that every contract of the
//! crate is stated in.
//!
//! A variable is a positive integer.  A signed literal `x` stands for the
//! variable `x` when `x > 0` and for its negation when `x < 0` (DIMACS
//! convention).  An assignment is a spec function from variables to truth
//! values.
use vstd::prelude::*;

verus! {

// ---------------------------------------------------------------------------
// Semantics
// ---------------------------------------------------------------------------

/// Truth value of the signed literal `x` under assignment `a`.
pub open spec fn lit_true(a: spec_fn(int) -> bool, x: int) -> bool {
    if x > 0 {
        a(x)
    } else {
        !a(-x)
    }
}

/// A clause (disjunction of signed literals) is satisfied when one of its
/// literals is true.
pub open spec fn clause_sat(a: spec_fn(int) -> bool, c: Seq<int>) -> bool {
    exists|k: int| 0 <= k < c.len() && #[trigger] lit_true(a, c[k])
}

/// A formula (conjunction of clauses) is satisfied when all clauses are.
pub open spec fn formula_sat(a: spec_fn(int) -> bool, f: Seq<Seq<int>>) -> bool {
    forall|i: int| 0 <= i < f.len() ==> #[trigger] clause_sat(a, f[i])
}

/// The formula has a model.
pub open spec fn satisfiable(f: Seq<Seq<int>>) -> bool {
    exists|a: spec_fn(int) -> bool| #[trigger] formula_sat(a, f)
}

/// Every model of `f` satisfies the clause `c`.
pub open spec fn entails(f: Seq<Seq<int>>, c: Seq<int>) -> bool {
    forall|a: spec_fn(int) -> bool| #[trigger] formula_sat(a, f) ==> clause_sat(a, c)
}

/// Widens a sequence of machine literals to mathematical integers.
pub open spec fn ints(s: Seq<i32>) -> Seq<int> {
    s.map_values(|x: i32| x as int)
}

/// Widens a sequence of machine clauses.
pub open spec fn int_clauses(s: Seq<Vec<i32>>) -> Seq<Seq<int>> {
    s.map_values(|c: Vec<i32>| ints(c@))
}

/// All literals of the clause are non-zero and their variables are at most `n`.
pub open spec fn clause_in_range(c: Seq<int>, n: int) -> bool {
    forall|k: int| 0 <= k < c.len() ==> #[trigger] c[k] != 0 && -n <= c[k] <= n
}

/// Every clause of the formula is in range.
pub open spec fn formula_in_range(f: Seq<Seq<int>>, n: int) -> bool {
    forall|i: int| 0 <= i < f.len() ==> #[trigger] clause_in_range(f[i], n)
}

/// Swapping two literals of a clause does not change its truth value.
pub proof fn lemma_clause_sat_swap(a: spec_fn(int) -> bool, c: Seq<int>, i: int, j: int)
    requires
        0 <= i < c.len(),
        0 <= j < c.len(),
    ensures
        clause_sat(a, c.update(i, c[j]).update(j, c[i])) == clause_sat(a, c),
{
    let d = c.update(i, c[j]).update(j, c[i]);
    if clause_sat(a, c) {
        let k = choose|k: int| 0 <= k < c.len() && #[trigger] lit_true(a, c[k]);
        if k == i {
            assert(lit_true(a, d[j]));
        } else if k == j {
            assert(lit_true(a, d[i]));
        } else {
            assert(lit_true(a, d[k]));
        }
    }
    if clause_sat(a, d) {
        let k = choose|k: int| 0 <= k < d.len() && #[trigger] lit_true(a, d[k]);
        if k == i {
            assert(lit_true(a, c[j]));
        } else if k == j {
            assert(lit_true(a, c[i]));
        } else {
            assert(lit_true(a, c[k]));
        }
    }
}

/// If `f` entails every clause of `g`, every model of `f` is a model of `g`.
pub proof fn lemma_entails_all(f: Seq<Seq<int>>, g: Seq<Seq<int>>, a: spec_fn(int) -> bool)
    requires
        forall|i: int| 0 <= i < g.len() ==> #[trigger] entails(f, g[i]),
        formula_sat(a, f),
    ensures
        formula_sat(a, g),
{
    assert forall|i: int| 0 <= i < g.len() implies #[trigger] clause_sat(a, g[i]) by {
        assert(entails(f, g[i]));
    }
}

// ---------------------------------------------------------------------------
// Literal and Clause
// ---------------------------------------------------------------------------

/// A literal is a variable or its negation.
#[derive(Debug, Clone, Copy, PartialEq, Eq, Hash, Structural)]
pub struct Literal {
    /// The variable number (should be positive).
    pub var: i32,
    /// Whether this literal is negated.
    pub negated: bool,
}

/// The signed (DIMACS) form of a literal, as a mathematical integer.
pub open spec fn signed(l: Literal) -> int {
    if l.negated {
        -(l.var as int)
    } else {
        l.var as int
    }
}

/// The signed forms of a sequence of literals.
pub open spec fn signed_seq(s: Seq<Literal>) -> Seq<int> {
    s.map_values(|l: Literal| signed(l))
}

/// A literal whose variable is a valid (positive) variable number.
pub open spec fn literal_wf(l: Literal) -> bool {
    l.var >= 1
}

impl Literal {
    /// Creates a positive (non-negated) literal for the given variable.
    pub fn positive(var: i32) -> (lit: Self)
        ensures
            lit.var == var,
            !lit.negated,
    {
        Literal { var, negated: false }
    }

    /// Creates a negative (negated) literal for the given variable.
    pub fn negative(var: i32) -> (lit: Self)
        ensures
            lit.var == var,
            lit.negated,
    {
        Literal { var, negated: true }
    }

    /// Converts the literal to its signed integer (DIMACS) representation:
    /// `var` for a positive literal, `-var` for a negated one.
    pub fn as_signed(self) -> (r: i32)
        requires
            !(self.negated && self.var == i32::MIN),
        ensures
            r as int == signed(self),
    {
        if self.negated {
            -self.var
        } else {
            self.var
        }
    }
}

/// A clause is a disjunction (OR) of literals.
#[derive(Debug, Clone)]
pub struct Clause {
    /// The literals in this clause.
    pub literals: Vec<Literal>,
}

impl View for Clause {
    type V = Seq<Literal>;

    open spec fn view(&self) -> Seq<Literal> {
        self.literals@
    }
}

/// The signed forms of the literals of a clause.
pub open spec fn clause_ints(c: Clause) -> Seq<int> {
    signed_seq(c.literals@)
}

/// The formula denoted by a sequence of clauses.
pub open spec fn clauses_formula(cs: Seq<Clause>) -> Seq<Seq<int>> {
    cs.map_values(|c: Clause| clause_ints(c))
}

/// All literals of all clauses have positive variables.
pub open spec fn clauses_wf(cs: Seq<Clause>) -> bool {
    forall|i: int, k: int|
        0 <= i < cs.len() && 0 <= k < cs[i].literals@.len() ==> literal_wf(
            #[trigger] cs[i].literals@[k],
        )
}

impl Clause {
    /// Creates a new clause with the given literals.
    pub fn new(literals: Vec<Literal>) -> (c: Self)
        ensures
            c@ == literals@,
    {
        Clause { literals }
    }

    /// Creates a unit clause containing a single literal.
    pub fn unit(lit: Literal) -> (c: Self)
        ensures
            c@ == seq![lit],
    {
        let mut v = Vec::new();
        v.push(lit);
        Clause { literals: v }
    }

    /// Returns true if this is a unit clause (exactly one literal).
    pub fn is_unit(&self) -> (b: bool)
        ensures
            b == (self@.len() == 1),
    {
        self.literals.len() == 1
    }

    /// Returns the number of literals in this clause.
    pub fn len(&self) -> (n: usize)
        ensures
            n == self@.len(),
    {
        self.literals.len()
    }

    /// Returns true if this clause has no literals (it is always false).
    pub fn is_empty(&self) -> (b: bool)
        ensures
            b == (self@.len() == 0),
    {
        self.literals.len() == 0
    }
}

} // verus!
