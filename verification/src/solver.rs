//! CDCL (Conflict-Driven Clause Learning) SAT solver.
//!
//! - Two-watched literals with blocking literals for clauses of three or more
//!   literals, and a binary implication graph for two-literal clauses.
//! - First-UIP conflict analysis with recursive clause minimization.
//! - Non-chronological backtracking.
//! - VSIDS variable selection through a position-indexed heap, phase saving
//!   and a small fraction of random decisions.
//! - Glucose-style restarts with a Luby fallback, LBD-based clause database
//!   reduction and arena garbage collection.
//!
//! Heuristic scores are fixed-point integers: a variable's activity is a
//! `u64` bumped by an increment that grows by a factor 20/19 per conflict
//! (decay 0.95), and a learned clause's activity is a `u32` bumped by an
//! increment that grows by a factor 1000/999 (decay 0.999); both are scaled
//! down when the increment grows too large.
//!
//! Soundness does not rest on the heuristics: every clause the solver learns
//! is proved to follow from the input formula, and a satisfying answer is
//! checked against the input clauses before it is reported.
use vstd::prelude::*;

use crate::clause_arena::{ArenaClause, ClauseArena, CRef, CREF_UNDEF, LEN_MASK};
use crate::expr::{int_decimal, push_int_decimal};
use crate::drat::{clause_line, DratLogger};
use crate::heap::VarHeap;
use crate::search::{find_model, lemma_formula_agree_nonzero, vals_model, wide_clauses, widen_ints};
use crate::literal::{
    clause_in_range, clause_sat, clauses_formula, clauses_wf, entails, formula_in_range,
    formula_sat, ints, lit_true, literal_wf, satisfiable, signed, Clause, Literal,
};
use crate::text::{push_chars, str_chars, string_from_chars};

verus! {

// ---------------------------------------------------------------------------
// Literal helpers
// ---------------------------------------------------------------------------

/// The variable of a signed literal.
pub open spec fn var_of(l: int) -> int {
    if l < 0 {
        -l
    } else {
        l
    }
}

/// Watch-list index of a signed literal: `2v` for `v`, `2v + 1` for `-v`.
pub open spec fn lit_idx(l: int) -> int {
    if l < 0 {
        2 * (-l) + 1
    } else {
        2 * l
    }
}

/// The literal is non-zero and its variable is at most `n`.
pub open spec fn in_range(l: int, n: int) -> bool {
    l != 0 && -n <= l <= n
}

/// Value of a literal under a vector of variable values
/// (1 true, -1 false, 0 unassigned).
pub open spec fn value_of_lit(values: Seq<i8>, l: int) -> int {
    if l < 0 {
        -(values[-l] as int)
    } else {
        values[l] as int
    }
}

/// The assignment that makes true exactly the variables whose value is 1.
pub open spec fn model_of(values: Seq<i8>) -> spec_fn(int) -> bool {
    |v: int| values[v] == 1
}

/// The non-empty clauses of a formula (the solver ignores empty clauses of
/// its input).
pub open spec fn drop_empty(f: Seq<Seq<int>>) -> Seq<Seq<int>>
    decreases f.len(),
{
    if f.len() == 0 {
        f
    } else if f.last().len() > 0 {
        drop_empty(f.drop_last()).push(f.last())
    } else {
        drop_empty(f.drop_last())
    }
}

/// The largest variable of a sequence of literals (0 when there is none).
pub open spec fn lits_max_var(s: Seq<Literal>) -> int
    decreases s.len(),
{
    if s.len() == 0 {
        0
    } else {
        let m = lits_max_var(s.drop_last());
        if s.last().var > m {
            s.last().var as int
        } else {
            m
        }
    }
}

/// The largest variable of a sequence of clauses (0 when there is none).
pub open spec fn clauses_max_var(cs: Seq<Clause>) -> int
    decreases cs.len(),
{
    if cs.len() == 0 {
        0
    } else {
        let m = clauses_max_var(cs.drop_last());
        let k = lits_max_var(cs.last()@);
        if k > m {
            k
        } else {
            m
        }
    }
}

/// Arena words needed to store the clauses (an upper bound: one header
/// word per clause plus one word per literal).
pub open spec fn clause_words(cs: Seq<Clause>) -> int
    decreases cs.len(),
{
    if cs.len() == 0 {
        0
    } else {
        clause_words(cs.drop_last()) + 1 + cs.last()@.len()
    }
}

/// What the solver can be given: variables are positive and small enough to
/// index its tables, and the clauses fit in one clause arena.
pub open spec fn solver_input_ok(cs: Seq<Clause>) -> bool {
    &&& clauses_wf(cs)
    &&& forall|i: int, k: int|
        0 <= i < cs.len() && 0 <= k < cs[i]@.len() ==> (#[trigger] cs[i]@[k]).var < 0x3fff_ffff
    &&& forall|i: int| 0 <= i < cs.len() ==> (#[trigger] cs[i])@.len() <= LEN_MASK
    &&& clause_words(cs) < u32::MAX
}

/// A larger formula entails everything a smaller one does.
pub proof fn lemma_entails_push(f: Seq<Seq<int>>, c: Seq<int>, d: Seq<int>)
    requires
        entails(f, c),
    ensures
        entails(f.push(d), c),
{
    assert forall|a: spec_fn(int) -> bool| #[trigger] formula_sat(a, f.push(d)) implies clause_sat(
        a,
        c,
    ) by {
        assert forall|i: int| 0 <= i < f.len() implies #[trigger] clause_sat(a, f[i]) by {
            assert(f.push(d)[i] == f[i]);
        }
        assert(formula_sat(a, f));
    }
}

/// Every clause of a formula is entailed by it.
pub proof fn lemma_entails_member(f: Seq<Seq<int>>, i: int)
    requires
        0 <= i < f.len(),
    ensures
        entails(f, f[i]),
{
}

// ---------------------------------------------------------------------------
// Errors
// ---------------------------------------------------------------------------

/// Errors that can occur during SAT solving.
///
/// They report internal inconsistencies detected by the solver's checks;
/// they do not occur in normal operation.
#[derive(Debug, Clone, PartialEq)]
pub enum SolverError {
    /// A variable in the implication graph was not in the state conflict
    /// analysis expected.
    InvalidConflictAnalysis {
        /// The variable that caused the error.
        variable: i32,
        /// Description of what went wrong.
        message: String,
    },
    /// An internal invariant was violated.
    InternalError(String),
}

/// The text of a solver error.
pub open spec fn solver_error_message(e: SolverError) -> Seq<char> {
    match e {
        SolverError::InvalidConflictAnalysis { variable, message } => "Invalid conflict analysis at variable "@
            + int_decimal(variable as int) + ": "@ + message@,
        SolverError::InternalError(msg) => "Internal solver error: "@ + msg@,
    }
}

impl SolverError {
    /// The human-readable message of the error.
    pub fn to_string(&self) -> (s: String)
        ensures
            s@ == solver_error_message(*self),
    {
        let mut out: Vec<char> = Vec::new();
        match self {
            SolverError::InvalidConflictAnalysis { variable, message } => {
                let head = str_chars("Invalid conflict analysis at variable ");
                push_chars(&mut out, head.as_slice());
                push_int_decimal(&mut out, *variable);
                let sep = str_chars(": ");
                push_chars(&mut out, sep.as_slice());
                let m = str_chars(message.as_str());
                push_chars(&mut out, m.as_slice());
            },
            SolverError::InternalError(msg) => {
                let head = str_chars("Internal solver error: ");
                push_chars(&mut out, head.as_slice());
                let m = str_chars(msg.as_str());
                push_chars(&mut out, m.as_slice());
            },
        }
        string_from_chars(&out)
    }
}

// ---------------------------------------------------------------------------
// Solver state
// ---------------------------------------------------------------------------

/// Assignment information of a variable: its decision level (-1 when
/// unassigned) and the clause that implied it (`CREF_UNDEF` for decisions).
#[derive(Debug, Clone, Copy)]
struct Assignment {
    decision_level: i32,
    antecedent: CRef,
}

/// A watch-list entry: the watched clause and a blocking literal of it.
#[derive(Debug, Clone, Copy)]
struct Watcher {
    cref: CRef,
    blocker: i32,
}

/// Clause `cr`, with literals `c`, is in the watch lists: a binary clause
/// in the implication lists of the negations of both its literals, a longer
/// one in the watch lists of its first two literals.
spec fn watch_entry(ws: Seq<Vec<Watcher>>, bs: Seq<Vec<(i32, CRef)>>, cr: CRef, c: Seq<int>) -> bool {
    if c.len() == 2 {
        &&& exists|b: int|
            0 <= b < bs[lit_idx(-c[0])]@.len() && #[trigger] bs[lit_idx(-c[0])]@[b] == (c[1] as i32, cr)
        &&& exists|b: int|
            0 <= b < bs[lit_idx(-c[1])]@.len() && #[trigger] bs[lit_idx(-c[1])]@[b] == (c[0] as i32, cr)
    } else {
        &&& exists|b: int| 0 <= b < ws[lit_idx(c[0])]@.len() && (#[trigger] ws[lit_idx(c[0])]@[b]).cref == cr
        &&& exists|b: int| 0 <= b < ws[lit_idx(c[1])]@.len() && (#[trigger] ws[lit_idx(c[1])]@[b]).cref == cr
    }
}

impl Watcher {
    fn long(cr: CRef, blocker: i32) -> (w: Self)
        ensures
            w.cref == cr,
            w.blocker == blocker,
    {
        Watcher { cref: cr, blocker }
    }

    fn clause_idx(self) -> (cr: CRef)
        ensures
            cr == self.cref,
    {
        self.cref
    }
}

/// A CDCL SAT solver.
pub struct CDCLSolver {
    /// Arena-allocated clause database.
    arena: ClauseArena,
    /// References of the live clauses: input clauses first, then learned ones.
    clause_refs: Vec<CRef>,
    /// Number of variables; variables are `1..=num_vars`.
    num_vars: i32,
    /// Value of each variable: -1 false, 0 unassigned, 1 true (index 0 unused).
    values: Vec<i8>,
    /// Decision level and antecedent of each variable.
    assignments: Vec<Assignment>,
    /// Assigned literals in chronological order.
    trail: Vec<i32>,
    /// Trail positions at which each decision level starts.
    trail_lim: Vec<usize>,
    /// Current decision level.
    decision_level: i32,
    /// Variable activity increment.
    activity_inc: u64,
    /// Watch lists of clauses of three or more literals, by literal index.
    watches: Vec<Vec<Watcher>>,
    /// Binary implication graph: `bin_implies[idx(l)]` lists `(m, cr)` where
    /// `cr` is a two-literal clause `(-l, m)`.
    bin_implies: Vec<Vec<(i32, CRef)>>,
    /// Trail position of the next literal to propagate.
    qhead: usize,
    /// Scratch marks for conflict analysis.
    seen: Vec<bool>,
    /// Variable order heap (VSIDS); holds the activities.
    var_heap: VarHeap,
    /// The input clauses contradict each other at level 0.
    initial_conflict: bool,
    /// Saved phase of each variable.
    saved_phase: Vec<bool>,
    /// Total number of conflicts.
    conflicts: u64,
    /// Conflict count at which the Luby schedule restarts next.
    conflicts_until_restart: u64,
    /// Index in the Luby sequence.
    luby_index: u32,
    /// Conflicts per Luby unit.
    luby_unit: u64,
    /// Sum of the LBDs of all learned clauses.
    lbd_sum: u64,
    /// Conflict count at the last restart.
    last_restart_conflicts: u64,
    /// LBDs of the most recent learned clauses (circular buffer).
    recent_lbds: Vec<u32>,
    /// Next slot of `recent_lbds`.
    recent_lbd_idx: usize,
    /// `recent_lbds` has been filled at least once.
    recent_lbd_full: bool,
    /// Index in `clause_refs` of the first learned clause.
    first_learned_idx: usize,
    /// Number of live learned clauses.
    num_learned_alive: usize,
    /// Learned-clause count above which the database is reduced.
    max_learned: usize,
    /// State of the xorshift32 generator used for random decisions.
    rng_state: u32,
    /// Fraction of random decisions, in thousandths.
    random_var_freq: u32,
    /// Statistics.
    decisions: u64,
    propagations: u64,
    restarts: u64,
    reductions: u64,
    /// Clause activity increment.
    clause_act_inc: u32,
    /// The clauses the solver was given, as signed literals.
    input: Vec<Vec<i32>>,
    /// Trail position of each assigned variable.
    tpos: Ghost<Seq<int>>,
    /// DRAT proof log of learned and deleted clauses.
    drat: DratLogger,
}

/// Number of slots in the recent-LBD buffer.
pub const RECENT_LBD_WINDOW: usize = 50;

/// Initial (and rescaled) variable activity increment.
pub const VAR_INC_UNIT: u64 = 0x10_0000u64;

/// Variable increment above which activities are scaled down.
pub const VAR_INC_LIMIT: u64 = 0x100_0000_0000u64;

/// Initial (and rescaled) clause activity increment.
pub const CLAUSE_INC_UNIT: u32 = 0x10_0000u32;

/// Clause increment above which clause activities are scaled down.
pub const CLAUSE_INC_LIMIT: u32 = 0x4000_0000u32;

impl CDCLSolver {
    // -----------------------------------------------------------------------
    // Abstract state
    // -----------------------------------------------------------------------

    /// The formula the solver decides: the clauses it was given (the
    /// non-empty ones, and one empty clause when it was given any).
    pub closed spec fn formula(&self) -> Seq<Seq<int>> {
        crate::literal::int_clauses(self.input@)
    }

    /// The clauses were found contradictory before any search (an empty
    /// clause, or unit clauses that clash at decision level 0).
    pub closed spec fn refuted(&self) -> bool {
        self.initial_conflict
    }

    /// The clause `c` is one of the clauses held in the clause database
    /// from the start, and, with two literals or more, it is watched.
    pub closed spec fn stored(&self, c: Seq<int>) -> bool {
        exists|j: int|
            0 <= j < self.clause_refs@.len() && self.arena.valid(#[trigger] self.clause_refs@[j])
                && self.clits(self.clause_refs@[j]) == c
                && (c.len() >= 2 ==> watch_entry(self.watches@, self.bin_implies@, self.clause_refs@[j], c))
    }

    /// Literal `l` is true under the current assignment.
    pub closed spec fn holds(&self, l: int) -> bool {
        self.lv(l) == 1
    }

    /// DRAT proof logging is on.
    pub closed spec fn drat_enabled(&self) -> bool {
        self.drat.enabled_spec()
    }

    /// `self` is `other` with, at most, another proof logger.
    pub closed spec fn same_but_drat(&self, other: &Self) -> bool {
        *self == (CDCLSolver { drat: self.drat, ..*other })
    }

    /// The DRAT proof text logged so far.
    pub closed spec fn drat_text(&self) -> Seq<char> {
        self.drat.proof_text()
    }

    /// Number of variables.
    pub closed spec fn nvars(&self) -> int {
        self.num_vars as int
    }

    /// Current value of variable `v` (1 true, -1 false, 0 unassigned).
    pub closed spec fn val(&self, v: int) -> int {
        self.values@[v] as int
    }

    /// The current (partial) assignment, read as a total one: unassigned
    /// variables are false.
    pub open spec fn model(&self) -> spec_fn(int) -> bool {
        |v: int| self.val(v) == 1
    }

    pub closed spec fn lv(&self, l: int) -> int {
        value_of_lit(self.values@, l)
    }

    pub closed spec fn level(&self, v: int) -> int {
        self.assignments@[v].decision_level as int
    }

    pub closed spec fn ant(&self, v: int) -> CRef {
        self.assignments@[v].antecedent
    }

    /// The literal of an assigned variable that is true.
    pub closed spec fn tlit(&self, v: int) -> int {
        if self.values@[v] == 1 {
            v
        } else {
            -v
        }
    }

    pub closed spec fn clits(&self, cr: CRef) -> Seq<int> {
        ints(self.arena.lits_of(cr))
    }

    pub closed spec fn assigned(&self, v: int) -> bool {
        1 <= v <= self.num_vars && self.values@[v] != 0
    }

    // -----------------------------------------------------------------------
    // Invariant
    // -----------------------------------------------------------------------

    pub closed spec fn inv_sizes(&self) -> bool {
        let n = self.num_vars as int;
        &&& 0 <= n < 0x3fff_ffff
        &&& self.values@.len() == n + 1
        &&& self.assignments@.len() == n + 1
        &&& self.saved_phase@.len() == n + 1
        &&& self.seen@.len() == n + 1
        &&& self.tpos@.len() == n + 1
        &&& self.watches@.len() == 2 * (n + 1)
        &&& self.bin_implies@.len() == 2 * (n + 1)
        &&& self.var_heap.inv()
        &&& self.var_heap.slots() == n + 1
        &&& self.recent_lbds@.len() == RECENT_LBD_WINDOW
        &&& self.recent_lbd_idx < RECENT_LBD_WINDOW
        &&& self.first_learned_idx <= self.clause_refs@.len()
        &&& self.qhead <= self.trail@.len()
        &&& self.activity_inc >= 1
        &&& self.clause_act_inc >= 1
    }

    pub closed spec fn inv_arena(&self) -> bool {
        let n = self.num_vars as int;
        &&& self.arena.wf()
        &&& forall|cr: CRef| #[trigger] self.arena.valid(cr) ==> clause_in_range(self.clits(cr), n)
            && entails(self.formula(), self.clits(cr))
        &&& forall|i: int| 0 <= i < self.clause_refs@.len() ==> self.arena.valid(
            #[trigger] self.clause_refs@[i],
        )
        &&& formula_in_range(self.formula(), n)
    }

    pub closed spec fn inv_watches(&self) -> bool {
        let n = self.num_vars as int;
        &&& forall|i: int, j: int|
            0 <= i < self.watches@.len() && 0 <= j < self.watches@[i]@.len() ==> {
                let w = #[trigger] self.watches@[i]@[j];
                self.arena.valid(w.cref) && in_range(w.blocker as int, n)
            }
        &&& forall|i: int, j: int|
            0 <= i < self.bin_implies@.len() && 0 <= j < self.bin_implies@[i]@.len() ==> {
                let e = #[trigger] self.bin_implies@[i]@[j];
                self.arena.valid(e.1) && in_range(e.0 as int, n)
            }
    }

    pub closed spec fn inv_trail(&self) -> bool {
        let n = self.num_vars as int;
        let t = self.trail@;
        &&& self.values@[0] == 0
        &&& forall|v: int| 0 <= v <= n ==> -1 <= #[trigger] self.values@[v] <= 1
        &&& forall|i: int|
            0 <= i < t.len() ==> in_range(#[trigger] t[i] as int, n) && self.tpos@[var_of(
                t[i] as int,
            )] == i && self.lv(t[i] as int) == 1
        &&& forall|v: int|
            1 <= v <= n && #[trigger] self.values@[v] != 0 ==> 0 <= self.tpos@[v] < t.len()
                && var_of(t[self.tpos@[v]] as int) == v
    }

    pub closed spec fn inv_levels(&self) -> bool {
        let n = self.num_vars as int;
        let t = self.trail@;
        let lim = self.trail_lim@;
        &&& self.decision_level as int == lim.len()
        &&& forall|k: int, l: int| 0 <= k <= l < lim.len() ==> #[trigger] lim[k] <= #[trigger] lim[l]
        &&& forall|k: int| 0 <= k < lim.len() ==> #[trigger] lim[k] <= t.len()
        &&& forall|v: int|
            1 <= v <= n && #[trigger] self.values@[v] != 0 ==> 0 <= self.level(v)
                <= self.decision_level
        &&& forall|i: int, k: int|
            0 <= i < t.len() && 0 <= k < lim.len() ==> ((i < #[trigger] lim[k]) == (self.level(
                var_of(#[trigger] t[i] as int),
            ) <= k))
    }

    /// Why an assigned variable holds: every other literal of its antecedent
    /// is false and was assigned earlier.
    pub closed spec fn reason_ok(&self, v: int) -> bool {
        let c = self.clits(self.ant(v));
        &&& self.arena.valid(self.ant(v))
        &&& forall|k: int|
            0 <= k < c.len() ==> #[trigger] c[k] == self.tlit(v) || (self.lv(c[k]) == -1
                && self.tpos@[var_of(c[k])] < self.tpos@[v])
    }

    pub closed spec fn inv_reasons(&self) -> bool {
        let n = self.num_vars as int;
        &&& forall|v: int|
            1 <= v <= n && #[trigger] self.values@[v] != 0 && self.level(v) == 0 ==> entails(
                self.formula(),
                seq![self.tlit(v)],
            )
        &&& forall|v: int|
            1 <= v <= n && #[trigger] self.values@[v] != 0 && self.ant(v) != CREF_UNDEF
                ==> self.reason_ok(v)
    }

    /// No variable is marked by conflict analysis.
    pub closed spec fn seen_clear(&self) -> bool {
        forall|v: int| 0 <= v < self.seen@.len() ==> !#[trigger] self.seen@[v]
    }

    pub closed spec fn inv_misc(&self) -> bool {
        self.initial_conflict ==> !satisfiable(self.formula())
    }

    /// The invariant, except for the marks of conflict analysis.
    pub closed spec fn inv_core(&self) -> bool {
        &&& self.inv_sizes()
        &&& self.inv_arena()
        &&& self.inv_watches()
        &&& self.inv_trail()
        &&& self.inv_levels()
        &&& self.inv_reasons()
        &&& self.inv_misc()
    }

    /// The solver's internal invariant.
    pub closed spec fn inv(&self) -> bool {
        &&& self.inv_core()
        &&& self.seen_clear()
    }

    // -----------------------------------------------------------------------
    // Literal access
    // -----------------------------------------------------------------------

    /// Watch-list index of a literal: positive literals map to even indices,
    /// negative ones to odd.
    fn lit_to_watch_idx(lit: i32, _num_vars: i32) -> (r: usize)
        requires
            lit != i32::MIN,
            -0x3fff_ffff <= lit <= 0x3fff_ffff,
        ensures
            r == lit_idx(lit as int),
    {
        if lit < 0 {
            ((-lit) as usize) * 2 + 1
        } else {
            (lit as usize) * 2
        }
    }

    /// Value of a literal: 1 satisfied, -1 falsified, 0 unassigned.
    fn lit_value(&self, lit: i32) -> (r: i8)
        requires
            self.inv_sizes(),
            self.inv_trail(),
            in_range(lit as int, self.num_vars as int),
        ensures
            r as int == self.lv(lit as int),
            -1 <= r <= 1,
    {
        if lit < 0 {
            let v = self.values[(-lit) as usize];
            -v
        } else {
            self.values[lit as usize]
        }
    }
}


/// A clause whose literals other than `l` are all refuted by `f` yields `l`.
pub proof fn lemma_unit_resolution(f: Seq<Seq<int>>, c: Seq<int>, l: int)
    requires
        entails(f, c),
        forall|k: int| 0 <= k < c.len() ==> #[trigger] c[k] != 0,
        forall|k: int| 0 <= k < c.len() && c[k] != l ==> entails(f, seq![-c[k]]),
    ensures
        entails(f, seq![l]),
{
    assert forall|a: spec_fn(int) -> bool| #[trigger] formula_sat(a, f) implies clause_sat(
        a,
        seq![l],
    ) by {
        assert(clause_sat(a, c));
        let k = choose|k: int| 0 <= k < c.len() && #[trigger] lit_true(a, c[k]);
        if c[k] != l {
            assert(entails(f, seq![-c[k]]));
            assert(clause_sat(a, seq![-c[k]]));
            assert(lit_true(a, seq![-c[k]][0]));
            assert(false);
        }
        assert(lit_true(a, seq![l][0]));
    }
}

impl CDCLSolver {
    /// Assigns `lit` at the current decision level, records it on the trail
    /// and saves its phase.  `antecedent` is the clause that implied it
    /// (`None` for a decision or an input unit).
    fn assign(&mut self, lit: i32, antecedent: Option<CRef>)
        requires
            old(self).inv(),
            in_range(lit as int, old(self).nvars()),
            old(self).lv(lit as int) == 0,
            match antecedent {
                None => old(self).decision_level == 0 ==> entails(
                    old(self).formula(),
                    seq![lit as int],
                ),
                Some(cr) => cr != CREF_UNDEF && old(self).arena.valid(cr) && forall|k: int|
                    0 <= k < old(self).clits(cr).len() ==> #[trigger] old(self).clits(cr)[k]
                        == lit || old(self).lv(old(self).clits(cr)[k]) == -1,
            },
        ensures
            final(self).inv(),
            final(self).trail@ == old(self).trail@.push(lit),
            final(self).values@ == old(self).values@.update(
                var_of(lit as int),
                if lit > 0 { 1i8 } else { -1i8 },
            ),
            final(self).formula() == old(self).formula(),
            final(self).arena == old(self).arena,
            final(self).watches == old(self).watches,
            final(self).bin_implies == old(self).bin_implies,
            final(self).trail_lim == old(self).trail_lim,
            final(self).decision_level == old(self).decision_level,
            final(self).qhead == old(self).qhead,
            final(self).clause_refs == old(self).clause_refs,
            final(self).var_heap == old(self).var_heap,
            final(self).num_vars == old(self).num_vars,
            final(self).level(var_of(lit as int)) == old(self).decision_level,
            final(self).ant(var_of(lit as int)) == match antecedent {
                Some(cr) => cr,
                None => CREF_UNDEF,
            },
            antecedent is Some ==> final(self).implied_since(&*old(self)),
            final(self).input == old(self).input,
            forall|v: int| 0 <= v < old(self).assignments@.len() && v != var_of(lit as int)
                ==> #[trigger] final(self).assignments@[v] == old(self).assignments@[v],
            final(self).seen == old(self).seen,
            final(self).first_learned_idx == old(self).first_learned_idx,
            final(self).num_learned_alive == old(self).num_learned_alive,
            final(self).initial_conflict == old(self).initial_conflict,
            final(self).conflicts == old(self).conflicts,
            final(self).activity_inc == old(self).activity_inc,
            final(self).clause_act_inc == old(self).clause_act_inc,
            final(self).propagation_frame(&*old(self)),
            final(self).propagations == old(self).propagations,
    {
        let ghost s0 = *self;
        let ghost n = self.num_vars as int;
        let var: usize = if lit < 0 { (-lit) as usize } else { lit as usize };
        let is_positive = lit > 0;
        let ghost pos = self.trail@.len() as int;
        proof {
            if self.decision_level == 0 {
                if let Some(cr) = antecedent {
                    let c = s0.clits(cr);
                    assert forall|k: int| 0 <= k < c.len() && c[k] != lit implies entails(
                        s0.formula(),
                        seq![-c[k]],
                    ) by {
                        assert(s0.lv(c[k]) == -1);
                        let u = var_of(c[k]);
                        assert(clause_in_range(c, n));
                        assert(c[k] != 0 && -n <= c[k] <= n);
                        assert(s0.values@[u] != 0);
                        assert(s0.tlit(u) == -c[k]);
                    }
                    lemma_unit_resolution(s0.formula(), c, lit as int);
                }
            }
        }
        self.values.set(var, if is_positive { 1 } else { -1 });
        let dl = self.decision_level;
        let a = Assignment {
            decision_level: dl,
            antecedent: match antecedent {
                Some(cr) => cr,
                None => CREF_UNDEF,
            },
        };
        self.assignments.set(var, a);
        self.trail.push(lit);
        self.saved_phase.set(var, is_positive);
        proof {
            self.tpos@ = self.tpos@.update(var as int, pos);
            let t = self.trail@;
            assert(t.subrange(0, pos) =~= s0.trail@);
            assert(s0.values@[var as int] == 0);
            assert forall|i: int| 0 <= i < t.len() implies in_range(#[trigger] t[i] as int, n)
                && self.tpos@[var_of(t[i] as int)] == i && self.lv(t[i] as int) == 1 by {
                if i < pos {
                    assert(t[i] == s0.trail@[i]);
                    let u = var_of(t[i] as int);
                    assert(s0.values@[u] != 0);
                    assert(u != var);
                }
            }
            assert forall|v: int| 1 <= v <= n && #[trigger] self.values@[v] != 0 implies 0
                <= self.tpos@[v] < t.len() && var_of(t[self.tpos@[v]] as int) == v by {
                if v != var {
                    assert(s0.values@[v] != 0);
                    assert(t[s0.tpos@[v]] == s0.trail@[s0.tpos@[v]]);
                }
            }
            assert(self.inv_trail());
            let lim = self.trail_lim@;
            assert forall|v: int| 1 <= v <= n && #[trigger] self.values@[v] != 0 implies 0
                <= self.level(v) <= self.decision_level by {
                if v != var {
                    assert(s0.values@[v] != 0);
                }
            }
            assert forall|i: int, k: int| 0 <= i < t.len() && 0 <= k < lim.len() implies ((i
                < #[trigger] lim[k]) == (self.level(var_of(#[trigger] t[i] as int)) <= k)) by {
                if i < pos {
                    assert(t[i] == s0.trail@[i]);
                    let u = var_of(t[i] as int);
                    assert(s0.values@[u] != 0);
                    assert(u != var);
                } else {
                    assert(lim[k] <= s0.trail@.len());
                }
            }
            assert(self.inv_levels());
            assert forall|v: int| 1 <= v <= n && #[trigger] self.values@[v] != 0 && self.level(v)
                == 0 implies entails(self.formula(), seq![self.tlit(v)]) by {
                if v != var {
                    assert(s0.values@[v] != 0);
                    assert(self.tlit(v) == s0.tlit(v));
                } else {
                    assert(self.tlit(v) == lit);
                }
            }
            assert forall|v: int| 1 <= v <= n && #[trigger] self.values@[v] != 0 && self.ant(v)
                != CREF_UNDEF implies self.reason_ok(v) by {
                if v != var {
                    assert(s0.values@[v] != 0);
                    assert(s0.reason_ok(v));
                    let c = self.clits(self.ant(v));
                    assert forall|k: int| 0 <= k < c.len() implies #[trigger] c[k] == self.tlit(
                        v,
                    ) || (self.lv(c[k]) == -1 && self.tpos@[var_of(c[k])] < self.tpos@[v]) by {
                        if c[k] != s0.tlit(v) {
                            assert(s0.lv(c[k]) == -1);
                            assert(clause_in_range(c, n));
                            assert(c[k] != 0 && -n <= c[k] <= n);
                            assert(s0.values@[var_of(c[k])] != 0);
                        }
                    }
                } else {
                    let cr = antecedent->0;
                    let c = self.clits(cr);
                    assert forall|k: int| 0 <= k < c.len() implies #[trigger] c[k] == self.tlit(
                        v,
                    ) || (self.lv(c[k]) == -1 && self.tpos@[var_of(c[k])] < self.tpos@[v]) by {
                        assert(c[k] == s0.clits(cr)[k]);
                        if c[k] != lit {
                            assert(s0.lv(c[k]) == -1);
                            assert(clause_in_range(c, n));
                            assert(c[k] != 0 && -n <= c[k] <= n);
                            assert(s0.values@[var_of(c[k])] != 0);
                        }
                    }
                }
            }
        }
    }

    /// Clears the value of `var` and puts it back into the variable heap.
    fn unassign(&mut self, var: usize)
        requires
            old(self).var_heap.inv(),
            1 <= var < old(self).var_heap.slots(),
            var < 0x3fff_ffff,
            var < old(self).values@.len(),
            var < old(self).assignments@.len(),
        ensures
            final(self).values@ == old(self).values@.update(var as int, 0i8),
            final(self).assignments@ == old(self).assignments@.update(
                var as int,
                Assignment { decision_level: -1i32, antecedent: CREF_UNDEF },
            ),
            final(self).var_heap.inv(),
            final(self).var_heap.slots() == old(self).var_heap.slots(),
            final(self).trail == old(self).trail,
            final(self).trail_lim == old(self).trail_lim,
            final(self).arena == old(self).arena,
            final(self).watches == old(self).watches,
            final(self).bin_implies == old(self).bin_implies,
            final(self).saved_phase == old(self).saved_phase,
            final(self).seen == old(self).seen,
            final(self).tpos == old(self).tpos,
            final(self).num_vars == old(self).num_vars,
            final(self).input == old(self).input,
            final(self).clause_refs == old(self).clause_refs,
            final(self).luby_unit == old(self).luby_unit,
            final(self).decision_level == old(self).decision_level,
            final(self).qhead == old(self).qhead,
            final(self).initial_conflict == old(self).initial_conflict,
            final(self).recent_lbds == old(self).recent_lbds,
            final(self).recent_lbd_idx == old(self).recent_lbd_idx,
            final(self).first_learned_idx == old(self).first_learned_idx,
            final(self).num_learned_alive == old(self).num_learned_alive,
            final(self).conflicts == old(self).conflicts,
            final(self).activity_inc == old(self).activity_inc,
            final(self).clause_act_inc == old(self).clause_act_inc,
    {
        self.values.set(var, 0);
        self.assignments.set(var, Assignment { decision_level: -1, antecedent: CREF_UNDEF });
        self.var_heap.insert(var as i32);
    }

    /// Undoes every assignment above decision level `level`; level-0
    /// assignments are never undone.
    fn backtrack(&mut self, level: i32)
        requires
            old(self).inv(),
            0 <= level,
            level == 0 || level < old(self).decision_level,
        ensures
            final(self).inv(),
            final(self).decision_level == if old(self).decision_level == 0 { 0 } else { level },
            final(self).trail@.len() <= old(self).trail@.len(),
            final(self).trail@ == old(self).trail@.subrange(0, final(self).trail@.len() as int),
            final(self).qhead == final(self).trail@.len(),
            final(self).formula() == old(self).formula(),
            final(self).arena == old(self).arena,
            final(self).watches == old(self).watches,
            final(self).bin_implies == old(self).bin_implies,
            final(self).clause_refs == old(self).clause_refs,
            final(self).num_vars == old(self).num_vars,
            final(self).input == old(self).input,
            final(self).first_learned_idx == old(self).first_learned_idx,
            final(self).num_learned_alive == old(self).num_learned_alive,
            final(self).initial_conflict == old(self).initial_conflict,
            final(self).conflicts == old(self).conflicts,
            final(self).luby_unit == old(self).luby_unit,
            forall|v: int|
                1 <= v <= old(self).nvars() && old(self).values@[v] != 0 && old(self).level(v)
                    <= level ==> #[trigger] final(self).values@[v] == old(self).values@[v]
                    && final(self).assignments@[v] == old(self).assignments@[v],
    {
        let ghost s0 = *self;
        let ghost n = self.num_vars as int;
        let target: usize = if level == 0 {
            if self.trail_lim.len() > 0 {
                self.trail_lim[0]
            } else {
                self.trail.len()
            }
        } else {
            self.trail_lim[level as usize]
        };
        proof {
            if self.trail_lim@.len() > 0 {
                assert(self.trail_lim@[level as int] <= self.trail@.len());
            }
        }
        while self.trail.len() > target
            invariant
                target <= self.trail@.len() <= s0.trail@.len(),
                self.trail@ == s0.trail@.subrange(0, self.trail@.len() as int),
                self.var_heap.inv(),
                self.var_heap.slots() == n + 1,
                self.values@.len() == n + 1,
                self.assignments@.len() == n + 1,
                s0.inv(),
                n == self.num_vars,
                self.num_vars == s0.num_vars,
                self.tpos == s0.tpos,
                self.trail_lim == s0.trail_lim,
                self.arena == s0.arena,
                self.watches == s0.watches,
                self.bin_implies == s0.bin_implies,
                self.saved_phase == s0.saved_phase,
                self.seen == s0.seen,
                self.input == s0.input,
                self.clause_refs == s0.clause_refs,
                self.decision_level == s0.decision_level,
                self.qhead == s0.qhead,
                self.initial_conflict == s0.initial_conflict,
                self.recent_lbds == s0.recent_lbds,
                self.recent_lbd_idx == s0.recent_lbd_idx,
                self.first_learned_idx == s0.first_learned_idx,
                self.num_learned_alive == s0.num_learned_alive,
                self.conflicts == s0.conflicts,
                self.luby_unit == s0.luby_unit,
                self.activity_inc == s0.activity_inc,
                self.clause_act_inc == s0.clause_act_inc,
                forall|v: int|
                    0 <= v <= n ==> #[trigger] self.values@[v] == (if s0.values@[v] != 0
                        && s0.tpos@[v] < self.trail@.len() {
                        s0.values@[v]
                    } else {
                        0i8
                    }),
                forall|v: int|
                    0 <= v <= n && s0.values@[v] != 0 && s0.tpos@[v] < self.trail@.len()
                        ==> #[trigger] self.assignments@[v] == s0.assignments@[v],
            decreases self.trail@.len(),
        {
            let lit = self.trail.pop().unwrap();
            let ghost m = self.trail@.len() as int;
            proof {
                assert(lit == s0.trail@[m]);
                assert(in_range(lit as int, n));
                assert(s0.tpos@[var_of(lit as int)] == m);
            }
            let var: usize = if lit < 0 { (-lit) as usize } else { lit as usize };
            self.unassign(var);
            proof {
                assert forall|v: int| 0 <= v <= n implies #[trigger] self.values@[v] == (if s0.values@[v]
                    != 0 && s0.tpos@[v] < self.trail@.len() {
                    s0.values@[v]
                } else {
                    0i8
                }) by {
                    if v == var {
                        assert(s0.tpos@[v] == m);
                    }
                }
            }
        }
        self.trail_lim.truncate(level as usize);
        self.decision_level = level;
        self.qhead = self.trail.len();
        proof {
            let t = self.trail@;
            let lim = self.trail_lim@;
            let L = t.len() as int;
            // every remaining variable has level <= `level`
            assert forall|i: int| 0 <= i < L implies s0.level(var_of(#[trigger] t[i] as int))
                <= level by {
                assert(t[i] == s0.trail@[i]);
                if s0.trail_lim@.len() > 0 {
                    assert(i < s0.trail_lim@[level as int]);
                } else {
                    let u = var_of(t[i] as int);
                    assert(s0.values@[u] != 0);
                }
            }
            assert forall|v: int| 0 <= v <= n && s0.values@[v] != 0 && s0.tpos@[v] < L
                implies s0.level(v) <= level by {
                assert(var_of(t[s0.tpos@[v]] as int) == v);
            }
            assert forall|v: int| 1 <= v <= n && s0.values@[v] != 0 && s0.level(v) <= level
                implies s0.tpos@[v] < L by {
                let p = s0.tpos@[v];
                assert(var_of(s0.trail@[p] as int) == v);
                if s0.trail_lim@.len() > 0 {
                    assert(p < s0.trail_lim@[level as int]);
                }
            }
            assert(self.values@[0] == 0);
            assert forall|i: int| 0 <= i < t.len() implies in_range(#[trigger] t[i] as int, n)
                && self.tpos@[var_of(t[i] as int)] == i && self.lv(t[i] as int) == 1 by {
                assert(t[i] == s0.trail@[i]);
                let u = var_of(t[i] as int);
                assert(s0.values@[u] != 0);
            }
            assert forall|v: int| 1 <= v <= n && #[trigger] self.values@[v] != 0 implies 0
                <= self.tpos@[v] < t.len() && var_of(t[self.tpos@[v]] as int) == v by {
                assert(s0.values@[v] != 0);
                assert(t[s0.tpos@[v]] == s0.trail@[s0.tpos@[v]]);
            }
            assert(self.inv_trail());
            assert forall|k: int, l: int| 0 <= k <= l < lim.len() implies #[trigger] lim[k]
                <= #[trigger] lim[l] by {
                assert(s0.trail_lim@[k] <= s0.trail_lim@[l]);
            }
            assert forall|k: int| 0 <= k < lim.len() implies #[trigger] lim[k] <= t.len() by {
                assert(s0.trail_lim@[k] <= s0.trail_lim@[level as int]);
            }
            assert forall|v: int| 1 <= v <= n && #[trigger] self.values@[v] != 0 implies 0
                <= self.level(v) <= self.decision_level by {
                assert(s0.values@[v] != 0);
            }
            assert forall|i: int, k: int| 0 <= i < t.len() && 0 <= k < lim.len() implies ((i
                < #[trigger] lim[k]) == (self.level(var_of(#[trigger] t[i] as int)) <= k)) by {
                assert(t[i] == s0.trail@[i]);
                assert(lim[k] == s0.trail_lim@[k]);
                let u = var_of(t[i] as int);
                assert(s0.values@[u] != 0);
            }
            assert(self.inv_levels());
            assert forall|v: int| 1 <= v <= n && #[trigger] self.values@[v] != 0 && self.level(v)
                == 0 implies entails(self.formula(), seq![self.tlit(v)]) by {
                assert(s0.values@[v] != 0);
                assert(self.tlit(v) == s0.tlit(v));
            }
            assert forall|v: int| 1 <= v <= n && #[trigger] self.values@[v] != 0 && self.ant(v)
                != CREF_UNDEF implies self.reason_ok(v) by {
                assert(s0.values@[v] != 0);
                assert(s0.reason_ok(v));
                let c = self.clits(self.ant(v));
                assert forall|k: int| 0 <= k < c.len() implies #[trigger] c[k] == self.tlit(v) || (
                self.lv(c[k]) == -1 && self.tpos@[var_of(c[k])] < self.tpos@[v]) by {
                    if c[k] != s0.tlit(v) {
                        assert(s0.lv(c[k]) == -1);
                        assert(clause_in_range(c, n));
                        assert(c[k] != 0 && -n <= c[k] <= n);
                        assert(s0.values@[var_of(c[k])] != 0);
                    }
                }
            }
        }
    }

    /// The current value of variable `var`: `Some(true)` / `Some(false)` when
    /// assigned, `None` when unassigned or not a variable of the solver.
    pub fn get_value(&self, var: i32) -> (r: Option<bool>)
        requires
            self.inv(),
        ensures
            ({
                let v = if var < 0 { -(var as int) } else { var as int };
                r == if v <= self.nvars() && self.val(v) == 1 {
                    Some(true)
                } else if v <= self.nvars() && self.val(v) == -1 {
                    Some(false)
                } else {
                    None
                }
            }),
    {
        let v: u64 = if var < 0 { (0i64 - var as i64) as u64 } else { var as u64 };
        if v < self.values.len() as u64 {
            let x = self.values[v as usize];
            if x == 1 {
                Some(true)
            } else if x == -1 {
                Some(false)
            } else {
                None
            }
        } else {
            None
        }
    }

    /// The number of conflicts met so far.
    pub closed spec fn conflict_count(&self) -> int {
        self.conflicts as int
    }

    /// The conflict count at which the Luby schedule asks for a restart.
    pub closed spec fn restart_at(&self) -> int {
        self.conflicts_until_restart as int
    }

    /// The polarity saved for variable `v`: the one it was last assigned,
    /// the next decision on it takes.
    pub closed spec fn phase(&self, v: int) -> bool {
        self.saved_phase@[v]
    }

    /// The position reached in the Luby sequence.
    pub closed spec fn luby_position(&self) -> int {
        self.luby_index as int
    }

    /// The number of conflicts met so far.
    pub fn conflicts(&self) -> (n: u64)
        ensures
            n == self.conflict_count(),
    {
        self.conflicts
    }

    /// The conflict count at which the Luby schedule asks for a restart.
    pub fn conflicts_until_restart(&self) -> (n: u64)
        ensures
            n == self.restart_at(),
    {
        self.conflicts_until_restart
    }

    /// The position reached in the Luby sequence.
    pub fn luby_index(&self) -> (n: u32)
        ensures
            n == self.luby_position(),
    {
        self.luby_index
    }

    /// Conflicts per unit of the Luby restart sequence.
    pub fn luby_unit(&self) -> (n: u64)
        ensures
            n == self.restart_unit(),
    {
        self.luby_unit
    }

    /// The saved phase of variable `v`: the polarity it was last assigned
    /// (`true` before any assignment).
    pub fn saved_phase(&self, v: usize) -> (b: bool)
        requires
            self.inv(),
            v <= self.nvars(),
        ensures
            b == self.phase(v as int),
    {
        self.saved_phase[v]
    }

    /// Turns on DRAT proof logging, kept in memory: from now on every
    /// learned clause is logged as an addition and every deleted clause as a
    /// deletion (see `drat_output`).
    pub fn enable_drat(&mut self)
        requires
            old(self).inv(),
        ensures
            final(self).inv(),
            final(self).drat_enabled(),
            final(self).drat_text().len() == 0,
            final(self).same_but_drat(&*old(self)),
            final(self).formula() == old(self).formula(),
            final(self).nvars() == old(self).nvars(),
    {
        self.drat = DratLogger::in_memory();
    }

    /// The DRAT proof logged so far, one clause per line.
    pub fn drat_output(&self) -> (s: String)
        ensures
            s@ == self.drat_text(),
    {
        self.drat.output()
    }

    /// The current assignment: entry `v` is true when variable `v` is
    /// assigned true (entry 0 is unused).
    pub fn get_model(&self) -> (m: Vec<bool>)
        requires
            self.inv(),
        ensures
            m@.len() == self.nvars() + 1,
            forall|v: int| 0 <= v <= self.nvars() ==> #[trigger] m@[v] == (self.val(v) == 1),
    {
        let mut m: Vec<bool> = Vec::new();
        let mut i: usize = 0;
        while i < self.values.len()
            invariant
                i <= self.values@.len(),
                m@.len() == i,
                forall|v: int| 0 <= v < i ==> #[trigger] m@[v] == (self.values@[v] == 1),
            decreases self.values@.len() - i,
        {
            m.push(self.values[i] == 1);
            i = i + 1;
        }
        m
    }
}

/// `drop_last` of a prefix is the shorter prefix.
proof fn lemma_prefix_drop_last<A>(s: Seq<A>, i: int)
    requires
        0 < i <= s.len(),
    ensures
        s.subrange(0, i).drop_last() == s.subrange(0, i - 1),
        s.subrange(0, i).last() == s[i - 1],
{
    assert(s.subrange(0, i).drop_last() =~= s.subrange(0, i - 1));
}

proof fn lemma_lits_max_var_bound(s: Seq<Literal>, k: int)
    requires
        0 <= k < s.len(),
    ensures
        s[k].var <= lits_max_var(s),
        lits_max_var(s) >= 0,
    decreases s.len(),
{
    if k < s.len() - 1 {
        lemma_lits_max_var_bound(s.drop_last(), k);
    }
    lemma_lits_max_var_nonneg(s);
}

proof fn lemma_lits_max_var_nonneg(s: Seq<Literal>)
    ensures
        lits_max_var(s) >= 0,
    decreases s.len(),
{
    if s.len() > 0 {
        lemma_lits_max_var_nonneg(s.drop_last());
    }
}

proof fn lemma_clauses_max_var_bound(cs: Seq<Clause>, i: int, k: int)
    requires
        0 <= i < cs.len(),
        0 <= k < cs[i]@.len(),
    ensures
        cs[i]@[k].var <= clauses_max_var(cs),
    decreases cs.len(),
{
    if i < cs.len() - 1 {
        lemma_clauses_max_var_bound(cs.drop_last(), i, k);
    } else {
        lemma_lits_max_var_bound(cs[i]@, k);
    }
}

/// Whether clauses hold under an assignment depends only on the values of
/// the variables `1..=clauses_max_var(cs)` that they mention.
pub proof fn lemma_sat_agree_below_max(cs: Seq<Clause>, a: spec_fn(int) -> bool, b: spec_fn(int) -> bool)
    requires
        clauses_wf(cs),
        forall|v: int| 1 <= v <= clauses_max_var(cs) ==> #[trigger] a(v) == b(v),
    ensures
        formula_sat(a, clauses_formula(cs)) == formula_sat(b, clauses_formula(cs)),
{
    let f = clauses_formula(cs);
    assert forall|i: int| 0 <= i < f.len() implies #[trigger] clause_sat(a, f[i]) == clause_sat(b, f[i]) by {
        assert forall|k: int| 0 <= k < f[i].len() implies #[trigger] lit_true(a, f[i][k]) == lit_true(b, f[i][k]) by {
            let l = cs[i]@[k];
            assert(literal_wf(cs[i].literals@[k]));
            lemma_clauses_max_var_bound(cs, i, k);
            assert(f[i][k] == signed(l));
            assert(a(l.var as int) == b(l.var as int));
        }
        if clause_sat(a, f[i]) {
            let k = choose|k: int| 0 <= k < f[i].len() && #[trigger] lit_true(a, f[i][k]);
            assert(lit_true(b, f[i][k]));
        }
        if clause_sat(b, f[i]) {
            let k = choose|k: int| 0 <= k < f[i].len() && #[trigger] lit_true(b, f[i][k]);
            assert(lit_true(a, f[i][k]));
        }
    }
    if formula_sat(a, f) {
        assert forall|i: int| 0 <= i < f.len() implies #[trigger] clause_sat(b, f[i]) by {
            assert(clause_sat(a, f[i]));
        }
    }
    if formula_sat(b, f) {
        assert forall|i: int| 0 <= i < f.len() implies #[trigger] clause_sat(a, f[i]) by {
            assert(clause_sat(b, f[i]));
        }
    }
}

proof fn lemma_clauses_max_var_nonneg(cs: Seq<Clause>)
    ensures
        clauses_max_var(cs) >= 0,
    decreases cs.len(),
{
    if cs.len() > 0 {
        lemma_clauses_max_var_nonneg(cs.drop_last());
    }
}

/// The largest variable among the clauses (0 when there is none).
fn max_clause_var(clauses: &Vec<Clause>) -> (m: i32)
    requires
        forall|i: int, k: int|
            0 <= i < clauses@.len() && 0 <= k < clauses@[i]@.len() ==> 0 <= (
            #[trigger] clauses@[i]@[k]).var,
    ensures
        m == clauses_max_var(clauses@),
{
    let mut m: i32 = 0;
    let mut i: usize = 0;
    while i < clauses.len()
        invariant
            i <= clauses@.len(),
            m == clauses_max_var(clauses@.subrange(0, i as int)),
        decreases clauses@.len() - i,
    {
        let lits = &clauses[i].literals;
        let mut lm: i32 = 0;
        let mut j: usize = 0;
        while j < lits.len()
            invariant
                j <= lits@.len(),
                lits@ == clauses@[i as int]@,
                lm == lits_max_var(lits@.subrange(0, j as int)),
            decreases lits@.len() - j,
        {
            proof {
                lemma_prefix_drop_last(lits@, j + 1);
            }
            if lits[j].var > lm {
                lm = lits[j].var;
            }
            j = j + 1;
        }
        proof {
            assert(lits@.subrange(0, lits@.len() as int) =~= lits@);
            lemma_prefix_drop_last(clauses@, i + 1);
        }
        if lm > m {
            m = lm;
        }
        i = i + 1;
    }
    proof {
        assert(clauses@.subrange(0, clauses@.len() as int) =~= clauses@);
    }
    m
}

/// The signed literals of a clause.
fn clause_signed(c: &Clause) -> (v: Vec<i32>)
    requires
        forall|k: int| 0 <= k < c@.len() ==> literal_wf(#[trigger] c@[k]),
    ensures
        ints(v@) == crate::literal::clause_ints(*c),
{
    let mut v: Vec<i32> = Vec::new();
    let mut k: usize = 0;
    while k < c.literals.len()
        invariant
            k <= c@.len(),
            c@ == c.literals@,
            forall|j: int| 0 <= j < c@.len() ==> literal_wf(#[trigger] c@[j]),
            v@.len() == k,
            forall|j: int| 0 <= j < k ==> #[trigger] v@[j] as int == signed(c@[j]),
        decreases c@.len() - k,
    {
        let l = c.literals[k];
        proof {
            assert(literal_wf(c@[k as int]));
        }
        v.push(l.as_signed());
        k = k + 1;
    }
    proof {
        assert(ints(v@) =~= crate::literal::clause_ints(*c));
    }
    v
}

proof fn lemma_clause_words_prefix(cs: Seq<Clause>, i: int)
    requires
        0 <= i <= cs.len(),
    ensures
        clause_words(cs.subrange(0, i)) <= clause_words(cs),
    decreases cs.len() - i,
{
    if i < cs.len() {
        lemma_clause_words_prefix(cs, i + 1);
        lemma_prefix_drop_last(cs, i + 1);
    } else {
        assert(cs.subrange(0, i) =~= cs);
    }
}

/// `n` empty lists.
pub(crate) fn empty_lists<T>(n: usize) -> (v: Vec<Vec<T>>)
    ensures
        v@.len() == n,
        forall|i: int| 0 <= i < n ==> (#[trigger] v@[i])@.len() == 0,
{
    let mut v: Vec<Vec<T>> = Vec::new();
    let mut i: usize = 0;
    while i < n
        invariant
            i <= n,
            v@.len() == i,
            forall|j: int| 0 <= j < i ==> (#[trigger] v@[j])@.len() == 0,
        decreases n - i,
    {
        v.push(Vec::new());
        i = i + 1;
    }
    v
}

impl CDCLSolver {
    /// Creates a solver for the given clauses.  Unit clauses are assigned at
    /// decision level 0; two contradicting units make the formula
    /// unsatisfiable from the start.  Empty clauses are ignored.
    pub fn new(clauses: Vec<Clause>) -> (s: Self)
        requires
            solver_input_ok(clauses@),
        ensures
            s.inv(),
            s.formula() == given_formula(clauses_formula(clauses@)),
            forall|a: spec_fn(int) -> bool| #[trigger] formula_sat(a, s.formula()) <==> formula_sat(
                a,
                clauses_formula(clauses@),
            ),
            s.nvars() == clauses_max_var(clauses@),
            s.at_root(),
            s.refuted() ==> !satisfiable(s.formula()),
            (exists|j: int| 0 <= j < clauses@.len() && (#[trigger] clauses@[j])@.len() == 0) ==> s.refuted(),
            forall|j: int|
                0 <= j < clauses@.len() && (#[trigger] clauses@[j])@.len() == 1 ==> s.refuted() || s.holds(
                    signed(clauses@[j]@[0]),
                ),
            forall|j: int|
                0 <= j < clauses@.len() && (#[trigger] clauses@[j])@.len() > 0 ==> s.stored(
                    crate::literal::clause_ints(clauses@[j]),
                ),
    {
        let max_var = max_clause_var(&clauses);
        proof {
            lemma_clauses_max_var_nonneg(clauses@);
            if clauses@.len() > 0 {
                assert forall|i: int, k: int| 0 <= i < clauses@.len() && 0 <= k < clauses@[i]@.len()
                    implies (#[trigger] clauses@[i]@[k]).var <= max_var by {
                    lemma_clauses_max_var_bound(clauses@, i, k);
                }
            }
        }
        let num_vars = max_var;
        let ghost n = num_vars as int;
        proof {
            // max_var is the variable of some literal, or 0
            assert(n < 0x3fff_ffff) by {
                lemma_max_var_attained(clauses@);
            }
        }
        let nv = num_vars as usize;
        let num_lits = (nv + 1) * 2;
        let mut arena = ClauseArena::new();
        let mut clause_refs: Vec<CRef> = Vec::new();
        let mut watches: Vec<Vec<Watcher>> = empty_lists(num_lits);
        let mut bin_implies: Vec<Vec<(i32, CRef)>> = empty_lists(num_lits);
        let mut input: Vec<Vec<i32>> = Vec::new();
        let mut i: usize = 0;
        while i < clauses.len()
            invariant
                i <= clauses@.len(),
                n == num_vars,
                0 <= n < 0x3fff_ffff,
                num_lits == 2 * (n + 1),
                solver_input_ok(clauses@),
                forall|a: int, k: int|
                    0 <= a < clauses@.len() && 0 <= k < clauses@[a]@.len() ==> (
                    #[trigger] clauses@[a]@[k]).var <= n,
                arena.wf(),
                arena.words() <= clause_words(clauses@.subrange(0, i as int)),
                clause_refs@.len() == input@.len(),
                forall|j: int|
                    0 <= j < clause_refs@.len() ==> arena.valid(#[trigger] clause_refs@[j])
                        && arena.lits_of(clause_refs@[j]) == input@[j]@,
                forall|cr: CRef| #[trigger]
                    arena.valid(cr) ==> exists|j: int|
                        0 <= j < clause_refs@.len() && #[trigger] clause_refs@[j] == cr,
                crate::literal::int_clauses(input@) == drop_empty(
                    clauses_formula(clauses@.subrange(0, i as int)),
                ),
                forall|j: int| 0 <= j < input@.len() ==> #[trigger] input@[j]@.len() > 0,
                forall|j: int| 0 <= j < input@.len() ==> clause_in_range(ints(#[trigger] input@[j]@), n),
                forall|j: int|
                    0 <= j < input@.len() && (#[trigger] input@[j])@.len() >= 2 ==> watch_entry(
                        watches@,
                        bin_implies@,
                        clause_refs@[j],
                        ints(input@[j]@),
                    ),
                watches@.len() == num_lits,
                bin_implies@.len() == num_lits,
                forall|a: int, b: int|
                    0 <= a < watches@.len() && 0 <= b < watches@[a]@.len() ==> {
                        let w = #[trigger] watches@[a]@[b];
                        arena.valid(w.cref) && in_range(w.blocker as int, n)
                    },
                forall|a: int, b: int|
                    0 <= a < bin_implies@.len() && 0 <= b < bin_implies@[a]@.len() ==> {
                        let e = #[trigger] bin_implies@[a]@[b];
                        arena.valid(e.1) && in_range(e.0 as int, n)
                    },
            decreases clauses@.len() - i,
        {
            proof {
                assert forall|k: int| 0 <= k < clauses@[i as int]@.len() implies literal_wf(
                    #[trigger] clauses@[i as int]@[k],
                ) by {
                    assert(literal_wf(clauses@[i as int]@[k]));
                }
            }
            let signed_lits = clause_signed(&clauses[i]);
            let ghost ci = clauses@[i as int];
            proof {
                lemma_prefix_drop_last(clauses@, i + 1);
                lemma_clause_words_prefix(clauses@, i + 1);
                assert(clauses_formula(clauses@.subrange(0, i + 1)) =~= clauses_formula(
                    clauses@.subrange(0, i as int),
                ).push(crate::literal::clause_ints(ci)));
                assert(clauses_formula(clauses@.subrange(0, i + 1)).drop_last() =~= clauses_formula(
                    clauses@.subrange(0, i as int),
                ));
                assert forall|k: int| 0 <= k < signed_lits@.len() implies in_range(
                    #[trigger] signed_lits@[k] as int,
                    n,
                ) by {
                    let sl = ints(signed_lits@);
                    assert(sl.len() == signed_lits@.len());
                    assert(sl == crate::literal::clause_ints(ci));
                    assert(sl[k] == signed_lits@[k] as int);
                    assert(crate::literal::clause_ints(ci)[k] == signed(ci@[k]));
                    assert(literal_wf(clauses@[i as int]@[k]));
                    assert(clauses@[i as int]@[k].var <= n);
                }
            }
            let ghost arena0 = arena;
            let ghost refs0 = clause_refs@;
            let ghost sl0 = signed_lits@;
            let ghost input0 = input@;
            let ghost ws0 = watches@;
            let ghost bs0 = bin_implies@;
            proof {
                assert(ints(sl0).len() == sl0.len());
                assert(crate::literal::clause_ints(ci).len() == ci@.len());
                assert(sl0.len() == clauses@[i as int]@.len());
            }
            if signed_lits.len() > 0 {
                proof {
                    assert(clauses@[i as int]@.len() <= LEN_MASK);
                }
                let cr = arena.alloc_clause(signed_lits.as_slice(), false, 0);
                clause_refs.push(cr);
                let len = signed_lits.len();
                if len == 2 {
                    let idx_a = Self::lit_to_watch_idx(-signed_lits[0], num_vars);
                    let idx_b = Self::lit_to_watch_idx(-signed_lits[1], num_vars);
                    let ghost b_a = bin_implies@[idx_a as int]@.len();
                    bin_implies[idx_a].push((signed_lits[1], cr));
                    let ghost b_b = bin_implies@[idx_b as int]@.len();
                    bin_implies[idx_b].push((signed_lits[0], cr));
                    proof {
                        let c = ints(sl0);
                        assert(c[0] == sl0[0] && c[1] == sl0[1]);
                        assert(bin_implies@[idx_a as int]@[b_a as int] == (c[1] as i32, cr));
                        assert(bin_implies@[idx_b as int]@[b_b as int] == (c[0] as i32, cr));
                        assert(watch_entry(watches@, bin_implies@, cr, c));
                    }
                } else if len > 2 {
                    let w1 = Self::lit_to_watch_idx(signed_lits[0], num_vars);
                    let w2 = Self::lit_to_watch_idx(signed_lits[1], num_vars);
                    let ghost p1 = watches@[w1 as int]@.len();
                    watches[w1].push(Watcher::long(cr, signed_lits[1]));
                    let ghost p2 = watches@[w2 as int]@.len();
                    watches[w2].push(Watcher::long(cr, signed_lits[0]));
                    proof {
                        let c = ints(sl0);
                        assert(c[0] == sl0[0] && c[1] == sl0[1]);
                        assert(watches@[w1 as int]@[p1 as int].cref == cr);
                        assert(watches@[w2 as int]@[p2 as int].cref == cr);
                        assert(watch_entry(watches@, bin_implies@, cr, c));
                    }
                }
                input.push(signed_lits);
                proof {
                    assert(sl0.len() >= 2 ==> watch_entry(watches@, bin_implies@, cr, ints(sl0)));
                    assert forall|j: int|
                        0 <= j < input0.len() && (#[trigger] input0[j])@.len() >= 2 implies {
                            let c = ints(input0[j]@);
                            &&& 0 <= lit_idx(c[0]) < ws0.len() && 0 <= lit_idx(c[1]) < ws0.len()
                            &&& 0 <= lit_idx(-c[0]) < bs0.len() && 0 <= lit_idx(-c[1]) < bs0.len()
                        } by {
                        let c = ints(input0[j]@);
                        assert(clause_in_range(c, n));
                        assert(c[0] != 0 && -n <= c[0] <= n);
                        assert(c[1] != 0 && -n <= c[1] <= n);
                    }
                    lemma_watch_entries_grow(ws0, bs0, watches@, bin_implies@, refs0, input0);
                    assert forall|j: int|
                        0 <= j < input@.len() && (#[trigger] input@[j])@.len() >= 2 implies watch_entry(
                            watches@,
                            bin_implies@,
                            clause_refs@[j],
                            ints(input@[j]@),
                        ) by {
                        if j < input0.len() {
                            assert(input@[j] == input0[j]);
                            assert(clause_refs@[j] == refs0[j]);
                        } else {
                            assert(input@[j]@ == sl0);
                            assert(clause_refs@[j] == cr);
                        }
                    }
                    assert(crate::literal::int_clauses(input@) =~= crate::literal::int_clauses(
                        input0,
                    ).push(crate::literal::clause_ints(ci)));
                    assert(clause_in_range(ints(input@[input0.len() as int]@), n));
                    assert forall|c: CRef| #[trigger] arena.valid(c) implies exists|j: int|
                        0 <= j < clause_refs@.len() && #[trigger] clause_refs@[j] == c by {
                        if c != cr {
                            assert(arena0.valid(c));
                            let j = choose|j: int|
                                0 <= j < refs0.len() && #[trigger] refs0[j] == c;
                            assert(clause_refs@[j] == c);
                        } else {
                            assert(clause_refs@[clause_refs@.len() - 1] == c);
                        }
                    }
                }
            } else {
                proof {
                    assert(crate::literal::clause_ints(ci).len() == 0);
                }
            }
            i = i + 1;
        }
        proof {
            assert(clauses@.subrange(0, clauses@.len() as int) =~= clauses@);
        }
        let ghost f = crate::literal::int_clauses(input@);
        // Initial activities: one increment per occurrence.
        let mut activity: Vec<u64> = Vec::new();
        let mut k: usize = 0;
        while k < nv + 1
            invariant
                k <= nv + 1,
                nv == n,
                0 <= n < 0x3fff_ffff,
                activity@.len() == k,
            decreases nv + 1 - k,
        {
            activity.push(0);
            k = k + 1;
        }
        let mut ci: usize = 0;
        while ci < input.len()
            invariant
                ci <= input@.len(),
                activity@.len() == n + 1,
                0 <= n < 0x3fff_ffff,
                forall|j: int| 0 <= j < input@.len() ==> clause_in_range(ints(#[trigger] input@[j]@), n),
            decreases input@.len() - ci,
        {
            let c = &input[ci];
            let mut li: usize = 0;
            while li < c.len()
                invariant
                    li <= c@.len(),
                    c@ == input@[ci as int]@,
                    clause_in_range(ints(c@), n),
                    activity@.len() == n + 1,
                    0 <= n < 0x3fff_ffff,
                decreases c@.len() - li,
            {
                let lit = c[li];
                proof {
                    assert(ints(c@)[li as int] == lit);
                }
                let var: usize = if lit < 0 { (-lit) as usize } else { lit as usize };
                let a = activity[var];
                activity.set(var, a.saturating_add(VAR_INC_UNIT));
                li = li + 1;
            }
            ci = ci + 1;
        }
        let mut var_heap = VarHeap::new(nv);
        var_heap.set_activity(activity.as_slice());
        let mut v: usize = 1;
        while v <= nv
            invariant
                1 <= v <= nv + 1,
                nv == n,
                n < 0x3fff_ffff,
                var_heap.inv(),
                var_heap.slots() == n + 1,
            decreases nv + 1 - v,
        {
            var_heap.insert(v as i32);
            v = v + 1;
        }
        let num_original = clause_refs.len();
        let ghost input_copy = input@;
        let values = vec_of(nv + 1, 0i8);
        let assignments = vec_of(nv + 1, Assignment { decision_level: -1, antecedent: CREF_UNDEF });
        let seen = vec_of(nv + 1, false);
        let saved_phase = vec_of(nv + 1, true);
        let recent_lbds = vec_of(RECENT_LBD_WINDOW, 0u32);
        let max_learned = if num_original / 10 > 2000 { num_original / 10 } else { 2000 };
        let mut solver = CDCLSolver {
            arena,
            clause_refs,
            num_vars,
            values,
            assignments,
            trail: Vec::new(),
            trail_lim: Vec::new(),
            decision_level: 0,
            activity_inc: VAR_INC_UNIT,
            watches,
            bin_implies,
            qhead: 0,
            seen,
            var_heap,
            initial_conflict: false,
            saved_phase,
            conflicts: 0,
            conflicts_until_restart: 100,
            luby_index: 0,
            luby_unit: 100,
            lbd_sum: 0,
            last_restart_conflicts: 0,
            recent_lbds,
            recent_lbd_idx: 0,
            recent_lbd_full: false,
            first_learned_idx: num_original,
            num_learned_alive: 0,
            max_learned,
            rng_state: 91648253,
            random_var_freq: 20,
            decisions: 0,
            propagations: 0,
            restarts: 0,
            reductions: 0,
            clause_act_inc: CLAUSE_INC_UNIT,
            input,
            tpos: Ghost(Seq::new((n + 1) as nat, |v: int| 0int)),
            drat: DratLogger::disabled(),
        };
        proof {
            let sv = solver;
            assert(sv.formula() == f);
            assert forall|cr: CRef| #[trigger] sv.arena.valid(cr) implies clause_in_range(
                sv.clits(cr),
                n,
            ) && entails(sv.formula(), sv.clits(cr)) by {
                let j = choose|j: int|
                    0 <= j < sv.clause_refs@.len() && #[trigger] sv.clause_refs@[j] == cr;
                assert(sv.clits(cr) == f[j]);
                lemma_entails_member(f, j);
            }
            assert forall|j: int| 0 <= j < f.len() implies #[trigger] clause_in_range(f[j], n) by {
                assert(clause_in_range(ints(sv.input@[j]@), n));
            }
            assert(sv.inv_arena());
            assert(sv.inv_trail());
            assert(sv.inv_levels());
            assert(sv.inv_reasons());
            assert(sv.inv_misc());
            assert forall|j: int| 0 <= j < clauses@.len() && (#[trigger] clauses@[j])@.len() > 0 implies sv.stored(
                crate::literal::clause_ints(clauses@[j]),
            ) by {
                let cfa = clauses_formula(clauses@);
                assert(cfa[j] == crate::literal::clause_ints(clauses@[j]));
                lemma_drop_empty_has(cfa, j);
                let k = choose|k: int| 0 <= k < f.len() && #[trigger] f[k] == cfa[j];
                assert(sv.clits(sv.clause_refs@[k]) == f[k]);
                assert(sv.input@[k]@.len() == f[k].len());
            }
        }
        let ghost sv_built = solver;
        let ghost cf0 = clauses_formula(clauses@);
        proof {
            assert(f == drop_empty(cf0));
        }
        let mut u: usize = 0;
        while u < clauses.len()
            invariant
                u <= clauses@.len(),
                solver.inv(),
                solver.formula() == f,
                f == drop_empty(cf0),
                cf0 == clauses_formula(clauses@),
                solver.num_vars == num_vars,
                n == num_vars,
                solver.decision_level == 0,
                solver.arena == sv_built.arena,
                solver.clause_refs == sv_built.clause_refs,
                solver.watches == sv_built.watches,
                solver.bin_implies == sv_built.bin_implies,
                forall|a: int, k: int|
                    0 <= a < clauses@.len() && 0 <= k < clauses@[a]@.len() ==> (
                    #[trigger] clauses@[a]@[k]).var <= n,
                solver_input_ok(clauses@),
                forall|j: int|
                    0 <= j < u && (#[trigger] clauses@[j])@.len() == 1 ==> solver.initial_conflict || solver.lv(
                        signed(clauses@[j]@[0]),
                    ) == 1,
            decreases clauses@.len() - u,
        {
            if clauses[u].literals.len() == 1 {
                let l0 = clauses[u].literals[0];
                proof {
                    assert(literal_wf(clauses@[u as int]@[0]));
                    assert(l0.var <= n);
                }
                let lit = l0.as_signed();
                proof {
                    assert(cf0[u as int] =~= seq![lit as int]);
                    lemma_drop_empty_has(cf0, u as int);
                    let k = choose|k: int| 0 <= k < f.len() && #[trigger] f[k] == cf0[u as int];
                    lemma_entails_member(f, k);
                    assert(in_range(lit as int, n));
                }
                let ghost s_before = solver;
                let var: usize = if lit < 0 { (-lit) as usize } else { lit as usize };
                if solver.values[var] == 0 {
                    proof {
                        assert(solver.lv(lit as int) == 0);
                    }
                    solver.assign(lit, None);
                    proof {
                        assert forall|j: int|
                            0 <= j < u + 1 && (#[trigger] clauses@[j])@.len() == 1 implies solver.initial_conflict
                            || solver.lv(signed(clauses@[j]@[0])) == 1 by {
                            if j < u && !s_before.initial_conflict {
                                let lj = signed(clauses@[j]@[0]);
                                assert(s_before.lv(lj) == 1);
                                assert(literal_wf(clauses@[j]@[0]));
                                assert(var_of(lj) != var);
                            }
                        }
                    }
                } else {
                    let expected: i8 = if lit > 0 { 1 } else { -1 };
                    if solver.values[var] != expected {
                        proof {
                            assert(solver.level(var as int) == 0);
                            assert(solver.tlit(var as int) == -lit);
                            lemma_contradictory_units(f, lit as int);
                        }
                        solver.initial_conflict = true;
                    }
                }
            }
            u = u + 1;
        }
        let mut saw_empty = false;
        let mut i: usize = 0;
        while i < clauses.len()
            invariant
                i <= clauses@.len(),
                saw_empty <==> exists|j: int| 0 <= j < i && (#[trigger] clauses@[j])@.len() == 0,
            decreases clauses@.len() - i,
        {
            if clauses[i].literals.len() == 0 {
                saw_empty = true;
            }
            i = i + 1;
        }
        let ghost cf = clauses_formula(clauses@);
        proof {
            assert(solver.formula() == drop_empty(cf));
            assert(saw_empty <==> exists|j: int| 0 <= j < cf.len() && #[trigger] cf[j].len() == 0) by {
                if saw_empty {
                    let j = choose|j: int| 0 <= j < clauses@.len() && (#[trigger] clauses@[j])@.len() == 0;
                    assert(cf[j].len() == 0);
                }
                if exists|j: int| 0 <= j < cf.len() && #[trigger] cf[j].len() == 0 {
                    let j = choose|j: int| 0 <= j < cf.len() && #[trigger] cf[j].len() == 0;
                    assert(clauses@[j]@.len() == 0);
                }
            }
        }
        if saw_empty {
            let ghost f0 = solver.formula();
            solver.push_input(Vec::new());
            proof {
                let f1 = solver.formula();
                assert(ints(Seq::<i32>::empty()) =~= Seq::<int>::empty());
                assert(f1 =~= drop_empty(cf).push(Seq::empty()));
                assert(f1[f1.len() - 1].len() == 0);
                lemma_refuted_clause(f1, f1.len() - 1);
            }
            solver.initial_conflict = true;
        }
        proof {
            assert forall|j: int| 0 <= j < clauses@.len() && (#[trigger] clauses@[j])@.len() > 0 implies solver.stored(
                crate::literal::clause_ints(clauses@[j]),
            ) by {
                let c = crate::literal::clause_ints(clauses@[j]);
                assert(sv_built.stored(c));
                let w = choose|w: int|
                    0 <= w < sv_built.clause_refs@.len() && sv_built.arena.valid(
                        #[trigger] sv_built.clause_refs@[w],
                    ) && sv_built.clits(sv_built.clause_refs@[w]) == c;
                assert(solver.arena == sv_built.arena);
                assert(solver.clause_refs == sv_built.clause_refs);
                assert(solver.watches == sv_built.watches);
                assert(solver.bin_implies == sv_built.bin_implies);
                assert(solver.clits(solver.clause_refs@[w]) == c);
            }
            assert(solver.formula() == given_formula(cf));
            lemma_given_formula_sat(cf);
            assert(solver.initial_conflict ==> !satisfiable(solver.formula()));
            assert forall|a: spec_fn(int) -> bool| #[trigger] formula_sat(a, solver.formula()) <==> formula_sat(a, cf) by {
                assert(formula_sat(a, given_formula(cf)) <==> formula_sat(a, cf));
            }
        }
        solver
    }
}

/// Watch entries stay where they are when lists only grow.
proof fn lemma_watch_entries_grow(
    ws0: Seq<Vec<Watcher>>,
    bs0: Seq<Vec<(i32, CRef)>>,
    ws: Seq<Vec<Watcher>>,
    bs: Seq<Vec<(i32, CRef)>>,
    refs: Seq<CRef>,
    input: Seq<Vec<i32>>,
)
    requires
        ws.len() == ws0.len(),
        bs.len() == bs0.len(),
        forall|a: int| 0 <= a < ws0.len() ==> (#[trigger] ws0[a])@.len() <= ws[a]@.len() && forall|b: int|
            0 <= b < ws0[a]@.len() ==> ws[a]@[b] == #[trigger] ws0[a]@[b],
        forall|a: int| 0 <= a < bs0.len() ==> (#[trigger] bs0[a])@.len() <= bs[a]@.len() && forall|b: int|
            0 <= b < bs0[a]@.len() ==> bs[a]@[b] == #[trigger] bs0[a]@[b],
        refs.len() == input.len(),
        forall|j: int|
            0 <= j < input.len() && (#[trigger] input[j])@.len() >= 2 ==> watch_entry(ws0, bs0, refs[j], ints(input[j]@)),
        forall|j: int|
            0 <= j < input.len() && (#[trigger] input[j])@.len() >= 2 ==> {
                let c = ints(input[j]@);
                &&& 0 <= lit_idx(c[0]) < ws0.len() && 0 <= lit_idx(c[1]) < ws0.len()
                &&& 0 <= lit_idx(-c[0]) < bs0.len() && 0 <= lit_idx(-c[1]) < bs0.len()
            },
    ensures
        forall|j: int|
            0 <= j < input.len() && (#[trigger] input[j])@.len() >= 2 ==> watch_entry(ws, bs, refs[j], ints(input[j]@)),
{
    assert forall|j: int| 0 <= j < input.len() && (#[trigger] input[j])@.len() >= 2 implies watch_entry(
        ws,
        bs,
        refs[j],
        ints(input[j]@),
    ) by {
        let c = ints(input[j]@);
        let cr = refs[j];
        assert(watch_entry(ws0, bs0, cr, c));
        assert(c.len() == input[j]@.len());
        if c.len() == 2 {
            let b0 = choose|b: int|
                0 <= b < bs0[lit_idx(-c[0])]@.len() && #[trigger] bs0[lit_idx(-c[0])]@[b] == (c[1] as i32, cr);
            let b1 = choose|b: int|
                0 <= b < bs0[lit_idx(-c[1])]@.len() && #[trigger] bs0[lit_idx(-c[1])]@[b] == (c[0] as i32, cr);
            assert(bs[lit_idx(-c[0])]@[b0] == bs0[lit_idx(-c[0])]@[b0]);
            assert(bs[lit_idx(-c[1])]@[b1] == bs0[lit_idx(-c[1])]@[b1]);
        } else {
            let b0 = choose|b: int| 0 <= b < ws0[lit_idx(c[0])]@.len() && (#[trigger] ws0[lit_idx(c[0])]@[b]).cref == cr;
            let b1 = choose|b: int| 0 <= b < ws0[lit_idx(c[1])]@.len() && (#[trigger] ws0[lit_idx(c[1])]@[b]).cref == cr;
            assert(ws[lit_idx(c[0])]@[b0] == ws0[lit_idx(c[0])]@[b0]);
            assert(ws[lit_idx(c[1])]@[b1] == ws0[lit_idx(c[1])]@[b1]);
        }
    }
}

/// A non-empty clause of `f` is a clause of `drop_empty(f)`.
pub proof fn lemma_drop_empty_has(f: Seq<Seq<int>>, j: int)
    requires
        0 <= j < f.len(),
        f[j].len() > 0,
    ensures
        exists|k: int| 0 <= k < drop_empty(f).len() && #[trigger] drop_empty(f)[k] == f[j],
    decreases f.len(),
{
    let d = drop_empty(f.drop_last());
    if j == f.len() - 1 {
        assert(drop_empty(f)[d.len() as int] == f[j]);
    } else {
        assert(f.drop_last()[j] == f[j]);
        lemma_drop_empty_has(f.drop_last(), j);
        let k = choose|k: int| 0 <= k < d.len() && #[trigger] d[k] == f.drop_last()[j];
        if f.last().len() > 0 {
            assert(drop_empty(f) == d.push(f.last()));
            assert(drop_empty(f)[k] == d[k]);
        } else {
            assert(drop_empty(f) == d);
        }
    }
}

/// The formula that a solver made from the clauses `f` decides: the
/// non-empty clauses, then one empty clause when `f` has any.
pub open spec fn given_formula(f: Seq<Seq<int>>) -> Seq<Seq<int>> {
    if exists|j: int| 0 <= j < f.len() && #[trigger] f[j].len() == 0 {
        drop_empty(f).push(Seq::empty())
    } else {
        drop_empty(f)
    }
}

/// A formula and the formula a solver makes of it have the same models.
pub proof fn lemma_given_formula_sat(f: Seq<Seq<int>>)
    ensures
        forall|a: spec_fn(int) -> bool| #[trigger] formula_sat(a, given_formula(f)) <==> formula_sat(a, f),
{
    assert forall|a: spec_fn(int) -> bool| #[trigger] formula_sat(a, given_formula(f)) <==> formula_sat(a, f) by {
        if exists|j: int| 0 <= j < f.len() && #[trigger] f[j].len() == 0 {
            let j = choose|j: int| 0 <= j < f.len() && #[trigger] f[j].len() == 0;
            let g = given_formula(f);
            assert(g[g.len() - 1].len() == 0);
            if formula_sat(a, g) {
                assert(clause_sat(a, g[g.len() - 1]));
            }
            if formula_sat(a, f) {
                assert(clause_sat(a, f[j]));
            }
        } else {
            assert forall|i: int| 0 <= i < f.len() implies (#[trigger] f[i]).len() > 0 by {
                if f[i].len() == 0 {
                    assert(exists|j: int| 0 <= j < f.len() && #[trigger] f[j].len() == 0);
                }
            }
            lemma_drop_empty_id(f);
        }
    }
}

/// Two unit clauses `l` and `-l` make a formula unsatisfiable.
pub proof fn lemma_contradictory_units(f: Seq<Seq<int>>, l: int)
    requires
        l != 0,
        entails(f, seq![l]),
        entails(f, seq![-l]),
    ensures
        !satisfiable(f),
{
    if satisfiable(f) {
        let a = choose|a: spec_fn(int) -> bool| #[trigger] formula_sat(a, f);
        assert(clause_sat(a, seq![l]));
        assert(clause_sat(a, seq![-l]));
        assert(lit_true(a, seq![l][0]));
        assert(lit_true(a, seq![-l][0]));
    }
}

/// The largest variable is that of some literal, or 0.
proof fn lemma_max_var_attained(cs: Seq<Clause>)
    ensures
        clauses_max_var(cs) == 0 || exists|i: int, k: int|
            0 <= i < cs.len() && 0 <= k < cs[i]@.len() && (#[trigger] cs[i]@[k]).var
                == clauses_max_var(cs),
    decreases cs.len(),
{
    if cs.len() > 0 {
        let d = cs.drop_last();
        lemma_max_var_attained(d);
        lemma_lits_max_var_attained(cs.last()@);
        if clauses_max_var(cs) != 0 {
            if clauses_max_var(cs) == clauses_max_var(d) {
                let (i, k) = choose|i: int, k: int|
                    0 <= i < d.len() && 0 <= k < d[i]@.len() && (#[trigger] d[i]@[k]).var
                        == clauses_max_var(d);
                assert(cs[i] == d[i]);
            } else {
                let k = choose|k: int|
                    0 <= k < cs.last()@.len() && (#[trigger] cs.last()@[k]).var == lits_max_var(
                        cs.last()@,
                    );
                assert(cs[cs.len() - 1]@[k].var == clauses_max_var(cs));
            }
        }
    }
}

proof fn lemma_lits_max_var_attained(s: Seq<Literal>)
    ensures
        lits_max_var(s) == 0 || exists|k: int|
            0 <= k < s.len() && (#[trigger] s[k]).var == lits_max_var(s),
    decreases s.len(),
{
    if s.len() > 0 {
        lemma_lits_max_var_attained(s.drop_last());
        if lits_max_var(s) != 0 && lits_max_var(s) == lits_max_var(s.drop_last()) {
            let k = choose|k: int|
                0 <= k < s.drop_last().len() && (#[trigger] s.drop_last()[k]).var == lits_max_var(
                    s.drop_last(),
                );
            assert(s[k] == s.drop_last()[k]);
        }
    }
}

/// A vector of `n` copies of `x`.
pub(crate) fn vec_of<T: Copy>(n: usize, x: T) -> (v: Vec<T>)
    ensures
        v@ == Seq::new(n as nat, |i: int| x),
{
    let mut v: Vec<T> = Vec::new();
    let mut i: usize = 0;
    while i < n
        invariant
            i <= n,
            v@ == Seq::new(i as nat, |j: int| x),
        decreases n - i,
    {
        v.push(x);
        i = i + 1;
        proof {
            assert(v@ =~= Seq::new(i as nat, |j: int| x));
        }
    }
    v
}

impl CDCLSolver {
    /// The trail holds each variable at most once, so it is no longer than
    /// the number of variables.
    proof fn lemma_trail_len(&self)
        requires
            self.inv_sizes(),
            self.inv_trail(),
        ensures
            self.trail@.len() <= self.num_vars,
    {
        let n = self.num_vars as int;
        let t = self.trail@;
        let vs = t.map_values(|x: i32| var_of(x as int));
        assert(vs.no_duplicates()) by {
            assert forall|p: int, q: int| 0 <= p < vs.len() && 0 <= q < vs.len() && p != q
                implies vs[p] != vs[q] by {
                assert(self.tpos@[var_of(t[p] as int)] == p);
                assert(self.tpos@[var_of(t[q] as int)] == q);
            }
        }
        vs.unique_seq_to_set();
        let all = vstd::set_lib::set_int_range(1, n + 1);
        assert(vs.to_set().subset_of(all)) by {
            assert forall|v: int| vs.to_set().contains(v) implies all.contains(v) by {
                let p = choose|p: int| 0 <= p < vs.len() && #[trigger] vs[p] == v;
                assert(in_range(t[p] as int, n));
            }
        }
        vstd::set_lib::lemma_int_range(1, n + 1);
        vstd::set_lib::lemma_len_subset(vs.to_set(), all);
    }

    /// Swaps literals `a` and `b` of clause `cr`; the clause keeps its
    /// meaning, so the invariant is preserved.
    fn swap_clause_lits(&mut self, cr: CRef, a: usize, b: usize)
        requires
            old(self).inv(),
            old(self).arena.valid(cr),
            a < old(self).arena.lits_of(cr).len(),
            b < old(self).arena.lits_of(cr).len(),
        ensures
            final(self).inv(),
            ({
                let l = old(self).arena.lits_of(cr);
                final(self).arena.clauses() == old(self).arena.clauses().insert(
                    cr as int,
                    crate::clause_arena::ArenaClause {
                        lits: l.update(a as int, l[b as int]).update(b as int, l[a as int]),
                        ..old(self).arena.clauses()[cr as int]
                    },
                )
            }),
            final(self).arena.words() == old(self).arena.words(),
            final(self).arena.wasted_words() == old(self).arena.wasted_words(),
            final(self).values == old(self).values,
            final(self).assignments == old(self).assignments,
            final(self).trail == old(self).trail,
            final(self).trail_lim == old(self).trail_lim,
            final(self).decision_level == old(self).decision_level,
            final(self).qhead == old(self).qhead,
            final(self).watches == old(self).watches,
            final(self).bin_implies == old(self).bin_implies,
            final(self).clause_refs == old(self).clause_refs,
            final(self).input == old(self).input,
            final(self).num_vars == old(self).num_vars,
            final(self).seen == old(self).seen,
            final(self).var_heap == old(self).var_heap,
            final(self).tpos == old(self).tpos,
            final(self).first_learned_idx == old(self).first_learned_idx,
            final(self).num_learned_alive == old(self).num_learned_alive,
            final(self).initial_conflict == old(self).initial_conflict,
            final(self).conflicts == old(self).conflicts,
            final(self).activity_inc == old(self).activity_inc,
            final(self).clause_act_inc == old(self).clause_act_inc,
            final(self).propagations == old(self).propagations,
            final(self).propagation_frame(&*old(self)),
    {
        let ghost s0 = *self;
        let ghost n = self.num_vars as int;
        self.arena.swap_lits(cr, a, b);
        proof {
            assert(self.trail@.subrange(0, self.trail@.len() as int) =~= self.trail@);
            assert(self.arena.clauses().dom() =~= s0.arena.clauses().dom());
            let c0 = s0.clits(cr);
            let c1 = self.clits(cr);
            assert(c1 =~= c0.update(a as int, c0[b as int]).update(b as int, c0[a as int]));
            assert forall|x: CRef| #[trigger] self.arena.valid(x) implies clause_in_range(
                self.clits(x),
                n,
            ) && entails(self.formula(), self.clits(x)) by {
                assert(s0.arena.valid(x));
                if x == cr {
                    assert forall|aa: spec_fn(int) -> bool| #[trigger] formula_sat(
                        aa,
                        self.formula(),
                    ) implies clause_sat(aa, c1) by {
                        crate::literal::lemma_clause_sat_swap(aa, c0, a as int, b as int);
                    }
                    assert forall|k: int| 0 <= k < c1.len() implies #[trigger] c1[k] != 0 && -n
                        <= c1[k] <= n by {
                        if k == a {
                            assert(c0[b as int] != 0);
                        } else if k == b {
                            assert(c0[a as int] != 0);
                        } else {
                            assert(c0[k] != 0);
                        }
                    }
                }
            }
            assert(self.inv_arena());
            assert forall|v: int| 1 <= v <= n && #[trigger] self.values@[v] != 0 && self.ant(v)
                != CREF_UNDEF implies self.reason_ok(v) by {
                assert(s0.reason_ok(v));
                if self.ant(v) == cr {
                    assert forall|k: int| 0 <= k < c1.len() implies #[trigger] c1[k] == self.tlit(v)
                        || (self.lv(c1[k]) == -1 && self.tpos@[var_of(c1[k])] < self.tpos@[v]) by {
                        if k == a {
                            assert(c0[b as int] == s0.tlit(v) || s0.lv(c0[b as int]) == -1);
                        } else if k == b {
                            assert(c0[a as int] == s0.tlit(v) || s0.lv(c0[a as int]) == -1);
                        } else {
                            assert(c0[k] == s0.tlit(v) || s0.lv(c0[k]) == -1);
                        }
                    }
                }
            }
        }
    }

    /// Whether `l` is implied by clause `cr`: every other literal of it is
    /// false.
    fn clause_implies(&self, cr: CRef, l: i32) -> (b: bool)
        requires
            self.inv(),
            self.arena.valid(cr),
        ensures
            b <==> forall|k: int|
                0 <= k < self.clits(cr).len() ==> #[trigger] self.clits(cr)[k] == l || self.lv(
                    self.clits(cr)[k],
                ) == -1,
    {
        let len = self.arena.len(cr);
        let mut k: usize = 0;
        while k < len
            invariant
                self.inv(),
                self.arena.valid(cr),
                len == self.clits(cr).len(),
                k <= len,
                forall|m: int|
                    0 <= m < k ==> #[trigger] self.clits(cr)[m] == l || self.lv(self.clits(cr)[m])
                        == -1,
            decreases len - k,
        {
            let x = self.arena.lit(cr, k);
            proof {
                assert(self.clits(cr)[k as int] == x);
                assert(clause_in_range(self.clits(cr), self.num_vars as int));
            }
            if x != l && self.lit_value(x) != -1 {
                return false;
            }
            k = k + 1;
        }
        true
    }
}

/// Two arenas hold the same clauses up to the order of their literals'
/// positions: same references, flags, LBDs, activities and sizes.
pub open spec fn same_meta(a: ClauseArena, b: ClauseArena) -> bool {
    &&& a.clauses().dom() == b.clauses().dom()
    &&& a.words() == b.words()
    &&& a.wasted_words() == b.wasted_words()
    &&& forall|cr: int| #[trigger]
        a.clauses().dom().contains(cr) ==> a.clauses()[cr].learnt == b.clauses()[cr].learnt
            && a.clauses()[cr].deleted == b.clauses()[cr].deleted && a.clauses()[cr].lbd
            == b.clauses()[cr].lbd && a.clauses()[cr].act == b.clauses()[cr].act
            && a.clauses()[cr].lits.len() == b.clauses()[cr].lits.len()
}

impl CDCLSolver {
    /// Frame of unit propagation: everything but the trail, the values, the
    /// assignment records, the order of literals inside clauses and the
    /// watch lists stays as it was.
    /// Every variable assigned since `s0` has an antecedent clause.
    pub closed spec fn implied_since(&self, s0: &Self) -> bool {
        forall|v: int|
            1 <= v <= self.num_vars && s0.values@[v] == 0 && #[trigger] self.values@[v] != 0 ==> self.ant(v)
                != CREF_UNDEF
    }

    pub closed spec fn propagation_frame(&self, s0: &Self) -> bool {
        &&& self.formula() == s0.formula()
        &&& self.num_vars == s0.num_vars
        &&& self.decision_level == s0.decision_level
        &&& self.trail_lim == s0.trail_lim
        &&& self.clause_refs == s0.clause_refs
        &&& self.input == s0.input
        &&& self.seen == s0.seen
        &&& self.first_learned_idx == s0.first_learned_idx
        &&& self.num_learned_alive == s0.num_learned_alive
        &&& self.initial_conflict == s0.initial_conflict
        &&& self.conflicts == s0.conflicts
        &&& self.activity_inc == s0.activity_inc
        &&& self.clause_act_inc == s0.clause_act_inc
        &&& self.bin_implies == s0.bin_implies
        &&& self.var_heap == s0.var_heap
        &&& same_meta(self.arena, s0.arena)
        &&& s0.trail@.len() <= self.trail@.len()
        &&& self.trail@.subrange(0, s0.trail@.len() as int) == s0.trail@
        &&& forall|v: int|
            1 <= v <= s0.num_vars && s0.values@[v] != 0 ==> #[trigger] self.values@[v]
                == s0.values@[v] && self.assignments@[v] == s0.assignments@[v]
    }

    /// Boolean constraint propagation over the binary implication graph and
    /// the watched clauses.  Returns a clause whose literals are all false
    /// when a conflict is found.
    #[verifier::spinoff_prover]
    fn propagate(&mut self) -> (r: Option<CRef>)
        requires
            old(self).inv(),
        ensures
            final(self).inv(),
            final(self).propagation_frame(&*old(self)),
            final(self).implied_since(&*old(self)),
            match r {
                Some(cr) => final(self).arena.valid(cr) && forall|k: int|
                    0 <= k < final(self).clits(cr).len() ==> final(self).lv(
                        #[trigger] final(self).clits(cr)[k],
                    ) == -1,
                None => final(self).qhead == final(self).trail@.len(),
            },
    {
        let ghost s0 = *self;
        let ghost n = self.num_vars as int;
        proof {
            assert(self.trail@.subrange(0, self.trail@.len() as int) =~= self.trail@);
        }
        while self.qhead < self.trail.len()
            invariant
                self.inv(),
                self.propagation_frame(&s0),
                self.implied_since(&s0),
                s0 == *old(self),
                n == self.num_vars,
            decreases n + 1 - self.qhead,
        {
            proof {
                self.lemma_trail_len();
            }
            let lit = self.trail[self.qhead];
            let ghost pre = *self;
            self.qhead = self.qhead + 1;
            let ghost q1 = self.qhead;
            self.propagations = self.propagations.saturating_add(1);
            proof {
                lemma_frame_watch_change(&s0, &pre, self);
                assert(in_range(lit as int, n));
                assert(self.lv(lit as int) == 1);
            }
            let ghost mid = *self;
            let c = self.propagate_binary(lit);
            proof {
                lemma_implied_trans(&s0, &mid, self);
                lemma_frame_trans(&s0, &mid, self);
            }
            if c.is_some() {
                self.qhead = self.trail.len();
                proof {
                    assert(self.propagation_frame(&s0));
                }
                return c;
            }
            let ghost mid2 = *self;
            let c2 = self.propagate_watches(lit);
            proof {
                lemma_implied_trans(&s0, &mid2, self);
                lemma_frame_trans(&s0, &mid2, self);
            }
            if c2.is_some() {
                self.qhead = self.trail.len();
                proof {
                    assert(self.propagation_frame(&s0));
                }
                return c2;
            }
        }
        None
    }

    /// Propagates the binary clauses `(-lit, m)` after `lit` became true.
    fn propagate_binary(&mut self, lit: i32) -> (r: Option<CRef>)
        requires
            old(self).inv(),
            in_range(lit as int, old(self).nvars()),
            old(self).lv(lit as int) == 1,
        ensures
            final(self).inv(),
            final(self).propagation_frame(&*old(self)),
            final(self).implied_since(&*old(self)),
            final(self).qhead == old(self).qhead,
            final(self).propagations == old(self).propagations,
            match r {
                Some(cr) => final(self).arena.valid(cr) && forall|k: int|
                    0 <= k < final(self).clits(cr).len() ==> final(self).lv(
                        #[trigger] final(self).clits(cr)[k],
                    ) == -1,
                None => true,
            },
    {
        let ghost s0 = *self;
        let ghost n = self.num_vars as int;
        proof {
            assert(self.trail@.subrange(0, self.trail@.len() as int) =~= self.trail@);
        }
        let big_idx = Self::lit_to_watch_idx(lit, self.num_vars);
        let n_bin = self.bin_implies[big_idx].len();
        let mut bi: usize = 0;
        while bi < n_bin
            invariant
                self.inv(),
                self.propagation_frame(&s0),
                self.implied_since(&s0),
                s0 == *old(self),
                n == self.num_vars,
                big_idx < self.bin_implies@.len(),
                n_bin == self.bin_implies@[big_idx as int]@.len(),
                bi <= n_bin,
                in_range(lit as int, n),
                self.lv(lit as int) == 1,
                self.qhead == s0.qhead,
                self.propagations == s0.propagations,
            decreases n_bin - bi,
        {
            let e = self.bin_implies[big_idx][bi];
            let implied = e.0;
            let cr = e.1;
            proof {
                assert(self.bin_implies@[big_idx as int]@[bi as int] == e);
            }
            let val = self.lit_value(implied);
            if val == -1 {
                if self.clause_implies(cr, 0) {
                    proof {
                        assert forall|k: int| 0 <= k < self.clits(cr).len() implies self.lv(
                            #[trigger] self.clits(cr)[k],
                        ) == -1 by {
                            assert(clause_in_range(self.clits(cr), n));
                        }
                    }
                    return Some(cr);
                }
            } else if val == 0 {
                if self.clause_implies(cr, implied) {
                    let ghost mid = *self;
                    proof {
                        self.arena.lemma_wf();
                    }
                    self.assign(implied, Some(cr));
                    proof {
                        lemma_implied_trans(&s0, &mid, self);
                        lemma_frame_trans(&s0, &mid, self);
                    }
                }
            }
            bi = bi + 1;
        }
        None
    }

    /// Visits the watchers of `-lit` after `lit` became true, moving watches
    /// to non-false literals and propagating unit clauses.
    #[verifier::spinoff_prover]
    fn propagate_watches(&mut self, lit: i32) -> (r: Option<CRef>)
        requires
            old(self).inv(),
            in_range(lit as int, old(self).nvars()),
            old(self).lv(lit as int) == 1,
        ensures
            final(self).inv(),
            final(self).propagation_frame(&*old(self)),
            final(self).implied_since(&*old(self)),
            final(self).qhead == old(self).qhead,
            final(self).propagations == old(self).propagations,
            match r {
                Some(cr) => final(self).arena.valid(cr) && forall|k: int|
                    0 <= k < final(self).clits(cr).len() ==> final(self).lv(
                        #[trigger] final(self).clits(cr)[k],
                    ) == -1,
                None => true,
            },
    {
        let ghost s0 = *self;
        let ghost n = self.num_vars as int;
        proof {
            assert(self.trail@.subrange(0, self.trail@.len() as int) =~= self.trail@);
        }
        let false_lit = -lit;
        let watch_idx = Self::lit_to_watch_idx(false_lit, self.num_vars);
        let wlen = self.watches[watch_idx].len();
        let mut i: usize = 0;
        let mut j: usize = 0;
        while i < wlen
            invariant
                self.inv(),
                self.propagation_frame(&s0),
                self.implied_since(&s0),
                s0 == *old(self),
                n == self.num_vars,
                watch_idx < self.watches@.len(),
                watch_idx == lit_idx(false_lit as int),
                wlen == self.watches@[watch_idx as int]@.len(),
                j <= i <= wlen,
                in_range(false_lit as int, n),
                self.lv(false_lit as int) == -1,
                self.qhead == s0.qhead,
                self.propagations == s0.propagations,
            decreases wlen - i,
        {
            let watcher = self.watches[watch_idx][i];
            proof {
                assert(self.watches@[watch_idx as int]@[i as int] == watcher);
            }
            i = i + 1;
            let ghost mid = *self;
            let (keep, conflict) = self.visit_watch(watcher, false_lit, watch_idx);
            proof {
                lemma_implied_trans(&s0, &mid, self);
                lemma_frame_trans(&s0, &mid, self);
            }
            match keep {
                Some(w) => {
                    let ghost pre = *self;
                    self.watches[watch_idx].set(j, w);
                    j = j + 1;
                    proof {
                        lemma_frame_watch_change(&s0, &pre, self);
                    }
                },
                None => {},
            }
            if conflict {
                // Keep the remaining watchers.
                while i < wlen
                    invariant
                        self.inv(),
                        self.propagation_frame(&s0),
                        self.implied_since(&s0),
                        s0 == *old(self),
                        watch_idx < self.watches@.len(),
                        wlen == self.watches@[watch_idx as int]@.len(),
                        j <= i <= wlen,
                        self.qhead == s0.qhead,
                        self.propagations == s0.propagations,
                        keep is Some,
                        self.arena.valid(keep->0.cref),
                        forall|m: int| 0 <= m < self.clits(keep->0.cref).len() ==> self.lv(
                            #[trigger] self.clits(keep->0.cref)[m],
                        ) == -1,
                    decreases wlen - i,
                {
                    let w = self.watches[watch_idx][i];
                    proof {
                        assert(self.watches@[watch_idx as int]@[i as int] == w);
                    }
                    self.watches[watch_idx].set(j, w);
                    proof {
                        assert(self.propagation_frame(&s0));
                    }
                    j = j + 1;
                    i = i + 1;
                }
                self.watches[watch_idx].truncate(j);
                proof {
                    assert(self.propagation_frame(&s0));
                }
                return Some(keep.unwrap().cref);
            }
        }
        self.watches[watch_idx].truncate(j);
        proof {
            assert(self.propagation_frame(&s0));
        }
        None
    }

    /// Handles one watcher of the false literal `false_lit`.  Returns the
    /// watcher to keep in the list (`None` when the clause now watches
    /// another literal or is deleted) and whether the clause is in conflict
    /// (then the kept watcher's clause has only false literals).
    fn visit_watch(&mut self, watcher: Watcher, false_lit: i32, watch_idx: usize) -> (r: (
        Option<Watcher>,
        bool,
    ))
        requires
            old(self).inv(),
            in_range(false_lit as int, old(self).nvars()),
            old(self).lv(false_lit as int) == -1,
            watch_idx == lit_idx(false_lit as int),
            old(self).arena.valid(watcher.cref),
            in_range(watcher.blocker as int, old(self).nvars()),
        ensures
            final(self).inv(),
            final(self).propagation_frame(&*old(self)),
            final(self).implied_since(&*old(self)),
            final(self).qhead == old(self).qhead,
            final(self).propagations == old(self).propagations,
            final(self).watches@.len() == old(self).watches@.len(),
            final(self).watches@[watch_idx as int] == old(self).watches@[watch_idx as int],
            r.0 is Some ==> final(self).arena.valid(r.0->0.cref) && in_range(
                r.0->0.blocker as int,
                final(self).nvars(),
            ),
            r.1 ==> r.0 is Some && forall|m: int|
                0 <= m < final(self).clits(r.0->0.cref).len() ==> final(self).lv(
                    #[trigger] final(self).clits(r.0->0.cref)[m],
                ) == -1,
    {
        let ghost s0 = *self;
        let ghost n = self.num_vars as int;
        proof {
            assert(self.trail@.subrange(0, self.trail@.len() as int) =~= self.trail@);
        }
        let cr = watcher.clause_idx();
        if self.arena.is_deleted(cr) {
            return (None, false);
        }
        if self.lit_value(watcher.blocker) == 1 {
            return (Some(watcher), false);
        }
        let clen = self.arena.len(cr);
        if clen < 2 {
            return (Some(watcher), false);
        }
        if self.arena.lit(cr, 0) == false_lit {
            self.swap_clause_lits(cr, 0, 1);
        }
        let first = self.arena.lit(cr, 0);
        proof {
            assert(self.arena.valid(cr));
            assert(self.clits(cr)[0] == first);
            assert(clause_in_range(self.clits(cr), n));
        }
        if first != watcher.blocker && self.lit_value(first) == 1 {
            return (Some(Watcher::long(cr, first)), false);
        }
        // Look for a new literal to watch.
        let mut found_new = false;
        let mut k: usize = 2;
        while k < clen && !found_new
            invariant
                self.inv(),
                self.propagation_frame(&s0),
                self.values == s0.values,
                self.assignments == s0.assignments,
                s0 == *old(self),
                n == self.num_vars,
                watch_idx == lit_idx(false_lit as int),
                self.watches@.len() == s0.watches@.len(),
                self.watches@[watch_idx as int] == s0.watches@[watch_idx as int],
                in_range(false_lit as int, n),
                self.lv(false_lit as int) == -1,
                self.qhead == s0.qhead,
                self.propagations == s0.propagations,
                self.arena.valid(cr),
                clen == self.clits(cr).len(),
                2 <= k <= clen,
                self.clits(cr)[0] == first,
                in_range(first as int, n),
                !found_new ==> forall|m: int| 2 <= m < k ==> self.lv(
                    #[trigger] self.clits(cr)[m],
                ) == -1,
            decreases clen - k + if found_new { 0int } else { 1int },
        {
            let x = self.arena.lit(cr, k);
            proof {
                assert(self.clits(cr)[k as int] == x);
                assert(clause_in_range(self.clits(cr), n));
            }
            if self.lit_value(x) != -1 {
                let ghost mid = *self;
                self.swap_clause_lits(cr, 1, k);
                proof {
                    lemma_frame_trans(&s0, &mid, self);
                }
                let nw = Self::lit_to_watch_idx(x, self.num_vars);
                proof {
                    assert(nw != watch_idx);
                }
                let ghost pre = *self;
                self.watches[nw].push(Watcher::long(cr, first));
                proof {
                    lemma_frame_watch_change(&s0, &pre, self);
                }
                found_new = true;
            } else {
                k = k + 1;
            }
        }
        if found_new {
            return (None, false);
        }
        let second = self.arena.lit(cr, 1);
        let fv = self.lit_value(first);
        proof {
            assert(self.clits(cr)[1] == second as int);
            assert(self.clits(cr)[0] == first as int);
        }
        if second == false_lit {
            if fv == -1 {
                proof {
                    assert forall|m: int| 0 <= m < self.clits(cr).len() implies self.lv(
                        #[trigger] self.clits(cr)[m],
                    ) == -1 by {
                        if m == 1 {
                            assert(self.clits(cr)[1] == false_lit);
                        }
                    }
                }
                return (Some(Watcher::long(cr, first)), true);
            } else if fv == 0 {
                proof {
                    assert forall|m: int| 0 <= m < self.clits(cr).len() implies #[trigger] self.clits(cr)[m]
                        == first || self.lv(self.clits(cr)[m]) == -1 by {
                        if m == 1 {
                            assert(self.clits(cr)[1] == false_lit);
                        }
                    }
                    self.arena.lemma_wf();
                }
                let ghost mid = *self;
                self.assign(first, Some(cr));
                proof {
                    assert(mid.implied_since(&s0));
                    lemma_implied_trans(&s0, &mid, self);
                    lemma_frame_trans(&s0, &mid, self);
                }
            }
        }
        (Some(Watcher::long(cr, first)), false)
    }
}

proof fn lemma_implied_trans(a: &CDCLSolver, b: &CDCLSolver, c: &CDCLSolver)
    requires
        b.propagation_frame(a),
        b.implied_since(a),
        c.propagation_frame(b),
        c.implied_since(b),
    ensures
        c.implied_since(a),
{
    assert forall|v: int|
        1 <= v <= c.num_vars && a.values@[v] == 0 && #[trigger] c.values@[v] != 0 implies c.ant(v)
            != CREF_UNDEF by {
        if b.values@[v] != 0 {
            assert(c.assignments@[v] == b.assignments@[v]);
        }
    }
}

/// The built lists have one list per literal slot.
proof fn lemma_built_len(s: &CDCLSolver, refs: Seq<CRef>, nl: int)
    requires
        0 <= nl,
    ensures
        s.built_watches(refs, nl).len() == nl,
        s.built_bins(refs, nl).len() == nl,
    decreases refs.len(),
{
    if refs.len() > 0 {
        lemma_built_len(s, refs.drop_last(), nl);
    }
}

/// The built lists depend on the arena alone.
proof fn lemma_built_same(a: &CDCLSolver, b: &CDCLSolver, refs: Seq<CRef>, nl: int)
    requires
        a.arena == b.arena,
    ensures
        a.built_watches(refs, nl) == b.built_watches(refs, nl),
        a.built_bins(refs, nl) == b.built_bins(refs, nl),
    decreases refs.len(),
{
    if refs.len() > 0 {
        lemma_built_same(a, b, refs.drop_last(), nl);
    }
}

#[verifier::spinoff_prover]
#[verifier::rlimit(30)]
proof fn lemma_frame_trans(a: &CDCLSolver, b: &CDCLSolver, c: &CDCLSolver)
    requires
        b.propagation_frame(a),
        c.propagation_frame(b),
    ensures
        c.propagation_frame(a),
{
    assert(c.trail@.subrange(0, a.trail@.len() as int) =~= b.trail@.subrange(
        0,
        a.trail@.len() as int,
    ));
    assert forall|v: int| 1 <= v <= a.num_vars && a.values@[v] != 0 implies #[trigger] c.values@[v]
        == a.values@[v] && c.assignments@[v] == a.assignments@[v] by {
        assert(b.values@[v] == a.values@[v] && b.assignments@[v] == a.assignments@[v]);
        assert(1 <= v <= b.num_vars && b.values@[v] != 0);
        assert(c.values@[v] == b.values@[v] && c.assignments@[v] == b.assignments@[v]);
    }
    assert(same_meta(c.arena, a.arena)) by {
        assert(c.arena.clauses().dom() =~= a.arena.clauses().dom());
    }
}

/// The frame of unit propagation does not look at the watch lists, the
/// propagation head or the statistics.
#[verifier::spinoff_prover]
proof fn lemma_frame_watch_change(s0: &CDCLSolver, a: &CDCLSolver, b: &CDCLSolver)
    requires
        a.propagation_frame(s0),
        b.arena == a.arena,
        b.trail == a.trail,
        b.values == a.values,
        b.assignments == a.assignments,
        b.input == a.input,
        b.num_vars == a.num_vars,
        b.decision_level == a.decision_level,
        b.trail_lim == a.trail_lim,
        b.clause_refs == a.clause_refs,
        b.seen == a.seen,
        b.first_learned_idx == a.first_learned_idx,
        b.num_learned_alive == a.num_learned_alive,
        b.initial_conflict == a.initial_conflict,
        b.conflicts == a.conflicts,
        b.activity_inc == a.activity_inc,
        b.clause_act_inc == a.clause_act_inc,
        b.bin_implies == a.bin_implies,
        b.var_heap == a.var_heap,
    ensures
        b.propagation_frame(s0),
{
}

/// Two arenas hold the same clauses with the same literals; only clause
/// activities may differ.
pub open spec fn same_lits(a: ClauseArena, b: ClauseArena) -> bool {
    &&& a.clauses().dom() == b.clauses().dom()
    &&& a.words() == b.words()
    &&& a.wasted_words() == b.wasted_words()
    &&& forall|cr: int| #[trigger]
        a.clauses().dom().contains(cr) ==> a.clauses()[cr].learnt == b.clauses()[cr].learnt
            && a.clauses()[cr].deleted == b.clauses()[cr].deleted && a.clauses()[cr].lbd
            == b.clauses()[cr].lbd && a.clauses()[cr].lits == b.clauses()[cr].lits
}

impl CDCLSolver {
    /// Frame of conflict analysis: only heuristic scores change.
    pub closed spec fn analysis_frame(&self, s0: &Self) -> bool {
        &&& self.formula() == s0.formula()
        &&& self.num_vars == s0.num_vars
        &&& self.decision_level == s0.decision_level
        &&& self.trail == s0.trail
        &&& self.trail_lim == s0.trail_lim
        &&& self.values == s0.values
        &&& self.assignments == s0.assignments
        &&& self.tpos == s0.tpos
        &&& self.qhead == s0.qhead
        &&& self.clause_refs == s0.clause_refs
        &&& self.input == s0.input
        &&& self.watches == s0.watches
        &&& self.bin_implies == s0.bin_implies
        &&& self.first_learned_idx == s0.first_learned_idx
        &&& self.num_learned_alive == s0.num_learned_alive
        &&& self.initial_conflict == s0.initial_conflict
        &&& self.conflicts == s0.conflicts
        &&& self.activity_inc == s0.activity_inc
        &&& self.clause_act_inc == s0.clause_act_inc
        &&& same_lits(self.arena, s0.arena)
    }

    /// The literal `z` is false and accounted for by the clause being
    /// learned, by a level-0 fact, by a resolved variable, or by a variable
    /// of the current level still to be resolved.
    pub closed spec fn covered(
        &self,
        z: int,
        learned: Seq<i32>,
        d: Set<int>,
        pending: Set<int>,
    ) -> bool {
        &&& self.lv(z) == -1
        &&& (ints(learned).contains(z) || self.level(var_of(z)) == 0 || d.contains(var_of(z))
            || pending.contains(var_of(z)))
    }

    /// Every other literal of the antecedent of `u` is accounted for.
    pub closed spec fn certified(
        &self,
        u: int,
        learned: Seq<i32>,
        d: Set<int>,
        pending: Set<int>,
    ) -> bool {
        let c = self.clits(self.ant(u));
        &&& 1 <= u <= self.num_vars
        &&& self.values@[u] != 0
        &&& self.ant(u) != CREF_UNDEF
        &&& self.reason_ok(u)
        &&& forall|k: int|
            0 <= k < c.len() ==> #[trigger] c[k] == self.tlit(u) || self.covered(
                c[k],
                learned,
                d,
                pending,
            )
    }

    /// In every model of the formula that falsifies the literals of `k`, a
    /// certified variable takes its trail value.
    proof fn lemma_cert_at(
        &self,
        kl: Seq<i32>,
        d: Set<int>,
        a: spec_fn(int) -> bool,
        u: int,
    )
        requires
            self.inv(),
            formula_sat(a, self.formula()),
            forall|k: int| 0 <= k < kl.len() ==> !lit_true(a, #[trigger] kl[k] as int),
            forall|w: int| #[trigger] d.contains(w) ==> self.certified(w, kl, d, Set::empty()),
            d.contains(u),
        ensures
            lit_true(a, self.tlit(u)),
        decreases self.tpos@[u],
    {
        let n = self.num_vars as int;
        assert(self.certified(u, kl, d, Set::empty()));
        let cr = self.ant(u);
        let c = self.clits(cr);
        assert(self.reason_ok(u));
        assert(entails(self.formula(), c));
        assert(clause_sat(a, c));
        let k = choose|k: int| 0 <= k < c.len() && #[trigger] lit_true(a, c[k]);
        if c[k] != self.tlit(u) {
            assert(self.covered(c[k], kl, d, Set::empty()));
            let z = c[k];
            let w = var_of(z);
            assert(clause_in_range(c, n));
            assert(z != 0 && -n <= z <= n);
            assert(self.values@[w] != 0);
            assert(self.tlit(w) == -z);
            if ints(kl).contains(z) {
                let i = choose|i: int| 0 <= i < ints(kl).len() && ints(kl)[i] == z;
                assert(!lit_true(a, kl[i] as int));
            } else if self.level(w) == 0 {
                assert(entails(self.formula(), seq![self.tlit(w)]));
                assert(clause_sat(a, seq![-z]));
                assert(lit_true(a, seq![-z][0]));
            } else {
                assert(d.contains(w));
                assert(self.tpos@[w] < self.tpos@[u]);
                assert(0 <= self.tpos@[w]);
                self.lemma_cert_at(kl, d, a, w);
            }
        }
    }

    /// A clause all of whose literals are false, each accounted for by `kl`,
    /// a level-0 fact or a certified variable, shows that the formula
    /// entails `kl`.
    proof fn lemma_cert_entails(&self, kl: Seq<i32>, d: Set<int>, c: Seq<int>)
        requires
            self.inv(),
            entails(self.formula(), c),
            forall|w: int| #[trigger] d.contains(w) ==> self.certified(w, kl, d, Set::empty()),
            forall|k: int|
                0 <= k < c.len() ==> self.covered(#[trigger] c[k], kl, d, Set::empty()),
            forall|k: int| 0 <= k < c.len() ==> in_range(#[trigger] c[k], self.num_vars as int),
        ensures
            entails(self.formula(), ints(kl)),
    {
        let n = self.num_vars as int;
        assert forall|a: spec_fn(int) -> bool| #[trigger] formula_sat(a, self.formula()) implies clause_sat(
            a,
            ints(kl),
        ) by {
            if !clause_sat(a, ints(kl)) {
                assert forall|k: int| 0 <= k < kl.len() implies !lit_true(a, #[trigger] kl[k] as int) by {
                    assert(ints(kl)[k] == kl[k] as int);
                }
                assert(clause_sat(a, c));
                let k = choose|k: int| 0 <= k < c.len() && #[trigger] lit_true(a, c[k]);
                let z = c[k];
                let w = var_of(z);
                assert(self.covered(z, kl, d, Set::empty()));
                assert(in_range(z, n));
                assert(self.values@[w] != 0);
                assert(self.tlit(w) == -z);
                if ints(kl).contains(z) {
                    let i = choose|i: int| 0 <= i < ints(kl).len() && ints(kl)[i] == z;
                    assert(!lit_true(a, kl[i] as int));
                } else if self.level(w) == 0 {
                    assert(entails(self.formula(), seq![self.tlit(w)]));
                    assert(clause_sat(a, seq![-z]));
                    assert(lit_true(a, seq![-z][0]));
                } else {
                    self.lemma_cert_at(kl, d, a, w);
                }
            }
        }
    }
}

/// Whether `x` occurs in `v`.
fn usize_vec_contains(v: &Vec<usize>, x: usize) -> (b: bool)
    ensures
        b == v@.contains(x),
{
    let mut i: usize = 0;
    while i < v.len()
        invariant
            i <= v@.len(),
            forall|j: int| 0 <= j < i ==> v@[j] != x,
        decreases v@.len() - i,
    {
        if v[i] == x {
            return true;
        }
        i = i + 1;
    }
    false
}

/// A subset of `1..=n` has at most `n` elements.
proof fn lemma_var_set_len(s: Set<int>, n: int)
    requires
        0 <= n,
        forall|w: int| #[trigger] s.contains(w) ==> 1 <= w <= n,
    ensures
        s.finite(),
        s.len() <= n,
{
    let all = vstd::set_lib::set_int_range(1, n + 1);
    vstd::set_lib::lemma_int_range(1, n + 1);
    assert(s.subset_of(all));
    vstd::set_lib::lemma_len_subset(s, all);
}

impl CDCLSolver {
    /// State of conflict analysis relative to the state `s0` it started
    /// from: the marked variables, the literals learned so far (false, of
    /// lower levels) and the variables of the current level still to be
    /// resolved (`pending`, counted by `counter`).
    pub closed spec fn an_inv(
        &self,
        s0: CDCLSolver,
        learned: Seq<i32>,
        touched: Seq<usize>,
        counter: usize,
        pending: Set<int>,
    ) -> bool {
        let n = s0.num_vars as int;
        &&& self.inv_core()
        &&& s0.inv()
        &&& self.analysis_frame(&s0)
        &&& s0.decision_level > 0
        &&& forall|w: int|
            0 <= w < self.seen@.len() && #[trigger] self.seen@[w] ==> 1 <= w <= n && s0.values@[w]
                != 0 && touched.contains(w as usize) && (s0.level(w) == s0.decision_level
                ==> pending.contains(w)) && (s0.level(w) != s0.decision_level && s0.level(w) > 0
                ==> ints(learned).contains(-s0.tlit(w)))
        &&& forall|w: int| #[trigger]
            pending.contains(w) ==> 1 <= w <= n && self.seen@[w] && s0.level(w)
                == s0.decision_level
        &&& pending.finite()
        &&& counter == pending.len()
        &&& forall|k: int|
            0 <= k < learned.len() ==> in_range(#[trigger] learned[k] as int, n) && s0.lv(
                learned[k] as int,
            ) == -1
        &&& forall|i: int| 0 <= i < touched.len() ==> 1 <= #[trigger] touched[i] <= n
    }

    /// Unmarks the variables listed in `touched`.
    fn clear_seen(&mut self, touched: &Vec<usize>)
        requires
            old(self).inv_core(),
            forall|i: int| 0 <= i < touched@.len() ==> (#[trigger] touched@[i]) < old(self).seen@.len(),
            forall|w: int|
                0 <= w < old(self).seen@.len() && #[trigger] old(self).seen@[w] ==> touched@.contains(
                    w as usize,
                ),
        ensures
            final(self).inv(),
            final(self).seen@.len() == old(self).seen@.len(),
            final(self).arena == old(self).arena,
            final(self).var_heap == old(self).var_heap,
            final(self).analysis_frame(&*old(self)),
    {
        let ghost s0 = *self;
        let mut i: usize = 0;
        while i < touched.len()
            invariant
                i <= touched@.len(),
                self.inv_core(),
                self.seen@.len() == s0.seen@.len(),
                forall|j: int| 0 <= j < touched@.len() ==> (#[trigger] touched@[j]) < s0.seen@.len(),
                forall|w: int|
                    0 <= w < self.seen@.len() && #[trigger] self.seen@[w] ==> exists|j: int|
                        i <= j < touched@.len() && touched@[j] == w,
                self.arena == s0.arena,
                self.var_heap == s0.var_heap,
                self.analysis_frame(&s0),
            decreases touched@.len() - i,
        {
            let v = touched[i];
            self.seen.set(v, false);
            i = i + 1;
            proof {
                assert forall|w: int| 0 <= w < self.seen@.len() && #[trigger] self.seen@[w] implies exists|j: int|
                    i <= j < touched@.len() && touched@[j] == w by {
                    let j = choose|j: int| i - 1 <= j < touched@.len() && touched@[j] == w;
                    assert(j != i - 1);
                }
            }
        }
        proof {
            assert(self.same_lits_self());
        }
    }

    pub closed spec fn same_lits_self(&self) -> bool {
        same_lits(self.arena, self.arena)
    }

    /// Adds the clause activity increment to the activity of learned clause
    /// `cr` (saturating).
    fn bump_clause_activity(&mut self, cr: CRef)
        requires
            old(self).inv_core(),
            old(self).arena.valid(cr),
            old(self).arena.clauses()[cr as int].learnt,
        ensures
            final(self).inv_core(),
            final(self).analysis_frame(&*old(self)),
            final(self).seen == old(self).seen,
            final(self).var_heap == old(self).var_heap,
            final(self).arena.clauses() == old(self).arena.clauses().insert(
                cr as int,
                ArenaClause {
                    act: if old(self).arena.clauses()[cr as int].act + old(self).clause_act_inc > u32::MAX {
                        u32::MAX
                    } else {
                        (old(self).arena.clauses()[cr as int].act + old(self).clause_act_inc) as u32
                    },
                    ..old(self).arena.clauses()[cr as int]
                },
            ),
    {
        let ghost s0 = *self;
        let act = self.arena.activity(cr);
        self.arena.set_activity(cr, act.saturating_add(self.clause_act_inc));
        proof {
            assert(self.arena.clauses().dom() =~= s0.arena.clauses().dom());
            assert forall|x: CRef| #[trigger] self.arena.valid(x) implies clause_in_range(
                self.clits(x),
                self.num_vars as int,
            ) && entails(self.formula(), self.clits(x)) by {
                assert(s0.arena.valid(x));
                assert(self.clits(x) == s0.clits(x));
            }
            assert forall|v: int| 1 <= v <= self.num_vars && #[trigger] self.values@[v] != 0
                && self.ant(v) != CREF_UNDEF implies self.reason_ok(v) by {
                assert(s0.reason_ok(v));
                assert(self.clits(self.ant(v)) == s0.clits(self.ant(v)));
            }
        }
    }

    /// Adds the variable activity increment to the activity of `var`
    /// (saturating) and restores its place in the heap.
    fn bump_activity(&mut self, var: usize)
        requires
            old(self).inv_core(),
            1 <= var <= old(self).num_vars,
        ensures
            final(self).inv_core(),
            final(self).analysis_frame(&*old(self)),
            final(self).seen == old(self).seen,
            final(self).arena == old(self).arena,
            final(self).var_heap.act() == old(self).var_heap.act().update(
                var as int,
                if old(self).var_heap.act()[var as int] + old(self).activity_inc > u64::MAX {
                    u64::MAX
                } else {
                    (old(self).var_heap.act()[var as int] + old(self).activity_inc) as u64
                },
            ),
    {
        let ghost s0 = *self;
        proof {
            self.var_heap.lemma_act_len();
        }
        let a = self.var_heap.activity_of(var);
        let inc = self.activity_inc;
        self.var_heap.raise_activity(var as i32, a.saturating_add(inc));
        proof {
            assert(self.same_lits_self());
        }
    }
}

impl CDCLSolver {
    /// Marks the variables of clause `cr` (other than the resolved literal
    /// `p`; `p == 0` for the conflicting clause): variables of the current
    /// level become pending, false literals of lower levels join `learned`,
    /// level-0 literals are dropped.
    fn scan_clause(
        &mut self,
        cr: CRef,
        p: i32,
        learned: &mut Vec<i32>,
        touched: &mut Vec<usize>,
        counter: &mut usize,
        Ghost(s0): Ghost<CDCLSolver>,
        Ghost(pending): Ghost<Set<int>>,
    ) -> (r: Result<Ghost<Set<int>>, SolverError>)
        requires
            old(self).an_inv(s0, old(learned)@, old(touched)@, *old(counter), pending),
            s0.arena.valid(cr),
            p == 0 || (1 <= var_of(p as int) <= s0.num_vars && s0.values@[var_of(p as int)] != 0
                && p == s0.tlit(var_of(p as int)) && s0.ant(var_of(p as int)) == cr),
        ensures
            match r {
                Ok(g) => {
                    &&& final(self).an_inv(
                        s0,
                        final(learned)@,
                        final(touched)@,
                        *final(counter),
                        g@,
                    )
                    &&& pending.subset_of(g@)
                    &&& old(learned)@.len() <= final(learned)@.len()
                    &&& final(learned)@.subrange(0, old(learned)@.len() as int) == old(learned)@
                    &&& forall|k: int|
                        0 <= k < s0.clits(cr).len() ==> #[trigger] s0.clits(cr)[k] == p
                            || s0.covered(s0.clits(cr)[k], final(learned)@, Set::empty(), g@)
                },
                Err(_) => {
                    &&& final(self).inv_core()
                    &&& final(self).analysis_frame(&s0)
                    &&& final(self).seen@.len() == s0.seen@.len()
                    &&& forall|i: int|
                        0 <= i < final(touched)@.len() ==> (#[trigger] final(touched)@[i])
                            < s0.seen@.len()
                    &&& forall|w: int|
                        0 <= w < final(self).seen@.len() && #[trigger] final(self).seen@[w]
                            ==> final(touched)@.contains(w as usize)
                },
            },
    {
        let ghost n = s0.num_vars as int;
        let ghost learned0 = learned@;
        proof {
            s0.arena.lemma_wf();
            assert(self.arena.clauses().dom() == s0.arena.clauses().dom());
        }
        if self.arena.is_learnt(cr) {
            let ghost pre = *self;
            self.bump_clause_activity(cr);
            proof {
                lemma_analysis_frame_trans(&s0, &pre, self);
            }
        }
        let clause_len = self.arena.len(cr);
        let ghost mut pend = pending;
        proof {
            assert(self.clits(cr) == s0.clits(cr));
            assert(clause_in_range(s0.clits(cr), n));
            if p != 0 {
                assert(s0.reason_ok(var_of(p as int)));
            }
        }
        let mut k: usize = 0;
        while k < clause_len
            invariant
                self.an_inv(s0, learned@, touched@, *counter, pend),
                n == s0.num_vars,
                pending.subset_of(pend),
                learned0.len() <= learned@.len(),
                learned@.subrange(0, learned0.len() as int) == learned0,
                s0.arena.valid(cr),
                self.arena.valid(cr),
                clause_len == s0.clits(cr).len(),
                self.clits(cr) == s0.clits(cr),
                clause_in_range(s0.clits(cr), n),
                k <= clause_len,
                p == 0 || (1 <= var_of(p as int) <= s0.num_vars && s0.values@[var_of(p as int)] != 0
                    && p == s0.tlit(var_of(p as int)) && s0.ant(var_of(p as int)) == cr
                    && s0.reason_ok(var_of(p as int))),
                forall|m: int|
                    0 <= m < k ==> #[trigger] s0.clits(cr)[m] == p || (s0.lv(s0.clits(cr)[m]) == -1
                        && (s0.level(var_of(s0.clits(cr)[m])) == 0 || self.seen@[var_of(
                        s0.clits(cr)[m],
                    )])),
            decreases clause_len - k,
        {
            let lit = self.arena.lit(cr, k);
            proof {
                assert(self.clits(cr)[k as int] == lit);
                assert(in_range(lit as int, n));
            }
            let var: usize = if lit < 0 { (-lit) as usize } else { lit as usize };
            if p != 0 && (lit == p || lit == -p) {
                proof {
                    if lit == -p {
                        let w = var_of(p as int);
                        assert(s0.reason_ok(w));
                        assert(s0.clits(s0.ant(w))[k as int] == -p);
                        assert(s0.tlit(w) == p);
                        assert(false);
                    }
                }
                k = k + 1;
                continue;
            }
            if self.values[var] == 0 {
                return Err(
                    SolverError::InvalidConflictAnalysis {
                        variable: var as i32,
                        message: "Variable in conflict clause is not assigned".to_string(),
                    },
                );
            }
            if self.lit_value(lit) != -1 {
                return Err(SolverError::InternalError("Literal in conflict clause is not false".to_string()));
            }
            if !self.seen[var] {
                let ghost pre_seen = self.seen@;
                let ghost t0 = touched@;
                proof {
                    assert forall|w: int| 0 <= w < pre_seen.len() && #[trigger] pre_seen[w] implies t0.contains(
                        w as usize,
                    ) by {
                        assert(self.seen@[w]);
                    }
                }
                self.seen.set(var, true);
                touched.push(var);
                let dl = self.assignments[var].decision_level;
                if dl == self.decision_level {
                    proof {
                        lemma_var_set_len(pend, n);
                        assert(!pend.contains(var as int));
                        lemma_var_set_len(pend.insert(var as int), n);
                    }
                    *counter = *counter + 1;
                    proof {
                        pend = pend.insert(var as int);
                    }
                } else if dl > 0 {
                    let ghost l0 = learned@;
                    learned.push(lit);
                    proof {
                        assert(ints(learned@)[learned@.len() - 1] == lit);
                        assert(s0.tlit(var as int) == -lit);
                        assert(learned@.subrange(0, learned0.len() as int) =~= learned0);
                        assert forall|w: int| 0 <= w < self.seen@.len() && #[trigger] self.seen@[w]
                            && s0.level(w) != s0.decision_level && s0.level(w) > 0 implies ints(
                            learned@,
                        ).contains(-s0.tlit(w)) by {
                            if w != var {
                                assert(pre_seen[w]);
                                let i = choose|i: int| 0 <= i < ints(l0).len() && ints(l0)[i] == -s0.tlit(w);
                                assert(ints(learned@)[i] == ints(l0)[i]);
                            }
                        }
                    }
                    let ghost pre = *self;
                    self.bump_activity(var);
                    proof {
                        lemma_analysis_frame_trans(&s0, &pre, self);
                    }
                }
                proof {
                    assert forall|w: int| 0 <= w < self.seen@.len() && #[trigger] self.seen@[w]
                        implies touched@.contains(w as usize) by {
                        if w != var {
                            assert(pre_seen[w]);
                            assert(t0.contains(w as usize));
                            let i = choose|i: int| 0 <= i < t0.len() && t0[i] == w as usize;
                            assert(touched@[i] == t0[i]);
                        } else {
                            assert(touched@[touched@.len() - 1] == var);
                        }
                    }
                }
            }
            k = k + 1;
        }
        proof {
            assert forall|m: int| 0 <= m < s0.clits(cr).len() implies #[trigger] s0.clits(cr)[m] == p
                || s0.covered(s0.clits(cr)[m], learned@, Set::empty(), pend) by {
                let z = s0.clits(cr)[m];
                if z != p {
                    let w = var_of(z);
                    assert(in_range(z, n));
                    assert(s0.values@[w] != 0);
                    assert(s0.tlit(w) == -z);
                    if s0.level(w) != 0 {
                        assert(self.seen@[w]);
                    }
                }
            }
        }
        Ok(Ghost(pend))
    }
}

proof fn lemma_analysis_frame_trans(a: &CDCLSolver, b: &CDCLSolver, c: &CDCLSolver)
    requires
        b.analysis_frame(a),
        c.analysis_frame(b),
    ensures
        c.analysis_frame(a),
{
    assert(c.arena.clauses().dom() =~= a.arena.clauses().dom());
}

/// The variables `root` and those listed in `vs`.
pub open spec fn vset(vs: Seq<usize>, root: usize) -> Set<int> {
    Set::new(|w: int| w == root || exists|i: int| 0 <= i < vs.len() && vs[i] == w)
}

/// A sequence of distinct variables of `1..=n` has at most `n` elements.
proof fn lemma_distinct_vars_len(vs: Seq<usize>, n: int)
    requires
        0 <= n,
        vs.no_duplicates(),
        forall|i: int| 0 <= i < vs.len() ==> 1 <= #[trigger] vs[i] <= n,
    ensures
        vs.len() <= n,
{
    let m = vs.map_values(|x: usize| x as int);
    assert(m.no_duplicates()) by {
        assert forall|p: int, q: int| 0 <= p < m.len() && 0 <= q < m.len() && p != q implies m[p]
            != m[q] by {
            assert(vs[p] != vs[q]);
        }
    }
    m.unique_seq_to_set();
    assert forall|w: int| #[trigger] m.to_set().contains(w) implies 1 <= w <= n by {
        let i = choose|i: int| 0 <= i < m.len() && m[i] == w;
        assert(1 <= vs[i] <= n);
    }
    lemma_var_set_len(m.to_set(), n);
}

impl CDCLSolver {
    /// Whether variable `var` of the learned clause is implied by the other
    /// literals of the clause: every path back through antecedents ends in a
    /// clause variable or a level-0 variable, never a decision.  On success
    /// also returns the set of variables the search visited (with `var`),
    /// each of whose antecedents is accounted for by the clause, level-0
    /// facts or the set itself.
    fn lit_redundant(
        &self,
        var: usize,
        in_clause: &Vec<bool>,
        Ghost(s0): Ghost<CDCLSolver>,
        Ghost(lorig): Ghost<Seq<i32>>,
    ) -> (r: (bool, Ghost<Set<int>>))
        requires
            self.inv_core(),
            s0.inv(),
            self.analysis_frame(&s0),
            1 <= var <= s0.num_vars,
            s0.values@[var as int] != 0,
            in_clause@.len() == s0.num_vars + 1,
            in_clause@[var as int],
            forall|u: int|
                0 <= u < in_clause@.len() && #[trigger] in_clause@[u] ==> exists|i: int|
                    0 <= i < lorig.len() && var_of(lorig[i] as int) == u,
            forall|k: int|
                0 <= k < lorig.len() ==> in_range(#[trigger] lorig[k] as int, s0.num_vars as int)
                    && s0.lv(lorig[k] as int) == -1,
        ensures
            r.0 ==> r.1@.contains(var as int) && forall|w: int| #[trigger]
                r.1@.contains(w) ==> s0.certified(w, lorig, r.1@, Set::empty()),
    {
        let ghost n = s0.num_vars as int;
        let mut stack: Vec<usize> = Vec::new();
        stack.push(var);
        let mut visited: Vec<usize> = Vec::new();
        let ghost mut done: Set<int> = Set::empty();
        proof {
            assert(stack@[0] == var);
        }
        while stack.len() > 0
            invariant
                self.inv_core(),
                s0.inv(),
                self.analysis_frame(&s0),
                n == s0.num_vars,
                1 <= var <= n,
                s0.values@[var as int] != 0,
                in_clause@.len() == n + 1,
                in_clause@[var as int],
                forall|u: int|
                    0 <= u < in_clause@.len() && #[trigger] in_clause@[u] ==> exists|i: int|
                        0 <= i < lorig.len() && var_of(lorig[i] as int) == u,
                forall|k: int|
                    0 <= k < lorig.len() ==> in_range(#[trigger] lorig[k] as int, n) && s0.lv(
                        lorig[k] as int,
                    ) == -1,
                visited@.no_duplicates(),
                forall|i: int|
                    0 <= i < visited@.len() ==> 1 <= #[trigger] visited@[i] <= n && s0.values@[visited@[i] as int]
                        != 0 && visited@[i] != var,
                forall|i: int|
                    0 <= i < stack@.len() ==> #[trigger] vset(visited@, var).contains(stack@[i] as int),
                forall|w: int|
                    #[trigger] vset(visited@, var).contains(w) ==> done.contains(w) || exists|i: int|
                        0 <= i < stack@.len() && stack@[i] == w,
                forall|w: int| #[trigger]
                    done.contains(w) ==> vset(visited@, var).contains(w) && s0.certified(
                        w,
                        lorig,
                        vset(visited@, var),
                        Set::empty(),
                    ),
            decreases n + 1 - visited@.len(), stack@.len(),
        {
            proof {
                lemma_distinct_vars_len(visited@, n);
            }
            let ghost stack0 = stack@;
            let v = stack.pop().unwrap();
            proof {
                assert(stack0[stack0.len() - 1] == v);
                assert(vset(visited@, var).contains(v as int));
                assert forall|w: int| #[trigger] vset(visited@, var).contains(w) && w != v implies done.contains(w) || exists|i: int|
                    0 <= i < stack@.len() && stack@[i] == w by {
                    if !done.contains(w) {
                        let i = choose|i: int| 0 <= i < stack0.len() && stack0[i] == w;
                        assert(stack@[i] == stack0[i]);
                    }
                }
                if v != var {
                    let i = choose|i: int| 0 <= i < visited@.len() && visited@[i] == v;
                    assert(1 <= visited@[i] <= n);
                }
            }
            let a = self.assignments[v];
            if a.antecedent == CREF_UNDEF {
                return (false, Ghost(Set::empty()));
            }
            proof {
                assert(s0.values@[v as int] != 0);
                assert(s0.reason_ok(v as int));
                assert(self.clits(a.antecedent) == s0.clits(a.antecedent));
            }
            let cr = a.antecedent;
            let clen = self.arena.len(cr);
            let ghost visited_before = visited@;
            let mut k: usize = 0;
            while k < clen
                invariant
                    self.inv_core(),
                    s0.inv(),
                    self.analysis_frame(&s0),
                    n == s0.num_vars,
                    1 <= var <= n,
                    1 <= v <= n,
                    s0.values@[v as int] != 0,
                    s0.ant(v as int) == cr,
                    cr != CREF_UNDEF,
                    s0.reason_ok(v as int),
                    self.arena.valid(cr),
                    clen == s0.clits(cr).len(),
                    self.clits(cr) == s0.clits(cr),
                    clause_in_range(s0.clits(cr), n),
                    k <= clen,
                    in_clause@.len() == n + 1,
                    in_clause@[var as int],
                    stack@.len() + visited_before.len() == stack0.len() - 1 + visited@.len(),
                    forall|u: int|
                        0 <= u < in_clause@.len() && #[trigger] in_clause@[u] ==> exists|i: int|
                            0 <= i < lorig.len() && var_of(lorig[i] as int) == u,
                    forall|kk: int|
                        0 <= kk < lorig.len() ==> in_range(#[trigger] lorig[kk] as int, n) && s0.lv(
                            lorig[kk] as int,
                        ) == -1,
                    visited@.no_duplicates(),
                    forall|i: int|
                        0 <= i < visited@.len() ==> 1 <= #[trigger] visited@[i] <= n && s0.values@[visited@[i] as int]
                            != 0 && visited@[i] != var,
                    visited_before.len() <= visited@.len(),
                    visited@.subrange(0, visited_before.len() as int) == visited_before,
                    forall|i: int|
                        0 <= i < stack@.len() ==> #[trigger] vset(visited@, var).contains(stack@[i] as int),
                    forall|i: int|
                        visited_before.len() <= i < visited@.len() ==> exists|j: int|
                            0 <= j < stack@.len() && stack@[j] == #[trigger] visited@[i],
                    forall|w: int|
                        #[trigger] vset(visited_before, var).contains(w) && w != v ==> done.contains(w) || exists|i: int|
                            0 <= i < stack@.len() && stack@[i] == w,
                    forall|w: int| #[trigger]
                        done.contains(w) ==> vset(visited_before, var).contains(w) && s0.certified(
                            w,
                            lorig,
                            vset(visited_before, var),
                            Set::empty(),
                        ),
                    forall|m: int|
                        0 <= m < k ==> #[trigger] s0.clits(cr)[m] == s0.tlit(v as int) || s0.covered(
                            s0.clits(cr)[m],
                            lorig,
                            vset(visited@, var),
                            Set::empty(),
                        ),
                decreases clen - k,
            {
                let lit = self.arena.lit(cr, k);
                proof {
                    assert(self.clits(cr)[k as int] == lit);
                    assert(in_range(lit as int, n));
                }
                let u: usize = if lit < 0 { (-lit) as usize } else { lit as usize };
                let ghost z = lit as int;
                proof {
                    if z != s0.tlit(v as int) {
                        assert(s0.lv(z) == -1);
                        assert(s0.values@[u as int] != 0);
                    }
                }
                if u == v {
                    proof {
                        if z != s0.tlit(v as int) {
                            assert(s0.tpos@[var_of(z)] < s0.tpos@[v as int]);
                        }
                    }
                    k = k + 1;
                    continue;
                }
                if in_clause[u] {
                    proof {
                        let i = choose|i: int| 0 <= i < lorig.len() && var_of(lorig[i] as int) == u;
                        assert(s0.lv(lorig[i] as int) == -1);
                        assert(lorig[i] as int == z);
                        assert(ints(lorig)[i] == z);
                    }
                    k = k + 1;
                    continue;
                }
                let dl = self.assignments[u].decision_level;
                if dl <= 0 {
                    k = k + 1;
                    continue;
                }
                if usize_vec_contains(&visited, u) {
                    proof {
                        assert(vset(visited@, var).contains(u as int));
                    }
                    k = k + 1;
                    continue;
                }
                if self.assignments[u].antecedent == CREF_UNDEF {
                    return (false, Ghost(Set::empty()));
                }
                let ghost vis0 = visited@;
                let ghost st0 = stack@;
                visited.push(u);
                stack.push(u);
                proof {
                    assert(vset(visited@, var).contains(u as int)) by {
                        assert(visited@[visited@.len() - 1] == u);
                    }
                    assert forall|w: int| #[trigger] vset(vis0, var).contains(w) implies vset(
                        visited@,
                        var,
                    ).contains(w) by {
                        if w != var {
                            let i = choose|i: int| 0 <= i < vis0.len() && vis0[i] == w;
                            assert(visited@[i] == vis0[i]);
                        }
                    }
                    assert(visited@.subrange(0, visited_before.len() as int) =~= visited_before) by {
                        assert(vis0.subrange(0, visited_before.len() as int) == visited_before);
                    }
                    assert forall|i: int|
                        visited_before.len() <= i < visited@.len() implies exists|j: int|
                            0 <= j < stack@.len() && stack@[j] == #[trigger] visited@[i] by {
                        if i == visited@.len() - 1 {
                            assert(stack@[stack@.len() - 1] == visited@[i]);
                        } else {
                            assert(visited@[i] == vis0[i]);
                            let j = choose|j: int| 0 <= j < st0.len() && st0[j] == vis0[i];
                            assert(stack@[j] == st0[j]);
                            assert(stack@[j] == visited@[i]);
                        }
                    }
                    assert forall|w: int| #[trigger] vset(visited_before, var).contains(w) && w != v implies done.contains(w) || exists|i: int|
                            0 <= i < stack@.len() && stack@[i] == w by {
                        if !done.contains(w) {
                            let i = choose|i: int| 0 <= i < st0.len() && st0[i] == w;
                            assert(stack@[i] == st0[i]);
                        }
                    }
                    assert forall|i: int| 0 <= i < stack@.len() implies #[trigger] vset(visited@, var).contains(stack@[i] as int) by {
                        if i < stack@.len() - 1 {
                            assert(vset(vis0, var).contains(stack@[i] as int));
                        }
                    }
                }
                k = k + 1;
            }
            proof {
                let vs = vset(visited@, var);
                let vb = vset(visited_before, var);
                assert forall|w: int| #[trigger] vb.contains(w) implies vs.contains(w) by {
                    if w != var {
                        let i = choose|i: int| 0 <= i < visited_before.len() && visited_before[i] == w;
                        assert(visited@[i] == visited_before[i]);
                    }
                }
                assert forall|w: int| #[trigger] done.insert(v as int).contains(w) implies vs.contains(w) && s0.certified(
                    w,
                    lorig,
                    vs,
                    Set::empty(),
                ) by {
                    if w != v {
                        assert(s0.certified(w, lorig, vb, Set::empty()));
                        let c = s0.clits(s0.ant(w));
                        assert forall|m: int| 0 <= m < c.len() implies #[trigger] c[m] == s0.tlit(w) || s0.covered(
                            c[m],
                            lorig,
                            vs,
                            Set::empty(),
                        ) by {
                            if c[m] != s0.tlit(w) {
                                assert(s0.covered(c[m], lorig, vb, Set::empty()));
                            }
                        }
                    } else {
                        assert(vb.contains(v as int));
                    }
                }
                assert forall|w: int| #[trigger] vs.contains(w) implies done.insert(v as int).contains(w) || exists|i: int|
                    0 <= i < stack@.len() && stack@[i] == w by {
                    if w != var && w != v {
                        let i = choose|i: int| 0 <= i < visited@.len() && visited@[i] == w;
                        if i >= visited_before.len() {
                            let j = choose|j: int| 0 <= j < stack@.len() && stack@[j] == visited@[i];
                        } else {
                            assert(visited_before[i] == w);
                            assert(vb.contains(w));
                        }
                    } else if w == var && w != v {
                        assert(vb.contains(w));
                    }
                }
                done = done.insert(v as int);
                lemma_distinct_vars_len(visited@, n);
            }
        }
        proof {
            let vs = vset(visited@, var);
            assert forall|w: int| #[trigger] vs.contains(w) implies s0.certified(w, lorig, vs, Set::empty()) by {
                assert(done.contains(w));
            }
            assert(vs.contains(var as int));
        }
        (true, Ghost(vset(visited@, var)))
    }
}

impl CDCLSolver {
    proof fn lemma_certified_mono(&self, w: int, l: Seq<i32>, d1: Set<int>, d2: Set<int>)
        requires
            d1.subset_of(d2),
            self.certified(w, l, d1, Set::empty()),
        ensures
            self.certified(w, l, d2, Set::empty()),
    {
        let c = self.clits(self.ant(w));
        assert forall|k: int| 0 <= k < c.len() implies #[trigger] c[k] == self.tlit(w) || self.covered(
            c[k],
            l,
            d2,
            Set::empty(),
        ) by {
            if c[k] != self.tlit(w) {
                assert(self.covered(c[k], l, d1, Set::empty()));
            }
        }
    }

    /// Dropping literals whose variables are certified keeps the clause
    /// entailed.
    proof fn lemma_minimize_sound(&self, lorig: Seq<i32>, kept: Seq<i32>, g: Set<int>)
        requires
            self.inv(),
            entails(self.formula(), ints(lorig)),
            forall|w: int| #[trigger] g.contains(w) ==> self.certified(w, lorig, g, Set::empty()),
            forall|j: int|
                0 <= j < lorig.len() ==> ints(kept).contains(#[trigger] lorig[j] as int) || g.contains(
                    var_of(lorig[j] as int),
                ),
            forall|j: int|
                0 <= j < lorig.len() ==> in_range(#[trigger] lorig[j] as int, self.num_vars as int)
                    && self.lv(lorig[j] as int) == -1,
        ensures
            entails(self.formula(), ints(kept)),
    {
        let n = self.num_vars as int;
        assert forall|w: int| #[trigger] g.contains(w) implies self.certified(w, kept, g, Set::empty()) by {
            assert(self.certified(w, lorig, g, Set::empty()));
            let c = self.clits(self.ant(w));
            assert forall|k: int| 0 <= k < c.len() implies #[trigger] c[k] == self.tlit(w) || self.covered(
                c[k],
                kept,
                g,
                Set::empty(),
            ) by {
                if c[k] != self.tlit(w) {
                    assert(self.covered(c[k], lorig, g, Set::empty()));
                    if ints(lorig).contains(c[k]) {
                        let j = choose|j: int| 0 <= j < ints(lorig).len() && ints(lorig)[j] == c[k];
                        assert(lorig[j] as int == c[k]);
                    }
                }
            }
        }
        assert forall|a: spec_fn(int) -> bool| #[trigger] formula_sat(a, self.formula()) implies clause_sat(
            a,
            ints(kept),
        ) by {
            if !clause_sat(a, ints(kept)) {
                assert forall|k: int| 0 <= k < kept.len() implies !lit_true(a, #[trigger] kept[k] as int) by {
                    assert(ints(kept)[k] == kept[k] as int);
                }
                assert(clause_sat(a, ints(lorig)));
                let j = choose|j: int| 0 <= j < ints(lorig).len() && #[trigger] lit_true(a, ints(lorig)[j]);
                let z = lorig[j] as int;
                assert(ints(lorig)[j] == z);
                if ints(kept).contains(z) {
                    let i = choose|i: int| 0 <= i < ints(kept).len() && ints(kept)[i] == z;
                    assert(!lit_true(a, kept[i] as int));
                } else {
                    let w = var_of(z);
                    assert(g.contains(w));
                    self.lemma_cert_at(kept, g, a, w);
                    assert(in_range(z, n));
                    assert(self.values@[w] != 0);
                    assert(self.tlit(w) == -z);
                }
            }
        }
    }

    /// Removes from the learned clause (except its first literal) the
    /// literals that are implied by the others.  Returns the variables
    /// certified by the removals.
    fn minimize_clause(&self, learned: &mut Vec<i32>, Ghost(s0): Ghost<CDCLSolver>) -> (g: Ghost<
        Set<int>,
    >)
        requires
            self.inv_core(),
            s0.inv(),
            self.analysis_frame(&s0),
            old(learned)@.len() >= 1,
            forall|k: int|
                0 <= k < old(learned)@.len() ==> in_range(
                    #[trigger] old(learned)@[k] as int,
                    s0.num_vars as int,
                ) && s0.lv(old(learned)@[k] as int) == -1,
        ensures
            1 <= final(learned)@.len() <= old(learned)@.len(),
            final(learned)@[0] == old(learned)@[0],
            forall|k: int|
                0 <= k < final(learned)@.len() ==> ints(old(learned)@).contains(
                    #[trigger] final(learned)@[k] as int,
                ),
            forall|w: int| #[trigger]
                g@.contains(w) ==> s0.certified(w, old(learned)@, g@, Set::empty()),
            forall|j: int|
                0 <= j < old(learned)@.len() ==> ints(final(learned)@).contains(
                    #[trigger] old(learned)@[j] as int,
                ) || g@.contains(var_of(old(learned)@[j] as int)),
    {
        let ghost lorig = learned@;
        let ghost n = s0.num_vars as int;
        if learned.len() <= 1 {
            proof {
                assert forall|j: int| 0 <= j < lorig.len() implies ints(learned@).contains(
                    #[trigger] lorig[j] as int,
                ) by {
                    assert(ints(learned@)[j] == lorig[j] as int);
                }
                assert forall|k: int| 0 <= k < learned@.len() implies ints(lorig).contains(
                    #[trigger] learned@[k] as int,
                ) by {
                    assert(ints(lorig)[k] == learned@[k] as int);
                }
            }
            return Ghost(Set::empty());
        }
        let nv = self.num_vars as usize;
        let mut in_clause = vec_of(nv + 1, false);
        let len = learned.len();
        let mut i: usize = 0;
        while i < len
            invariant
                i <= len,
                len == lorig.len(),
                learned@ == lorig,
                nv == n,
                0 <= n < 0x3fff_ffff,
                in_clause@.len() == n + 1,
                forall|k: int|
                    0 <= k < lorig.len() ==> in_range(#[trigger] lorig[k] as int, n),
                forall|u: int|
                    0 <= u < in_clause@.len() && #[trigger] in_clause@[u] ==> exists|k: int|
                        0 <= k < lorig.len() && var_of(lorig[k] as int) == u,
                forall|k: int| 0 <= k < i ==> in_clause@[var_of(#[trigger] lorig[k] as int)],
            decreases len - i,
        {
            let lit = learned[i];
            proof {
                assert(in_range(lorig[i as int] as int, n));
            }
            let var: usize = if lit < 0 { (-lit) as usize } else { lit as usize };
            in_clause.set(var, true);
            i = i + 1;
        }
        let mut j: usize = 1;
        let ghost mut g: Set<int> = Set::empty();
        let mut i: usize = 1;
        proof {
            assert(ints(lorig)[0] == lorig[0] as int);
        }
        while i < len
            invariant
                self.inv_core(),
                s0.inv(),
                self.analysis_frame(&s0),
                1 <= j <= i <= len,
                len == lorig.len(),
                learned@.len() == len,
                nv == n,
                n == s0.num_vars,
                learned@[0] == lorig[0],
                forall|k: int| i <= k < len ==> #[trigger] learned@[k] == lorig[k],
                forall|k: int|
                    0 <= k < lorig.len() ==> in_range(#[trigger] lorig[k] as int, n) && s0.lv(
                        lorig[k] as int,
                    ) == -1,
                in_clause@.len() == n + 1,
                forall|u: int|
                    0 <= u < in_clause@.len() && #[trigger] in_clause@[u] ==> exists|k: int|
                        0 <= k < lorig.len() && var_of(lorig[k] as int) == u,
                forall|k: int|
                    i <= k < len ==> in_clause@[var_of(#[trigger] lorig[k] as int)] || g.contains(
                        var_of(lorig[k] as int),
                    ),
                forall|k: int| 0 <= k < j ==> ints(lorig).contains(#[trigger] learned@[k] as int),
                forall|k: int|
                    0 <= k < i ==> (exists|m: int| 0 <= m < j && learned@[m] == #[trigger] lorig[k])
                        || g.contains(var_of(lorig[k] as int)),
                forall|w: int| #[trigger] g.contains(w) ==> s0.certified(w, lorig, g, Set::empty()),
            decreases len - i,
        {
            let lit = learned[i];
            proof {
                assert(learned@[i as int] == lorig[i as int]);
                assert(in_range(lorig[i as int] as int, n));
            }
            let var: usize = if lit < 0 { (-lit) as usize } else { lit as usize };
            let keep: bool;
            if !in_clause[var] {
                keep = false;
                proof {
                    assert(g.contains(var as int));
                }
            } else {
                proof {
                    assert(s0.values@[var as int] != 0);
                }
                let (red, Ghost(gi)) = self.lit_redundant(var, &in_clause, Ghost(s0), Ghost(lorig));
                if red {
                    in_clause.set(var, false);
                    proof {
                        let g2 = g.union(gi);
                        assert forall|w: int| #[trigger] g2.contains(w) implies s0.certified(
                            w,
                            lorig,
                            g2,
                            Set::empty(),
                        ) by {
                            if g.contains(w) {
                                s0.lemma_certified_mono(w, lorig, g, g2);
                            } else {
                                s0.lemma_certified_mono(w, lorig, gi, g2);
                            }
                        }
                        g = g2;
                    }
                    keep = false;
                } else {
                    keep = true;
                }
            }
            if keep {
                let ghost l0 = learned@;
                learned.set(j, lit);
                proof {
                    assert(ints(lorig)[i as int] == lit as int);
                    assert forall|k: int| 0 <= k < i + 1 implies (exists|m: int| 0 <= m < j + 1 && learned@[m] == #[trigger] lorig[k])
                        || g.contains(var_of(lorig[k] as int)) by {
                        if k == i {
                            assert(learned@[j as int] == lorig[k]);
                        } else if !g.contains(var_of(lorig[k] as int)) {
                            let m = choose|m: int| 0 <= m < j && l0[m] == lorig[k];
                            assert(learned@[m] == l0[m]);
                        }
                    }
                }
                j = j + 1;
            }
            i = i + 1;
        }
        let ghost lpre = learned@;
        learned.truncate(j);
        proof {
            assert forall|k: int| 0 <= k < lorig.len() implies ints(learned@).contains(
                #[trigger] lorig[k] as int,
            ) || g.contains(var_of(lorig[k] as int)) by {
                if !g.contains(var_of(lorig[k] as int)) {
                    let m = choose|m: int| 0 <= m < j && lpre[m] == lorig[k];
                    assert(learned@[m] == lpre[m]);
                    assert(ints(learned@)[m] == lorig[k] as int);
                }
            }
            assert forall|k: int| 0 <= k < learned@.len() implies ints(lorig).contains(
                #[trigger] learned@[k] as int,
            ) by {
                assert(learned@[k] == lpre[k]);
            }
        }
        Ghost(g)
    }
}

/// Every literal of `a` occurs in `b`.
pub open spec fn lits_within(a: Seq<i32>, b: Seq<i32>) -> bool {
    forall|x: int| ints(a).contains(x) ==> ints(b).contains(x)
}

impl CDCLSolver {
    /// Coverage survives growing the learned clause and the resolved set,
    /// and moving pending variables to the resolved set or the clause.
    proof fn lemma_covered_lift(
        &self,
        z: int,
        l1: Seq<i32>,
        d1: Set<int>,
        p1: Set<int>,
        l2: Seq<i32>,
        d2: Set<int>,
        p2: Set<int>,
    )
        requires
            self.inv(),
            in_range(z, self.num_vars as int),
            self.covered(z, l1, d1, p1),
            lits_within(l1, l2),
            d1.subset_of(d2),
            forall|v: int| #[trigger]
                p1.contains(v) ==> p2.contains(v) || d2.contains(v) || ints(l2).contains(
                    -self.tlit(v),
                ),
        ensures
            self.covered(z, l2, d2, p2),
    {
        let w = var_of(z);
        assert(self.values@[w] != 0);
        assert(self.tlit(w) == -z);
        if ints(l1).contains(z) {
            assert(ints(l2).contains(z));
        }
    }

    proof fn lemma_certified_lift(
        &self,
        u: int,
        l1: Seq<i32>,
        d1: Set<int>,
        p1: Set<int>,
        l2: Seq<i32>,
        d2: Set<int>,
        p2: Set<int>,
    )
        requires
            self.inv(),
            self.certified(u, l1, d1, p1),
            lits_within(l1, l2),
            d1.subset_of(d2),
            forall|v: int| #[trigger]
                p1.contains(v) ==> p2.contains(v) || d2.contains(v) || ints(l2).contains(
                    -self.tlit(v),
                ),
        ensures
            self.certified(u, l2, d2, p2),
    {
        let c = self.clits(self.ant(u));
        assert(self.reason_ok(u));
        assert(clause_in_range(c, self.num_vars as int));
        assert forall|k: int| 0 <= k < c.len() implies #[trigger] c[k] == self.tlit(u) || self.covered(
            c[k],
            l2,
            d2,
            p2,
        ) by {
            if c[k] != self.tlit(u) {
                self.lemma_covered_lift(c[k], l1, d1, p1, l2, d2, p2);
            }
        }
    }

    /// First-UIP conflict analysis.  Resolves the conflicting clause with
    /// antecedents of current-level variables, latest first, until one
    /// current-level literal remains; minimizes the result.  Returns the
    /// learned clause (asserting literal first, a literal of the backtrack
    /// level second) and the backtrack level.
    #[verifier::rlimit(40)]
    fn analyze_conflict(&mut self, conflict_clause: CRef) -> (r: Result<(Vec<i32>, i32), SolverError>)
        requires
            old(self).inv(),
            old(self).arena.valid(conflict_clause),
            forall|k: int|
                0 <= k < old(self).clits(conflict_clause).len() ==> old(self).lv(
                    #[trigger] old(self).clits(conflict_clause)[k],
                ) == -1,
            old(self).decision_level > 0,
        ensures
            final(self).inv(),
            final(self).analysis_frame(&*old(self)),
            match r {
                Ok((l, bt)) => {
                    &&& entails(final(self).formula(), ints(l@))
                    &&& l@.len() >= 1
                    &&& forall|k: int| 0 <= k < l@.len() ==> in_range(#[trigger] l@[k] as int, final(self).nvars())
                    &&& 0 <= bt
                },
                Err(_) => true,
            },
    {
        let ghost s0 = *self;
        let ghost n = self.num_vars as int;
        let mut touched: Vec<usize> = Vec::new();
        let mut counter: usize = 0;
        let mut learned: Vec<i32> = Vec::new();
        proof {
            assert(self.analysis_frame(&s0)) by {
                assert(self.arena.clauses().dom() =~= s0.arena.clauses().dom());
            }
            assert(Set::<int>::empty().len() == 0);
        }
        let r0 = self.scan_clause(
            conflict_clause,
            0,
            &mut learned,
            &mut touched,
            &mut counter,
            Ghost(s0),
            Ghost(Set::empty()),
        );
        let ghost mut pending: Set<int> = Set::empty();
        match r0 {
            Err(e) => {
                self.clear_seen(&touched);
                proof {
                    lemma_analysis_frame_trans(&s0, &s0, self);
                }
                return Err(e);
            },
            Ok(g) => {
                proof {
                    pending = g@;
                }
            },
        }
        let ghost mut d: Set<int> = Set::empty();
        proof {
            assert forall|k: int| 0 <= k < s0.clits(conflict_clause).len() implies s0.covered(
                #[trigger] s0.clits(conflict_clause)[k],
                learned@,
                d,
                pending,
            ) by {
                assert(s0.clits(conflict_clause)[k] != 0) by {
                    assert(clause_in_range(s0.clits(conflict_clause), n));
                }
            }
        }
        let mut trail_idx: usize = self.trail.len();
        loop
            invariant
                self.an_inv(s0, learned@, touched@, counter, pending),
                s0 == *old(self),
                n == s0.num_vars,
                trail_idx <= self.trail@.len(),
                s0.arena.valid(conflict_clause),
                forall|u: int| #[trigger] d.contains(u) ==> s0.certified(u, learned@, d, pending),
                forall|k: int|
                    0 <= k < s0.clits(conflict_clause).len() ==> s0.covered(
                        #[trigger] s0.clits(conflict_clause)[k],
                        learned@,
                        d,
                        pending,
                    ),
            decreases trail_idx,
        {
            let ghost start_idx = trail_idx;
            let mut found = false;
            let mut lit: i32 = 0;
            let mut var: usize = 0;
            while !found
                invariant
                    self.an_inv(s0, learned@, touched@, counter, pending),
                    s0 == *old(self),
                    n == s0.num_vars,
                    trail_idx <= self.trail@.len(),
                    trail_idx + (if found { 1int } else { 0int }) <= start_idx,
                    found ==> trail_idx < self.trail@.len() && lit == self.trail@[trail_idx as int]
                        && var == var_of(lit as int) && 1 <= var <= n && self.seen@[var as int],
                decreases trail_idx + (if found { 0int } else { 1int }),
            {
                if trail_idx == 0 {
                    let ghost pre = *self;
                    self.clear_seen(&touched);
                    proof {
                        lemma_analysis_frame_trans(&s0, &pre, self);
                    }
                    return Err(SolverError::InternalError("Trail exhausted during conflict analysis".to_string()));
                }
                trail_idx = trail_idx - 1;
                lit = self.trail[trail_idx];
                proof {
                    assert(in_range(lit as int, n));
                }
                var = if lit < 0 { (-lit) as usize } else { lit as usize };
                if self.seen[var] {
                    found = true;
                }
            }
            proof {
                assert(self.trail@ == s0.trail@);
                assert(s0.lv(lit as int) == 1);
                assert(s0.values@[var as int] != 0);
                assert(s0.tlit(var as int) == lit);
            }
            if self.assignments[var].decision_level != self.decision_level {
                let ghost pre = *self;
                self.clear_seen(&touched);
                proof {
                    lemma_analysis_frame_trans(&s0, &pre, self);
                }
                return Err(
                    SolverError::InternalError("Marked variable below the conflict level".to_string()),
                );
            }
            let ghost pend_before = pending;
            let ghost seen_before = self.seen@;
            self.seen.set(var, false);
            proof {
                assert(pending.contains(var as int));
                pending = pending.remove(var as int);
                assert(pending.len() == pend_before.len() - 1);
            }
            counter = counter - 1;
            proof {
                assert forall|w: int| 0 <= w < self.seen@.len() && #[trigger] self.seen@[w] implies 1 <= w <= n
                    && s0.values@[w] != 0 && touched@.contains(w as usize) && (s0.level(w)
                    == s0.decision_level ==> pending.contains(w)) && (s0.level(w) != s0.decision_level
                    && s0.level(w) > 0 ==> ints(learned@).contains(-s0.tlit(w))) by {
                    assert(seen_before[w]);
                }
                assert(self.an_inv(s0, learned@, touched@, counter, pending));
            }
            if counter == 0 {
                let ghost l0 = learned@;
                learned.push(-lit);
                let last = learned.len() - 1;
                let first = learned[0];
                let uip = learned[last];
                learned.set(0, uip);
                learned.set(last, first);
                proof {
                    assert(pending =~= Set::<int>::empty()) by {
                        if exists|w: int| pending.contains(w) {
                            let w = choose|w: int| pending.contains(w);
                            assert(pending.len() > 0) by {
                                vstd::set_lib::lemma_set_empty_equivalency_len(pending);
                            }
                        }
                    }
                    let l1 = learned@;
                    assert(lits_within(l0, l1)) by {
                        assert forall|x: int| ints(l0).contains(x) implies ints(l1).contains(x) by {
                            let i = choose|i: int| 0 <= i < ints(l0).len() && ints(l0)[i] == x;
                            if i == 0 {
                                assert(ints(l1)[last as int] == x);
                            } else {
                                assert(ints(l1)[i] == x);
                            }
                        }
                    }
                    assert(ints(l1).contains(-s0.tlit(var as int))) by {
                        assert(ints(l1)[0] == -lit);
                    }
                    assert forall|v: int| #[trigger] pend_before.contains(v) implies Set::<int>::empty().contains(v) || d.contains(v)
                        || ints(l1).contains(-s0.tlit(v)) by {
                        if v != var {
                            assert(pending.contains(v));
                        }
                    }
                    assert forall|u: int| #[trigger] d.contains(u) implies s0.certified(u, l1, d, Set::empty()) by {
                        s0.lemma_certified_lift(u, l0, d, pend_before, l1, d, Set::empty());
                    }
                    let cc = s0.clits(conflict_clause);
                    assert forall|k: int| 0 <= k < cc.len() implies s0.covered(#[trigger] cc[k], l1, d, Set::empty()) by {
                        assert(clause_in_range(cc, n));
                        s0.lemma_covered_lift(cc[k], l0, d, pend_before, l1, d, Set::empty());
                    }
                    assert forall|k: int| 0 <= k < cc.len() implies in_range(#[trigger] cc[k], n) by {
                        assert(clause_in_range(cc, n));
                    }
                    assert(entails(s0.formula(), cc));
                    s0.lemma_cert_entails(l1, d, cc);
                    assert forall|k: int| 0 <= k < l1.len() implies in_range(#[trigger] l1[k] as int, n)
                        && s0.lv(l1[k] as int) == -1 by {
                        if k == 0 {
                        } else if k == last {
                            assert(l1[k] == l0[0]);
                        } else {
                            assert(l1[k] == l0[k]);
                        }
                    }
                }
                let ghost lmin0 = learned@;
                let Ghost(gmin) = self.minimize_clause(&mut learned, Ghost(s0));
                proof {
                    assert forall|j: int| 0 <= j < lmin0.len() implies ints(learned@).contains(
                        #[trigger] lmin0[j] as int,
                    ) || gmin.contains(var_of(lmin0[j] as int)) by {
                        assert(ints(learned@).contains(lmin0[j] as int) || gmin.contains(var_of(lmin0[j] as int)));
                    }
                    s0.lemma_minimize_sound(lmin0, learned@, gmin);
                    assert forall|k: int| 0 <= k < learned@.len() implies in_range(#[trigger] learned@[k] as int, n)
                        && s0.lv(learned@[k] as int) == -1 by {
                        assert(ints(lmin0).contains(learned@[k] as int));
                        let j = choose|j: int| 0 <= j < ints(lmin0).len() && ints(lmin0)[j] == learned@[k] as int;
                        assert(lmin0[j] == learned@[k]);
                    }
                }
                let mut bt_level: i32 = 0;
                if learned.len() > 1 {
                    let mut max_idx: usize = 1;
                    let mut i: usize = 2;
                    while i < learned.len()
                        invariant
                            self.an_inv(s0, l0, touched@, counter, pending),
                            n == s0.num_vars,
                            2 <= i <= learned@.len(),
                            1 <= max_idx < learned@.len(),
                            forall|k: int|
                                0 <= k < learned@.len() ==> in_range(#[trigger] learned@[k] as int, n),
                        decreases learned@.len() - i,
                    {
                        let li = learned[i];
                        let lm = learned[max_idx];
                        proof {
                            assert(in_range(li as int, n));
                            assert(in_range(lm as int, n));
                        }
                        let vi: usize = if li < 0 { (-li) as usize } else { li as usize };
                        let vm: usize = if lm < 0 { (-lm) as usize } else { lm as usize };
                        if self.assignments[vi].decision_level > self.assignments[vm].decision_level {
                            max_idx = i;
                        }
                        i = i + 1;
                    }
                    let ghost lsw = learned@;
                    let a1 = learned[1];
                    let am = learned[max_idx];
                    learned.set(1, am);
                    learned.set(max_idx, a1);
                    proof {
                        assert(lits_within(lsw, learned@)) by {
                            assert forall|x: int| ints(lsw).contains(x) implies ints(learned@).contains(x) by {
                                let i = choose|i: int| 0 <= i < ints(lsw).len() && ints(lsw)[i] == x;
                                if i == 1 {
                                    assert(ints(learned@)[max_idx as int] == x);
                                } else if i == max_idx {
                                    assert(ints(learned@)[1] == x);
                                } else {
                                    assert(ints(learned@)[i] == x);
                                }
                            }
                        }
                        assert(entails(s0.formula(), ints(learned@))) by {
                            assert forall|a: spec_fn(int) -> bool| #[trigger] formula_sat(a, s0.formula()) implies clause_sat(
                                a,
                                ints(learned@),
                            ) by {
                                assert(clause_sat(a, ints(lsw)));
                                let k = choose|k: int| 0 <= k < ints(lsw).len() && #[trigger] lit_true(a, ints(lsw)[k]);
                                assert(ints(lsw).contains(ints(lsw)[k]));
                                let j = choose|j: int| 0 <= j < ints(learned@).len() && ints(learned@)[j] == ints(lsw)[k];
                                assert(lit_true(a, ints(learned@)[j]));
                            }
                        }
                        assert forall|k: int| 0 <= k < learned@.len() implies in_range(#[trigger] learned@[k] as int, n) by {
                            if k == 1 {
                                assert(learned@[k] == lsw[max_idx as int]);
                            } else if k == max_idx {
                                assert(learned@[k] == lsw[1]);
                            } else {
                                assert(learned@[k] == lsw[k]);
                            }
                        }
                    }
                    let l1v = learned[1];
                    let v1: usize = if l1v < 0 { (-l1v) as usize } else { l1v as usize };
                    let lvl = self.assignments[v1].decision_level;
                    bt_level = if lvl > 0 { lvl } else { 0 };
                }
                let mut i: usize = 0;
                while i < learned.len()
                    invariant
                        self.an_inv(s0, l0, touched@, counter, pending),
                        n == s0.num_vars,
                        i <= learned@.len(),
                        forall|k: int|
                            0 <= k < learned@.len() ==> in_range(#[trigger] learned@[k] as int, n),
                    decreases learned@.len() - i,
                {
                    let li = learned[i];
                    proof {
                        assert(in_range(li as int, n));
                    }
                    let vi: usize = if li < 0 { (-li) as usize } else { li as usize };
                    let ghost pre = *self;
                    self.bump_activity(vi);
                    proof {
                        lemma_analysis_frame_trans(&s0, &pre, self);
                    }
                    i = i + 1;
                }
                let ghost pre = *self;
                self.clear_seen(&touched);
                proof {
                    lemma_analysis_frame_trans(&s0, &pre, self);
                }
                return Ok((learned, bt_level));
            }
            let a = self.assignments[var];
            if a.antecedent == CREF_UNDEF {
                let ghost pre = *self;
                self.clear_seen(&touched);
                proof {
                    lemma_analysis_frame_trans(&s0, &pre, self);
                }
                return Err(
                    SolverError::InvalidConflictAnalysis {
                        variable: var as i32,
                        message: "Decision variable encountered during conflict analysis with counter > 0".to_string(),
                    },
                );
            }
            let ghost l0 = learned@;
            let ghost p0 = pending;
            proof {
                assert(s0.ant(var as int) == a.antecedent);
                assert(s0.reason_ok(var as int));
            }
            let r1 = self.scan_clause(
                a.antecedent,
                lit,
                &mut learned,
                &mut touched,
                &mut counter,
                Ghost(s0),
                Ghost(pending),
            );
            match r1 {
                Err(e) => {
                    let ghost pre = *self;
                    self.clear_seen(&touched);
                    proof {
                        lemma_analysis_frame_trans(&s0, &pre, self);
                    }
                    return Err(e);
                },
                Ok(g) => {
                    proof {
                        let l1 = learned@;
                        let d1 = d.insert(var as int);
                        assert(lits_within(l0, l1)) by {
                            assert forall|x: int| ints(l0).contains(x) implies ints(l1).contains(x) by {
                                let i = choose|i: int| 0 <= i < ints(l0).len() && ints(l0)[i] == x;
                                assert(l1[i] == l0[i]);
                                assert(ints(l1)[i] == x);
                            }
                        }
                        assert forall|v: int| #[trigger] pend_before.contains(v) implies g@.contains(v) || d1.contains(v)
                            || ints(l1).contains(-s0.tlit(v)) by {
                            if v != var {
                                assert(p0.contains(v));
                            }
                        }
                        assert forall|u: int| #[trigger] d1.contains(u) implies s0.certified(u, l1, d1, g@) by {
                            if u != var {
                                s0.lemma_certified_lift(u, l0, d, pend_before, l1, d1, g@);
                            } else {
                                let c = s0.clits(s0.ant(u));
                                assert forall|k: int| 0 <= k < c.len() implies #[trigger] c[k] == s0.tlit(u) || s0.covered(
                                    c[k],
                                    l1,
                                    d1,
                                    g@,
                                ) by {
                                    if c[k] != s0.tlit(u) {
                                        assert(s0.covered(c[k], l1, Set::empty(), g@));
                                    }
                                }
                            }
                        }
                        let cc = s0.clits(conflict_clause);
                        assert forall|k: int| 0 <= k < cc.len() implies s0.covered(#[trigger] cc[k], l1, d1, g@) by {
                            assert(clause_in_range(cc, n));
                            s0.lemma_covered_lift(cc[k], l0, d, pend_before, l1, d1, g@);
                        }
                        d = d1;
                        pending = g@;
                    }
                },
            }
        }
    }
}

impl CDCLSolver {
    /// A falsified clause at decision level 0 refutes the formula.
    proof fn lemma_level0_conflict(&self, cr: CRef)
        requires
            self.inv(),
            self.decision_level == 0,
            self.arena.valid(cr),
            forall|k: int| 0 <= k < self.clits(cr).len() ==> self.lv(#[trigger] self.clits(cr)[k]) == -1,
        ensures
            !satisfiable(self.formula()),
    {
        let n = self.num_vars as int;
        let c = self.clits(cr);
        assert(entails(self.formula(), c));
        assert(clause_in_range(c, n));
        if satisfiable(self.formula()) {
            let a = choose|a: spec_fn(int) -> bool| #[trigger] formula_sat(a, self.formula());
            assert(clause_sat(a, c));
            let k = choose|k: int| 0 <= k < c.len() && #[trigger] lit_true(a, c[k]);
            let w = var_of(c[k]);
            assert(c[k] != 0 && -n <= c[k] <= n);
            assert(self.lv(c[k]) == -1);
            assert(self.values@[w] != 0);
            assert(self.level(w) == 0);
            assert(self.tlit(w) == -c[k]);
            assert(entails(self.formula(), seq![self.tlit(w)]));
            assert(clause_sat(a, seq![-c[k]]));
            assert(lit_true(a, seq![-c[k]][0]));
        }
    }

    /// Adds the watches (or binary implications) of clause `cr`.
    fn attach_clause(&mut self, cr: CRef)
        requires
            old(self).inv(),
            old(self).arena.valid(cr),
        ensures
            final(self).inv(),
            final(self).arena == old(self).arena,
            final(self).values == old(self).values,
            final(self).assignments == old(self).assignments,
            final(self).trail == old(self).trail,
            final(self).trail_lim == old(self).trail_lim,
            final(self).decision_level == old(self).decision_level,
            final(self).qhead == old(self).qhead,
            final(self).clause_refs == old(self).clause_refs,
            final(self).input == old(self).input,
            final(self).num_vars == old(self).num_vars,
            final(self).seen == old(self).seen,
            final(self).var_heap == old(self).var_heap,
            final(self).tpos == old(self).tpos,
            final(self).first_learned_idx == old(self).first_learned_idx,
            final(self).num_learned_alive == old(self).num_learned_alive,
            final(self).initial_conflict == old(self).initial_conflict,
            final(self).conflicts == old(self).conflicts,
            final(self).activity_inc == old(self).activity_inc,
            final(self).clause_act_inc == old(self).clause_act_inc,
            final(self).watches@.len() == old(self).watches@.len(),
            final(self).bin_implies@.len() == old(self).bin_implies@.len(),
            ({
                let c = old(self).clits(cr);
                &&& forall|i: int| 0 <= i < old(self).bin_implies@.len() ==> #[trigger] final(self).bin_implies@[i]@ == if c.len() == 2 {
                    old(self).bin_implies@[i]@ + (if i == lit_idx(-c[0]) { seq![(c[1] as i32, cr)] } else { Seq::empty() }) + (
                    if i == lit_idx(-c[1]) { seq![(c[0] as i32, cr)] } else { Seq::empty() })
                } else {
                    old(self).bin_implies@[i]@
                }
                &&& forall|i: int| 0 <= i < old(self).watches@.len() ==> #[trigger] final(self).watches@[i]@ == if c.len() > 2 {
                    old(self).watches@[i]@ + (if i == lit_idx(c[0]) { seq![Watcher { cref: cr, blocker: c[1] as i32 }] } else {
                        Seq::empty()
                    }) + (if i == lit_idx(c[1]) { seq![Watcher { cref: cr, blocker: c[0] as i32 }] } else { Seq::empty() })
                } else {
                    old(self).watches@[i]@
                }
            }),
    {
        let ghost n = self.num_vars as int;
        let ghost s0 = *self;
        let len = self.arena.len(cr);
        proof {
            assert(clause_in_range(self.clits(cr), n));
        }
        if len == 2 {
            let l0 = self.arena.lit(cr, 0);
            let l1 = self.arena.lit(cr, 1);
            proof {
                assert(self.clits(cr)[0] == l0 && self.clits(cr)[1] == l1);
            }
            let idx_a = Self::lit_to_watch_idx(-l0, self.num_vars);
            let idx_b = Self::lit_to_watch_idx(-l1, self.num_vars);
            self.bin_implies[idx_a].push((l1, cr));
            self.bin_implies[idx_b].push((l0, cr));
            proof {
                assert forall|i: int| 0 <= i < s0.bin_implies@.len() implies #[trigger] self.bin_implies@[i]@ == s0.bin_implies@[i]@
                    + (if i == idx_a { seq![(l1, cr)] } else { Seq::empty() }) + (if i == idx_b {
                    seq![(l0, cr)]
                } else {
                    Seq::empty()
                }) by {
                    if i == idx_a && i == idx_b {
                    } else if i == idx_a {
                        assert(s0.bin_implies@[i]@ + seq![(l1, cr)] + Seq::<(i32, CRef)>::empty() =~= s0.bin_implies@[i]@.push((l1, cr)));
                    } else if i == idx_b {
                        assert(s0.bin_implies@[i]@ + Seq::<(i32, CRef)>::empty() + seq![(l0, cr)] =~= s0.bin_implies@[i]@.push((l0, cr)));
                    } else {
                        assert(s0.bin_implies@[i]@ + Seq::<(i32, CRef)>::empty() + Seq::<(i32, CRef)>::empty() =~= s0.bin_implies@[i]@);
                    }
                }
            }
        } else if len > 2 {
            let l0 = self.arena.lit(cr, 0);
            let l1 = self.arena.lit(cr, 1);
            proof {
                assert(self.clits(cr)[0] == l0 && self.clits(cr)[1] == l1);
            }
            let w1 = Self::lit_to_watch_idx(l0, self.num_vars);
            let w2 = Self::lit_to_watch_idx(l1, self.num_vars);
            self.watches[w1].push(Watcher::long(cr, l1));
            self.watches[w2].push(Watcher::long(cr, l0));
            proof {
                let wa = Watcher { cref: cr, blocker: l1 };
                let wb = Watcher { cref: cr, blocker: l0 };
                assert forall|i: int| 0 <= i < s0.watches@.len() implies #[trigger] self.watches@[i]@ == s0.watches@[i]@ + (
                if i == w1 { seq![wa] } else { Seq::empty() }) + (if i == w2 { seq![wb] } else { Seq::empty() }) by {
                    if i == w1 && i == w2 {
                    } else if i == w1 {
                        assert(s0.watches@[i]@ + seq![wa] + Seq::<Watcher>::empty() =~= s0.watches@[i]@.push(wa));
                    } else if i == w2 {
                        assert(s0.watches@[i]@ + Seq::<Watcher>::empty() + seq![wb] =~= s0.watches@[i]@.push(wb));
                    } else {
                        assert(s0.watches@[i]@ + Seq::<Watcher>::empty() + Seq::<Watcher>::empty() =~= s0.watches@[i]@);
                    }
                }
            }
        } else {
            proof {
                assert forall|i: int| 0 <= i < s0.watches@.len() implies #[trigger] self.watches@[i]@ == s0.watches@[i]@ by {}
                assert forall|i: int| 0 <= i < s0.bin_implies@.len() implies #[trigger] self.bin_implies@[i]@ == s0.bin_implies@[i]@ by {}
            }
        }
    }

    /// Whether the arena has room for a learned clause of `len` literals.
    fn learned_fits(&self, len: usize) -> (b: bool)
        requires
            self.inv(),
        ensures
            b ==> len <= LEN_MASK && self.arena.words() + 3 + len < u32::MAX,
            b == (len <= LEN_MASK && self.arena.words() < 0xFFFF_0000 && len < 0xFFF0),
    {
        len <= LEN_MASK as usize && self.arena.total_words() < 0xFFFF_0000usize && len < 0xFFF0usize
    }

    /// Stores a learned clause, watches it and returns its reference and its
    /// LBD (the number of distinct decision levels among its literals).
    fn add_learned_clause(&mut self, learned: Vec<i32>) -> (r: (CRef, u32))
        requires
            old(self).inv(),
            learned@.len() >= 1,
            learned@.len() <= LEN_MASK,
            old(self).arena.words() + 3 + learned@.len() < u32::MAX,
            entails(old(self).formula(), ints(learned@)),
            forall|k: int| 0 <= k < learned@.len() ==> in_range(#[trigger] learned@[k] as int, old(self).nvars()),
        ensures
            final(self).inv(),
            final(self).arena.valid(r.0),
            final(self).clits(r.0) == ints(learned@),
            final(self).formula() == old(self).formula(),
            final(self).values == old(self).values,
            final(self).assignments == old(self).assignments,
            final(self).trail == old(self).trail,
            final(self).trail_lim == old(self).trail_lim,
            final(self).decision_level == old(self).decision_level,
            final(self).qhead == old(self).qhead,
            final(self).num_vars == old(self).num_vars,
            final(self).input == old(self).input,
            final(self).initial_conflict == old(self).initial_conflict,
            final(self).conflicts == old(self).conflicts,
            final(self).drat_enabled() == old(self).drat_enabled(),
            final(self).drat_text() == if old(self).drat_enabled() && old(self).drat.additions_spec() < u64::MAX {
                old(self).drat_text() + clause_line(learned@)
            } else {
                old(self).drat_text()
            },
    {
        let mut log = DratLogger::disabled();
        std::mem::swap(&mut log, &mut self.drat);
        let logged: Vec<i32> = vstd::slice::slice_to_vec(learned.as_slice());
        let r = self.add_learned_clause_unlogged(learned);
        if log.num_additions() < u64::MAX {
            log.add_clause(logged.as_slice());
        }
        self.drat = log;
        r
    }

    /// Stores a learned clause, watches it and returns its reference and its
    /// LBD (see `add_learned_clause`), without logging it.
    fn add_learned_clause_unlogged(&mut self, learned: Vec<i32>) -> (r: (CRef, u32))
        requires
            old(self).inv(),
            learned@.len() >= 1,
            learned@.len() <= LEN_MASK,
            old(self).arena.words() + 3 + learned@.len() < u32::MAX,
            entails(old(self).formula(), ints(learned@)),
            forall|k: int| 0 <= k < learned@.len() ==> in_range(#[trigger] learned@[k] as int, old(self).nvars()),
        ensures
            final(self).inv(),
            final(self).arena.valid(r.0),
            final(self).clits(r.0) == ints(learned@),
            final(self).formula() == old(self).formula(),
            final(self).values == old(self).values,
            final(self).assignments == old(self).assignments,
            final(self).trail == old(self).trail,
            final(self).trail_lim == old(self).trail_lim,
            final(self).decision_level == old(self).decision_level,
            final(self).qhead == old(self).qhead,
            final(self).num_vars == old(self).num_vars,
            final(self).input == old(self).input,
            final(self).initial_conflict == old(self).initial_conflict,
            final(self).conflicts == old(self).conflicts,
    {
        let ghost s0 = *self;
        let ghost n = self.num_vars as int;
        // LBD, using the marks indexed by level
        let mut lbd: u32 = 0;
        let mut levels_touched: Vec<usize> = Vec::new();
        let mut i: usize = 0;
        while i < learned.len()
            invariant
                self.inv_core(),
                n == self.num_vars,
                i <= learned@.len(),
                lbd <= i,
                learned@.len() <= LEN_MASK,
                forall|k: int| 0 <= k < learned@.len() ==> in_range(#[trigger] learned@[k] as int, n),
                forall|k: int| 0 <= k < levels_touched@.len() ==> (#[trigger] levels_touched@[k]) < self.seen@.len(),
                forall|w: int| 0 <= w < self.seen@.len() && #[trigger] self.seen@[w] ==> levels_touched@.contains(w as usize),
                self.arena == s0.arena,
                self.analysis_frame(&s0),
                self.var_heap == s0.var_heap,
            decreases learned@.len() - i,
        {
            let lit = learned[i];
            proof {
                assert(in_range(lit as int, n));
            }
            let var: usize = if lit < 0 { (-lit) as usize } else { lit as usize };
            let dl = self.assignments[var].decision_level;
            if dl >= 0 {
                let d = dl as usize;
                if d < self.seen.len() && !self.seen[d] {
                    let ghost ps = self.seen@;
                    let ghost lt0 = levels_touched@;
                    self.seen.set(d, true);
                    levels_touched.push(d);
                    lbd = lbd + 1;
                    proof {
                        assert forall|w: int| 0 <= w < self.seen@.len() && #[trigger] self.seen@[w] implies levels_touched@.contains(w as usize) by {
                            if w != d {
                                assert(ps[w]);
                                let j = choose|j: int| 0 <= j < lt0.len() && lt0[j] == w as usize;
                                assert(levels_touched@[j] == lt0[j]);
                            } else {
                                assert(levels_touched@[levels_touched@.len() - 1] == d);
                            }
                        }
                    }
                }
            }
            i = i + 1;
        }
        let ghost pre = *self;
        self.clear_seen(&levels_touched);
        proof {
            lemma_analysis_frame_trans(&s0, &pre, self);
            assert(self.arena == s0.arena);
        }
        let cr = self.arena.alloc_clause(learned.as_slice(), true, lbd);
        self.clause_refs.push(cr);
        proof {
            let f = self.formula();
            assert(self.clits(cr) == ints(learned@));
            assert forall|x: CRef| #[trigger] self.arena.valid(x) implies clause_in_range(self.clits(x), n)
                && entails(f, self.clits(x)) by {
                if x != cr {
                    assert(s0.arena.valid(x));
                    assert(self.clits(x) == s0.clits(x));
                } else {
                    assert forall|k: int| 0 <= k < self.clits(x).len() implies #[trigger] self.clits(x)[k] != 0
                        && -n <= self.clits(x)[k] <= n by {
                        assert(in_range(learned@[k] as int, n));
                    }
                }
            }
            assert forall|j: int| 0 <= j < self.clause_refs@.len() implies self.arena.valid(
                #[trigger] self.clause_refs@[j],
            ) by {
                if j < self.clause_refs@.len() - 1 {
                    assert(s0.arena.valid(s0.clause_refs@[j]));
                }
            }
            assert forall|v: int| 1 <= v <= n && #[trigger] self.values@[v] != 0 && self.ant(v)
                != CREF_UNDEF implies self.reason_ok(v) by {
                assert(s0.reason_ok(v));
                assert(self.clits(self.ant(v)) == s0.clits(self.ant(v)));
            }
            assert(self.inv_watches());
        }
        self.attach_clause(cr);
        self.num_learned_alive = self.num_learned_alive.saturating_add(1);
        (cr, lbd)
    }

    /// Records the LBD of a learned clause for the restart policy.
    fn record_lbd(&mut self, lbd: u32)
        requires
            old(self).inv(),
        ensures
            final(self).inv(),
            *final(self) == (CDCLSolver {
                lbd_sum: final(self).lbd_sum,
                recent_lbds: final(self).recent_lbds,
                recent_lbd_idx: final(self).recent_lbd_idx,
                recent_lbd_full: final(self).recent_lbd_full,
                ..*old(self)
            }),
            final(self).lbd_sum == if old(self).lbd_sum + lbd > u64::MAX {
                u64::MAX as int
            } else {
                old(self).lbd_sum + lbd
            },
            final(self).recent_lbds@ == old(self).recent_lbds@.update(old(self).recent_lbd_idx as int, lbd),
            final(self).recent_lbd_idx == if old(self).recent_lbd_idx + 1 >= RECENT_LBD_WINDOW {
                0
            } else {
                old(self).recent_lbd_idx + 1
            },
            final(self).recent_lbd_full == (old(self).recent_lbd_full || old(self).recent_lbd_idx + 1
                >= RECENT_LBD_WINDOW),
    {
        self.lbd_sum = self.lbd_sum.saturating_add(lbd as u64);
        let idx = self.recent_lbd_idx;
        self.recent_lbds.set(idx, lbd);
        self.recent_lbd_idx = idx + 1;
        if self.recent_lbd_idx >= self.recent_lbds.len() {
            self.recent_lbd_idx = 0;
            self.recent_lbd_full = true;
        }
    }

    /// When a restart is due (see `should_restart`).
    pub closed spec fn restart_due(&self) -> bool {
        let since = if self.conflicts >= self.last_restart_conflicts {
            self.conflicts - self.last_restart_conflicts
        } else {
            0
        };
        if since < 30 {
            false
        } else if !self.recent_lbd_full || self.conflicts < 100 {
            self.conflicts >= self.conflicts_until_restart
        } else {
            lbd_total(self.recent_lbds@) * 9 * self.conflicts > self.lbd_sum * 500
        }
    }

    /// Glucose-style restart test: restart when the average LBD of the
    /// recent learned clauses, times 0.9, exceeds the overall average; before
    /// the recent window is full (or in the first 100 conflicts) follow the
    /// Luby schedule.  Never restart within 30 conflicts of the last restart.
    fn should_restart(&self) -> (b: bool)
        requires
            self.inv(),
        ensures
            b == self.restart_due(),
    {
        let since = self.conflicts.saturating_sub(self.last_restart_conflicts);
        if since < 30 {
            return false;
        }
        if !self.recent_lbd_full || self.conflicts < 100 {
            return self.conflicts >= self.conflicts_until_restart;
        }
        let mut recent_sum: u64 = 0;
        let mut i: usize = 0;
        while i < self.recent_lbds.len()
            invariant
                i <= self.recent_lbds@.len(),
                self.recent_lbds@.len() == RECENT_LBD_WINDOW,
                recent_sum <= i * 0xFFFF_FFFFu64,
                recent_sum == lbd_total(self.recent_lbds@.subrange(0, i as int)),
            decreases self.recent_lbds@.len() - i,
        {
            proof {
                assert(self.recent_lbds@.subrange(0, i + 1).drop_last() =~= self.recent_lbds@.subrange(0, i as int));
            }
            recent_sum = recent_sum + self.recent_lbds[i] as u64;
            i = i + 1;
        }
        // recent_sum / 50 * 0.9 > lbd_sum / conflicts
        proof {
            assert(self.recent_lbds@.subrange(0, self.recent_lbds@.len() as int) =~= self.recent_lbds@);
        }
        let c = self.conflicts;
        proof {
            assert((recent_sum as u128) * 9 <= 0x1000_0000_0000u128) by (nonlinear_arith)
                requires recent_sum <= 50 * 0xFFFF_FFFFu64;
            assert((recent_sum as u128) * 9 * (c as u128) <= 0x1000_0000_0000u128 * 0xFFFF_FFFF_FFFF_FFFFu128) by (nonlinear_arith)
                requires (recent_sum as u128) * 9 <= 0x1000_0000_0000u128, c <= 0xFFFF_FFFF_FFFF_FFFFu64;
        }
        (recent_sum as u128) * 9 * (c as u128) > (self.lbd_sum as u128) * 500
    }

    /// The `i`-th term (from 0) of the Luby sequence
    /// 1, 1, 2, 1, 1, 2, 4, 1, 1, 2, 1, 1, 2, 4, 8, ...: see [`luby_value`].
    pub fn luby(i: u32) -> (r: u64)
        ensures
            r == luby_value(i as nat),
            r >= 1,
        decreases i,
    {
        let mut size: u64 = 1;
        let mut seq: u64 = 1;
        let ghost target = luby_grow(i as nat, 1, 1);
        while size <= i as u64
            invariant
                1 <= seq <= size,
                size <= 2 * (i as u64) + 1,
                luby_grow(i as nat, size as nat, seq as nat) == target,
            decreases 2 * (i as u64) + 2 - size,
        {
            size = 2 * size + 1;
            seq = seq * 2;
        }
        proof {
            assert(luby_value(i as nat) == luby_descend(i as nat, size as nat, seq as nat));
        }
        while size - 1 != i as u64
            invariant
                1 <= seq <= size,
                i < size,
                luby_descend(i as nat, size as nat, seq as nat) == luby_value(i as nat),
            decreases size,
        {
            size = size / 2;
            if i as u64 >= size {
                return Self::luby(i - size as u32);
            }
            if seq > 1 {
                seq = seq / 2;
            }
        }
        seq
    }

    /// Restarts: backtracks to level 0 and advances the Luby schedule.
    fn restart_search(&mut self)
        requires
            old(self).inv(),
        ensures
            final(self).inv(),
            final(self).formula() == old(self).formula(),
            final(self).num_vars == old(self).num_vars,
            final(self).decision_level == 0,
            final(self).input == old(self).input,
            final(self).conflicts == old(self).conflicts,
            final(self).luby_unit == old(self).luby_unit,
            final(self).luby_index == if old(self).luby_index < u32::MAX {
                old(self).luby_index + 1
            } else {
                old(self).luby_index as int
            },
            final(self).conflicts_until_restart == if old(self).conflicts + old(self).luby_unit
                * luby_value(final(self).luby_index as nat) > u64::MAX {
                u64::MAX as int
            } else {
                old(self).conflicts + old(self).luby_unit * luby_value(final(self).luby_index as nat)
            },
    {
        let next_index = self.luby_index.saturating_add(1);
        self.backtrack(0);
        self.restarts = self.restarts.saturating_add(1);
        self.last_restart_conflicts = self.conflicts;
        self.luby_index = next_index;
        let l = Self::luby(next_index);
        let unit = self.luby_unit;
        proof {
            assert((unit as u128) * (l as u128) <= 0xFFFF_FFFF_FFFF_FFFFu128 * 0xFFFF_FFFF_FFFF_FFFFu128) by (nonlinear_arith)
                requires unit <= 0xFFFF_FFFF_FFFF_FFFFu64, l <= 0xFFFF_FFFF_FFFF_FFFFu64;
        }
        let prod = (unit as u128) * (l as u128);
        let step: u64 = if prod > 0xFFFF_FFFF_FFFF_FFFFu128 { u64::MAX } else { prod as u64 };
        self.conflicts_until_restart = self.conflicts.saturating_add(step);
    }

    /// Restarts: backtracks to level 0, moves one step along the Luby
    /// sequence, and schedules the next restart `luby_unit` times the new
    /// Luby term after the current conflict count (saturating).
    pub fn restart(&mut self)
        requires
            old(self).inv(),
        ensures
            final(self).inv(),
            final(self).formula() == old(self).formula(),
            final(self).nvars() == old(self).nvars(),
            final(self).at_root(),
            final(self).conflict_count() == old(self).conflict_count(),
            final(self).restart_unit() == old(self).restart_unit(),
            final(self).luby_position() == if old(self).luby_position() < u32::MAX {
                old(self).luby_position() + 1
            } else {
                old(self).luby_position()
            },
            final(self).restart_at() == if old(self).conflict_count() + old(self).restart_unit() * luby_value(
                final(self).luby_position() as nat,
            ) > u64::MAX {
                u64::MAX as int
            } else {
                old(self).conflict_count() + old(self).restart_unit() * luby_value(final(self).luby_position() as nat)
            },
    {
        self.restart_search();
    }

    /// Xorshift32 random number generator.
    fn rand_u32(&mut self) -> (r: u32)
        ensures
            *final(self) == (CDCLSolver { rng_state: r, ..*old(self) }),
    {
        let mut x = self.rng_state;
        x = x ^ (x << 13u32);
        x = x ^ (x >> 17u32);
        x = x ^ (x << 5u32);
        self.rng_state = x;
        x
    }

    /// Chooses the next decision literal: with probability
    /// `random_var_freq`/1000 an unassigned variable found from a random
    /// start, otherwise the unassigned variable of highest activity; the
    /// polarity is the saved phase.  `None` when no unassigned variable is
    /// found.
    fn pick_branching_literal(&mut self) -> (r: Option<i32>)
        requires
            old(self).inv(),
        ensures
            final(self).inv(),
            final(self).formula() == old(self).formula(),
            final(self).values == old(self).values,
            final(self).trail == old(self).trail,
            final(self).trail_lim == old(self).trail_lim,
            final(self).decision_level == old(self).decision_level,
            final(self).num_vars == old(self).num_vars,
            final(self).input == old(self).input,
            final(self).arena == old(self).arena,
            match r {
                Some(l) => in_range(l as int, final(self).nvars()) && final(self).lv(l as int) == 0
                    && (l > 0) == final(self).phase(var_of(l as int)),
                None => forall|v: int| 1 <= v <= final(self).nvars() ==> #[trigger] final(self).values@[v] != 0,
            },
    {
        self.decisions = self.decisions.saturating_add(1);
        let n = self.num_vars;
        if self.random_var_freq > 0 && n > 0 {
            let r = self.rand_u32();
            if (r as u64) * 1000 < (self.random_var_freq as u64) * (u32::MAX as u64) {
                let nv = n as usize;
                let r2 = self.rand_u32();
                let start = (r2 as usize) % nv + 1;
                let mut offset: usize = 0;
                while offset < nv
                    invariant
                        self.inv(),
                        self.input == old(self).input,
                        self.values == old(self).values,
                        self.trail == old(self).trail,
                        self.trail_lim == old(self).trail_lim,
                        self.decision_level == old(self).decision_level,
                        self.num_vars == old(self).num_vars,
                        self.arena == old(self).arena,
                        nv == self.num_vars,
                        1 <= start <= nv,
                        nv < 0x3fff_ffff,
                        offset <= nv,
                    decreases nv - offset,
                {
                    let v = (start + offset - 1) % nv + 1;
                    if self.values[v] == 0 {
                        let lit: i32 = if self.saved_phase[v] { v as i32 } else { -(v as i32) };
                        return Some(lit);
                    }
                    offset = offset + 1;
                }
            }
        }
        while !self.var_heap.is_empty()
            invariant
                self.inv(),
                self.input == old(self).input,
                self.values == old(self).values,
                self.trail == old(self).trail,
                self.trail_lim == old(self).trail_lim,
                self.decision_level == old(self).decision_level,
                self.num_vars == old(self).num_vars,
                self.arena == old(self).arena,
            decreases self.var_heap.size(),
        {
            let ghost sz = self.var_heap.size();
            proof {
                self.var_heap.lemma_members_size();
            }
            let ghost h0 = self.var_heap;
            proof {
                h0.lemma_members_range();
            }
            let r = self.var_heap.remove_min();
            proof {
                self.var_heap.lemma_members_size();
            }
            match r {
                Some(var) => {
                    let v = var as usize;
                    if self.values[v] == 0 && v >= 1 {
                        let lit: i32 = if self.saved_phase[v] { var } else { -var };
                        return Some(lit);
                    }
                },
                None => {},
            }
        }
        let nv = self.num_vars as usize;
        let mut v: usize = 1;
        while v <= nv
            invariant
                self.inv(),
                nv == self.num_vars,
                nv < 0x3fff_ffff,
                1 <= v <= nv + 1,
                self.input == old(self).input,
                self.values == old(self).values,
                self.trail == old(self).trail,
                self.trail_lim == old(self).trail_lim,
                self.decision_level == old(self).decision_level,
                self.num_vars == old(self).num_vars,
                self.arena == old(self).arena,
                forall|u: int| 1 <= u < v ==> #[trigger] self.values@[u] != 0,
            decreases nv + 1 - v,
        {
            if self.values[v] == 0 {
                let lit: i32 = if self.saved_phase[v] { v as i32 } else { -(v as i32) };
                return Some(lit);
            }
            v = v + 1;
        }
        None
    }
}

impl CDCLSolver {
    /// Sets the activity of learned clause `cr`.
    fn set_clause_activity(&mut self, cr: CRef, act: u32)
        requires
            old(self).inv_core(),
            old(self).arena.valid(cr),
            old(self).arena.clauses()[cr as int].learnt,
        ensures
            final(self).inv_core(),
            final(self).analysis_frame(&*old(self)),
            final(self).seen == old(self).seen,
            final(self).var_heap == old(self).var_heap,
            final(self).arena.clauses() == old(self).arena.clauses().insert(
                cr as int,
                ArenaClause { act, ..old(self).arena.clauses()[cr as int] },
            ),
    {
        let ghost s0 = *self;
        self.arena.set_activity(cr, act);
        proof {
            assert(self.arena.clauses().dom() =~= s0.arena.clauses().dom());
            assert forall|x: CRef| #[trigger] self.arena.valid(x) implies clause_in_range(
                self.clits(x),
                self.num_vars as int,
            ) && entails(self.formula(), self.clits(x)) by {
                assert(s0.arena.valid(x));
                assert(self.clits(x) == s0.clits(x));
            }
            assert forall|v: int| 1 <= v <= self.num_vars && #[trigger] self.values@[v] != 0
                && self.ant(v) != CREF_UNDEF implies self.reason_ok(v) by {
                assert(s0.reason_ok(v));
                assert(self.clits(self.ant(v)) == s0.clits(self.ant(v)));
            }
        }
    }

    /// Grows the activity increments (decay 0.95 for variables, 0.999 for
    /// clauses) and scales all activities down when an increment gets too
    /// large.
    fn decay_activities(&mut self)
        requires
            old(self).inv(),
        ensures
            final(self).inv(),
            final(self).formula() == old(self).formula(),
            final(self).num_vars == old(self).num_vars,
            final(self).values == old(self).values,
            final(self).assignments == old(self).assignments,
            final(self).trail == old(self).trail,
            final(self).trail_lim == old(self).trail_lim,
            final(self).decision_level == old(self).decision_level,
            final(self).input == old(self).input,
            final(self).qhead == old(self).qhead,
            final(self).initial_conflict == old(self).initial_conflict,
            final(self).clause_refs == old(self).clause_refs,
            same_lits(final(self).arena, old(self).arena),
            ({
                let i1 = if old(self).activity_inc + old(self).activity_inc / 19 > u64::MAX {
                    u64::MAX
                } else {
                    (old(self).activity_inc + old(self).activity_inc / 19) as u64
                };
                &&& final(self).activity_inc == if i1 > VAR_INC_LIMIT { i1 >> 20u64 } else { i1 }
                &&& final(self).var_heap.act() == if i1 > VAR_INC_LIMIT {
                    Seq::new(old(self).var_heap.act().len(), |v: int| old(self).var_heap.act()[v] >> 20u64)
                } else {
                    old(self).var_heap.act()
                }
            }),
            ({
                let c1 = if old(self).clause_act_inc + old(self).clause_act_inc / 999 > u32::MAX {
                    u32::MAX
                } else {
                    (old(self).clause_act_inc + old(self).clause_act_inc / 999) as u32
                };
                &&& final(self).clause_act_inc == if c1 > CLAUSE_INC_LIMIT { c1 >> 10u32 } else { c1 }
                &&& c1 <= CLAUSE_INC_LIMIT ==> final(self).arena == old(self).arena
            }),
    {
        let ghost s0 = *self;
        let inc = self.activity_inc;
        self.activity_inc = inc.saturating_add(inc / 19);
        if self.activity_inc > VAR_INC_LIMIT {
            let nv = self.num_vars as usize;
            proof {
                self.var_heap.lemma_act_len();
            }
            let mut scaled: Vec<u64> = Vec::new();
            let mut v: usize = 0;
            while v <= nv
                invariant
                    v <= nv + 1,
                    nv == self.num_vars,
                    nv < 0x3fff_ffff,
                    self.var_heap.act().len() == nv + 1,
                    scaled@.len() == v,
                    self.var_heap == s0.var_heap,
                    forall|j: int| 0 <= j < v ==> #[trigger] scaled@[j] == s0.var_heap.act()[j] >> 20u64,
                decreases nv + 1 - v,
            {
                let a = self.var_heap.activity_of(v);
                scaled.push(a >> 20u64);
                v = v + 1;
            }
            proof {
                assert(scaled@ =~= Seq::new(s0.var_heap.act().len(), |v: int| s0.var_heap.act()[v] >> 20u64));
            }
            self.var_heap.set_activity(scaled.as_slice());
            let big = self.activity_inc;
            let small = big >> 20u64;
            proof {
                assert(small >= 1) by (bit_vector)
                    requires small == big >> 20u64, big > 0x100_0000_0000u64;
            }
            self.activity_inc = small;
        }
        proof {
            assert(self.arena.clauses().dom() =~= s0.arena.clauses().dom());
        }
        let cinc = self.clause_act_inc;
        self.clause_act_inc = cinc.saturating_add(cinc / 999);
        let ghost cinc1 = self.clause_act_inc;
        let ghost vh = self.var_heap;
        let ghost ainc = self.activity_inc;
        if self.clause_act_inc > CLAUSE_INC_LIMIT {
            let mut i: usize = self.first_learned_idx;
            while i < self.clause_refs.len()
                invariant
                    self.inv(),
                    self.formula() == s0.formula(),
                    self.num_vars == s0.num_vars,
                    self.values == s0.values,
                    self.assignments == s0.assignments,
                    self.trail == s0.trail,
                    self.trail_lim == s0.trail_lim,
                    self.decision_level == s0.decision_level,
                    self.input == s0.input,
                    self.qhead == s0.qhead,
                    self.initial_conflict == s0.initial_conflict,
                    self.clause_refs == s0.clause_refs,
                    same_lits(self.arena, s0.arena),
                    self.clause_act_inc > CLAUSE_INC_LIMIT,
                    self.clause_act_inc == cinc1,
                    self.var_heap == vh,
                    self.activity_inc == ainc,
                decreases self.clause_refs@.len() - i,
            {
                let cr = self.clause_refs[i];
                if !self.arena.is_deleted(cr) && self.arena.is_learnt(cr) {
                    let act = self.arena.activity(cr);
                    let ghost pre = *self;
                    self.set_clause_activity(cr, act >> 10u32);
                    proof {
                        assert(self.arena.clauses().dom() =~= s0.arena.clauses().dom());
                    }
                }
                i = i + 1;
            }
            let c2 = self.clause_act_inc;
            let c3 = c2 >> 10u32;
            proof {
                assert(c3 >= 1) by (bit_vector)
                    requires c3 == c2 >> 10u32, c2 > 0x4000_0000u32;
            }
            self.clause_act_inc = c3;
        }
    }

    /// Whether the current assignment (unassigned variables read as false)
    /// satisfies every input clause.
    fn check_model(&self) -> (b: bool)
        requires
            self.inv(),
        ensures
            b == formula_sat(self.model(), self.formula()),
    {
        let ghost n = self.num_vars as int;
        let ghost f = self.formula();
        let mut i: usize = 0;
        while i < self.input.len()
            invariant
                self.inv(),
                n == self.num_vars,
                f == self.formula(),
                i <= self.input@.len(),
                forall|j: int| 0 <= j < i ==> #[trigger] clause_sat(self.model(), f[j]),
            decreases self.input@.len() - i,
        {
            let c = &self.input[i];
            proof {
                assert(f[i as int] == ints(c@));
                assert(clause_in_range(f[i as int], n));
            }
            let mut found = false;
            let mut k: usize = 0;
            while k < c.len() && !found
                invariant
                    self.inv(),
                    n == self.num_vars,
                    k <= c@.len(),
                    f[i as int] == ints(c@),
                    clause_in_range(ints(c@), n),
                    found ==> clause_sat(self.model(), f[i as int]),
                    !found ==> forall|k2: int| 0 <= k2 < k ==> !#[trigger] lit_true(self.model(), f[i as int][k2]),
                decreases c@.len() - k,
            {
                let lit = c[k];
                proof {
                    assert(ints(c@)[k as int] == lit as int);
                }
                let t = if lit > 0 {
                    self.values[lit as usize] == 1
                } else {
                    self.values[(-lit) as usize] != 1
                };
                if t {
                    proof {
                        assert(lit_true(self.model(), ints(c@)[k as int]));
                    }
                    found = true;
                }
                k = k + 1;
            }
            if !found {
                proof {
                    assert(!clause_sat(self.model(), f[i as int]));
                }
                return false;
            }
            i = i + 1;
        }
        true
    }

    /// Opens a new, empty decision level.
    fn open_level(&mut self)
        requires
            old(self).inv(),
            old(self).decision_level < 0x3fff_fff0,
        ensures
            final(self).inv(),
            final(self).decision_level == old(self).decision_level + 1,
            final(self).trail_lim@ == old(self).trail_lim@.push(old(self).trail@.len() as usize),
            final(self).formula() == old(self).formula(),
            final(self).num_vars == old(self).num_vars,
            final(self).input == old(self).input,
            final(self).values == old(self).values,
            final(self).assignments == old(self).assignments,
            final(self).trail == old(self).trail,
            final(self).tpos == old(self).tpos,
            final(self).arena == old(self).arena,
            final(self).clause_refs == old(self).clause_refs,
            final(self).first_learned_idx == old(self).first_learned_idx,
            final(self).num_learned_alive == old(self).num_learned_alive,
            final(self).initial_conflict == old(self).initial_conflict,
    {
        let ghost s0 = *self;
        self.decision_level = self.decision_level + 1;
        let len = self.trail.len();
        self.trail_lim.push(len);
        proof {
            let t = self.trail@;
            let lim = self.trail_lim@;
            assert forall|k: int, l: int| 0 <= k <= l < lim.len() implies #[trigger] lim[k] <= #[trigger] lim[l] by {
                if l < lim.len() - 1 {
                    assert(s0.trail_lim@[k] <= s0.trail_lim@[l]);
                } else if k < l {
                    assert(s0.trail_lim@[k] <= t.len());
                }
            }
            assert forall|i: int, k: int| 0 <= i < t.len() && 0 <= k < lim.len() implies ((i
                < #[trigger] lim[k]) == (self.level(var_of(#[trigger] t[i] as int)) <= k)) by {
                if k < lim.len() - 1 {
                    assert(lim[k] == s0.trail_lim@[k]);
                } else {
                    let u = var_of(t[i] as int);
                    assert(s0.values@[u] != 0);
                    assert(s0.level(u) <= s0.decision_level);
                }
            }
            assert forall|v: int| 1 <= v <= self.num_vars && #[trigger] self.values@[v] != 0 implies 0
                <= self.level(v) <= self.decision_level by {
                assert(s0.level(v) <= s0.decision_level);
            }
            assert(self.inv_levels());
            assert(self.inv_sizes());
        }
    }

    /// Opens a new decision level and assigns `lit` on it.  Returns `false`
    /// (and does nothing) when no further decision level can be represented.
    fn new_decision(&mut self, lit: i32) -> (ok: bool)
        requires
            old(self).inv(),
            in_range(lit as int, old(self).nvars()),
            old(self).lv(lit as int) == 0,
        ensures
            final(self).inv(),
            final(self).formula() == old(self).formula(),
            final(self).num_vars == old(self).num_vars,
            final(self).input == old(self).input,
            ok == (old(self).decision_level < 0x3fff_fff0),
            ok ==> final(self).decision_level == old(self).decision_level + 1,
            ok ==> final(self).lv(lit as int) == 1,
            ok ==> final(self).trail@ == old(self).trail@.push(lit),
            !ok ==> *final(self) == *old(self),
    {
        if self.decision_level >= 0x3fff_fff0 {
            return false;
        }
        self.open_level();
        self.assign(lit, None);
        true
    }

    /// Decides the formula by trying every assignment, when the search
    /// proper cannot go on: `Ok(false)` when no assignment satisfies it;
    /// otherwise the solver is left holding one that does, and `Ok(true)`.
    fn finish_by_search(&mut self) -> (r: Result<bool, SolverError>)
        requires
            old(self).inv(),
        ensures
            final(self).inv(),
            final(self).formula() == old(self).formula(),
            final(self).nvars() == old(self).nvars(),
            r is Ok,
            r == Ok::<bool, SolverError>(true) ==> formula_sat(final(self).model(), final(self).formula()),
            r == Ok::<bool, SolverError>(false) ==> !satisfiable(final(self).formula()),
    {
        let n = self.num_vars as usize;
        let ghost f = self.formula();
        let (wide, _bound) = widen_ints(&self.input);
        proof {
            assert(formula_in_range(f, n as int));
            assert(wide_clauses(wide@) == f);
            assert forall|i: int, k: int| 0 <= i < f.len() && 0 <= k < f[i].len() implies -(n as int) <= #[trigger] f[i][k] <= n by {
                assert(clause_in_range(f[i], n as int));
            }
        }
        let found = find_model(&wide, n);
        let m = match found {
            None => {
                return Ok(false);
            },
            Some(m) => m,
        };
        let ghost mm = vals_model(m@);
        if self.decision_level > 0 {
            self.backtrack(0);
        }
        proof {
            assert forall|w: int| 1 <= w <= n && #[trigger] self.values@[w] != 0 implies (self.values@[w] == 1) == m@[w] by {
                assert(self.level(w) == 0);
                assert(entails(f, seq![self.tlit(w)]));
                assert(clause_sat(mm, seq![self.tlit(w)]));
                let k = choose|k: int| 0 <= k < 1 && #[trigger] lit_true(mm, seq![self.tlit(w)][k]);
                assert(seq![self.tlit(w)][k] == self.tlit(w));
            }
        }
        self.open_level();
        let mut v: usize = 1;
        while v <= n
            invariant
                self.inv(),
                self.formula() == f,
                self.num_vars as usize == n,
                self.decision_level == 1,
                m@.len() == n + 1,
                mm == vals_model(m@),
                formula_sat(mm, f),
                1 <= v <= n + 1,
                n < 0x3fff_ffff,
                forall|w: int| 1 <= w < v ==> #[trigger] self.values@[w] != 0,
                forall|w: int| 1 <= w <= n && #[trigger] self.values@[w] != 0 ==> (self.values@[w] == 1) == m@[w],
            decreases n + 1 - v,
        {
            if self.values[v] == 0 {
                let lit: i32 = if m[v] { v as i32 } else { -(v as i32) };
                proof {
                    assert(self.lv(lit as int) == 0);
                }
                let ghost vals0 = self.values@;
                self.assign(lit, None);
                proof {
                    assert forall|w: int| 1 <= w <= n && #[trigger] self.values@[w] != 0 implies (self.values@[w] == 1)
                        == m@[w] by {
                        if w != v {
                            assert(self.values@[w] == vals0[w]);
                        }
                    }
                    assert forall|w: int| 1 <= w < v + 1 implies #[trigger] self.values@[w] != 0 by {
                        if w != v {
                            assert(self.values@[w] == vals0[w]);
                        }
                    }
                }
            }
            v = v + 1;
        }
        proof {
            assert forall|w: int| 1 <= w <= n implies #[trigger] self.model()(w) == mm(w) by {
                assert(self.values@[w] != 0);
            }
            lemma_formula_agree_nonzero(f, n as int, self.model(), mm);
        }
        Ok(true)
    }

    /// Decides the formula.  `Ok(true)`: satisfiable, and the current
    /// assignment (see `get_model`) satisfies it; `Ok(false)`: unsatisfiable.
    pub fn solve(&mut self) -> (r: Result<bool, SolverError>)
        requires
            old(self).inv(),
        ensures
            final(self).inv(),
            final(self).formula() == old(self).formula(),
            final(self).nvars() == old(self).nvars(),
            r == Ok::<bool, SolverError>(true) ==> formula_sat(final(self).model(), final(self).formula()),
            r == Ok::<bool, SolverError>(false) ==> !satisfiable(final(self).formula()),
            old(self).refuted() ==> r == Ok::<bool, SolverError>(false),
            r is Ok,
    {
        if self.initial_conflict {
            return Ok(false);
        }
        if self.decision_level > 0 {
            self.backtrack(0);
        }
        let c0 = self.propagate();
        match c0 {
            Some(cr) => {
                proof {
                    self.lemma_level0_conflict(cr);
                }
                return Ok(false);
            },
            None => {},
        }
        let ghost f = self.formula();
        let ghost n = self.num_vars;
        let mut budget: u64 = u64::MAX;
        loop
            invariant
                self.inv(),
                self.formula() == f,
                self.num_vars == n,
                f == old(self).formula(),
                n == old(self).num_vars,
                !old(self).initial_conflict,
            decreases budget,
        {
            if budget == 0 {
                return self.finish_by_search();
            }
            budget = budget - 1;
            let ghost b1 = budget;
            if self.should_restart() {
                self.restart_search();
            }
            if self.num_learned_alive > self.max_learned {
                self.reduce_db();
            }
            match self.pick_branching_literal() {
                Some(lit) => {
                    if !self.new_decision(lit) {
                        return self.finish_by_search();
                    }
                    loop
                        invariant
                            self.inv(),
                            self.formula() == f,
                            self.num_vars == n,
                            f == old(self).formula(),
                            n == old(self).num_vars,
                            budget <= b1,
                            !old(self).initial_conflict,
                        decreases budget,
                    {
                        if budget == 0 {
                            return self.finish_by_search();
                        }
                        budget = budget - 1;
                        match self.propagate() {
                            None => {
                                break;
                            },
                            Some(conflict_clause) => {
                                self.conflicts = self.conflicts.saturating_add(1);
                                if self.decision_level == 0 {
                                    proof {
                                        self.lemma_level0_conflict(conflict_clause);
                                    }
                                    return Ok(false);
                                }
                                let (learned, bt_level) = match self.analyze_conflict(conflict_clause) {
                                    Ok(x) => x,
                                    Err(_) => {
                                        return self.finish_by_search();
                                    },
                                };
                                if bt_level >= self.decision_level {
                                    return self.finish_by_search();
                                }
                                self.backtrack(bt_level);
                                let unit_lit = learned[0];
                                if !self.learned_fits(learned.len()) {
                                    return self.finish_by_search();
                                }
                                let (cr, lbd) = self.add_learned_clause(learned);
                                self.record_lbd(lbd);
                                proof {
                                    assert(self.clits(cr)[0] == unit_lit);
                                    assert(clause_in_range(self.clits(cr), n as int));
                                }
                                if self.lit_value(unit_lit) != 0 || !self.clause_implies(cr, unit_lit) {
                                    return self.finish_by_search();
                                }
                                proof {
                                    self.arena.lemma_wf();
                                }
                                self.assign(unit_lit, Some(cr));
                                self.decay_activities();
                            },
                        }
                    }
                },
                None => {
                    if self.check_model() {
                        return Ok(true);
                    }
                    return self.finish_by_search();
                },
            }
        }
    }
}

/// The sum of a sequence of LBDs.
pub open spec fn lbd_total(s: Seq<u32>) -> int
    decreases s.len(),
{
    if s.len() == 0 {
        0
    } else {
        lbd_total(s.drop_last()) + s.last()
    }
}

/// A formula without empty clauses is its own non-empty part.
pub proof fn lemma_drop_empty_id(f: Seq<Seq<int>>)
    requires
        forall|i: int| 0 <= i < f.len() ==> (#[trigger] f[i]).len() > 0,
    ensures
        drop_empty(f) == f,
    decreases f.len(),
{
    if f.len() > 0 {
        lemma_drop_empty_id(f.drop_last());
        assert(drop_empty(f.drop_last()).push(f.last()) =~= f);
    }
}

/// The block of the Luby sequence that position `i` falls in: grows
/// `size` through `1, 3, 7, 15, ...` (and `seq` through `1, 2, 4, 8, ...`)
/// until `size` exceeds `i`.
pub open spec fn luby_grow(i: nat, size: nat, seq: nat) -> (nat, nat)
    decreases (if size <= i { (i + 1 - size) as nat } else { 0nat }),
{
    if size <= i {
        luby_grow(i, 2 * size + 1, 2 * seq)
    } else {
        (size, seq)
    }
}

/// The `i`-th term (from 0) of the Luby sequence 1, 1, 2, 1, 1, 2, 4, 1, 1,
/// 2, 1, 1, 2, 4, 8, ...: in the smallest block of length `2^k - 1` that
/// holds position `i`, the last term is `2^(k-1)`, and the terms from the
/// middle on repeat the sequence from its start.
pub open spec fn luby_value(i: nat) -> nat
    decreases i, 1nat, 0nat,
{
    let (size, seq) = luby_grow(i, 1, 1);
    luby_descend(i, size, seq)
}

/// The term at position `i` of a block of length `size` ending in `seq`.
pub open spec fn luby_descend(i: nat, size: nat, seq: nat) -> nat
    decreases i, 0nat, size,
{
    if size <= 1 || size - 1 == i {
        seq
    } else {
        let half = size / 2;
        if i >= half {
            luby_value((i - half) as nat)
        } else {
            luby_descend(i, half, if seq > 1 { seq / 2 } else { seq })
        }
    }
}

/// Whether the clauses suit the solver's tables and arena, and (when
/// `nonempty`) none of them is empty.
fn check_input(clauses: &Vec<Clause>, nonempty: bool) -> (b: bool)
    ensures
        b == (solver_input_ok(clauses@) && (nonempty ==> forall|i: int| 0 <= i < clauses@.len() ==> (
        #[trigger] clauses@[i])@.len() > 0)),
{
    let mut words: u64 = 0;
    let mut i: usize = 0;
    while i < clauses.len()
        invariant
            i <= clauses@.len(),
            words == clause_words(clauses@.subrange(0, i as int)),
            words < u32::MAX,
            forall|a: int, k: int|
                0 <= a < i && 0 <= k < clauses@[a]@.len() ==> literal_wf(#[trigger] clauses@[a]@[k])
                    && clauses@[a]@[k].var < 0x3fff_ffff,
            forall|a: int| 0 <= a < i ==> (#[trigger] clauses@[a])@.len() <= LEN_MASK && (nonempty ==> clauses@[a]@.len() > 0),
        decreases clauses@.len() - i,
    {
        let lits = &clauses[i].literals;
        if (nonempty && lits.len() == 0) || lits.len() > LEN_MASK as usize {
            return false;
        }
        let mut k: usize = 0;
        while k < lits.len()
            invariant
                i < clauses@.len(),
                k <= lits@.len(),
                lits@ == clauses@[i as int]@,
                forall|m: int| 0 <= m < k ==> literal_wf(#[trigger] lits@[m]) && lits@[m].var < 0x3fff_ffff,
            decreases lits@.len() - k,
        {
            let v = lits[k].var;
            if v < 1 || v >= 0x3fff_ffff {
                proof {
                    assert(!solver_input_ok(clauses@)) by {
                        assert(clauses@[i as int]@[k as int].var == v);
                    }
                }
                return false;
            }
            k = k + 1;
        }
        proof {
            lemma_prefix_drop_last(clauses@, i + 1);
        }
        let add = (lits.len() as u64) + 1;
        if words + add >= 0xFFFF_FFFFu64 {
            proof {
                lemma_clause_words_prefix(clauses@, i + 1);
            }
            return false;
        }
        words = words + add;
        i = i + 1;
    }
    proof {
        assert(clauses@.subrange(0, clauses@.len() as int) =~= clauses@);
    }
    true
}

/// Whether the clauses can be given to the solver: positive variables small
/// enough for its tables, clauses short enough for the clause arena, and a
/// total size that fits one arena.
pub fn solver_input_valid(clauses: &Vec<Clause>) -> (b: bool)
    ensures
        b == solver_input_ok(clauses@),
{
    check_input(clauses, false)
}

/// Whether the clauses can be given to the solver (see
/// [`solver_input_valid`]) and none of them is empty.
pub fn solver_input_fits(clauses: &Vec<Clause>) -> (b: bool)
    ensures
        b == (solver_input_ok(clauses@) && forall|i: int| 0 <= i < clauses@.len() ==> (
        #[trigger] clauses@[i])@.len() > 0),
{
    check_input(clauses, true)
}


impl CDCLSolver {
    /// Frame of clause-database maintenance: the formula, the assignment and
    /// the trail stay as they are.
    pub closed spec fn db_frame(&self, s0: &Self) -> bool {
        &&& self.formula() == s0.formula()
        &&& self.num_vars == s0.num_vars
        &&& self.input == s0.input
        &&& self.values == s0.values
        &&& self.trail == s0.trail
        &&& self.trail_lim == s0.trail_lim
        &&& self.decision_level == s0.decision_level
        &&& self.qhead == s0.qhead
        &&& self.initial_conflict == s0.initial_conflict
    }

    /// The watch lists made by attaching, in order, the live clauses of
    /// `refs` to `nl` empty lists (see `attach_clause`).
    pub closed spec fn built_watches(&self, refs: Seq<CRef>, nl: int) -> Seq<Seq<Watcher>>
        decreases refs.len(),
    {
        if refs.len() == 0 {
            Seq::new(nl as nat, |i: int| Seq::<Watcher>::empty())
        } else {
            let w = self.built_watches(refs.drop_last(), nl);
            let cr = refs.last();
            let c = self.clits(cr);
            if !self.arena.clauses()[cr as int].deleted && c.len() > 2 {
                Seq::new(
                    w.len(),
                    |i: int|
                        w[i] + (if i == lit_idx(c[0]) { seq![Watcher { cref: cr, blocker: c[1] as i32 }] } else {
                            Seq::empty()
                        }) + (if i == lit_idx(c[1]) { seq![Watcher { cref: cr, blocker: c[0] as i32 }] } else {
                            Seq::empty()
                        }),
                )
            } else {
                w
            }
        }
    }

    /// The binary implication lists made by attaching, in order, the live
    /// clauses of `refs` to `nl` empty lists (see `attach_clause`).
    pub closed spec fn built_bins(&self, refs: Seq<CRef>, nl: int) -> Seq<Seq<(i32, CRef)>>
        decreases refs.len(),
    {
        if refs.len() == 0 {
            Seq::new(nl as nat, |i: int| Seq::<(i32, CRef)>::empty())
        } else {
            let w = self.built_bins(refs.drop_last(), nl);
            let cr = refs.last();
            let c = self.clits(cr);
            if !self.arena.clauses()[cr as int].deleted && c.len() == 2 {
                Seq::new(
                    w.len(),
                    |i: int|
                        w[i] + (if i == lit_idx(-c[0]) { seq![(c[1] as i32, cr)] } else { Seq::empty() }) + (if i
                            == lit_idx(-c[1]) {
                            seq![(c[0] as i32, cr)]
                        } else {
                            Seq::empty()
                        }),
                )
            } else {
                w
            }
        }
    }

    /// Re-creates all watch lists and binary implications from the live
    /// clauses.
    fn rebuild_watches(&mut self)
        requires
            old(self).inv(),
        ensures
            final(self).inv(),
            final(self).db_frame(&*old(self)),
            final(self).arena == old(self).arena,
            final(self).clause_refs == old(self).clause_refs,
            final(self).assignments == old(self).assignments,
            final(self).first_learned_idx == old(self).first_learned_idx,
            final(self).num_learned_alive == old(self).num_learned_alive,
            final(self).watches@.len() == 2 * (final(self).num_vars + 1),
            final(self).bin_implies@.len() == 2 * (final(self).num_vars + 1),
            forall|i: int| 0 <= i < final(self).watches@.len() ==> #[trigger] final(self).watches@[i]@
                == final(self).built_watches(final(self).clause_refs@, 2 * (final(self).num_vars + 1))[i],
            forall|i: int| 0 <= i < final(self).bin_implies@.len() ==> #[trigger] final(self).bin_implies@[i]@
                == final(self).built_bins(final(self).clause_refs@, 2 * (final(self).num_vars + 1))[i],
    {
        let ghost s0 = *self;
        let num_lits = (self.num_vars as usize + 1) * 2;
        let ghost nl = num_lits as int;
        self.watches = empty_lists(num_lits);
        self.bin_implies = empty_lists(num_lits);
        proof {
            assert(self.clause_refs@.subrange(0, 0) =~= Seq::<CRef>::empty());
        }
        let mut i: usize = 0;
        while i < self.clause_refs.len()
            invariant
                self.inv(),
                self.db_frame(&s0),
                self.arena == s0.arena,
                self.clause_refs == s0.clause_refs,
                self.assignments == s0.assignments,
                self.first_learned_idx == s0.first_learned_idx,
                self.num_learned_alive == s0.num_learned_alive,
                nl == 2 * (self.num_vars + 1),
                i <= self.clause_refs@.len(),
                self.watches@.len() == nl,
                self.bin_implies@.len() == nl,
                forall|j: int| 0 <= j < nl ==> #[trigger] self.watches@[j]@ == self.built_watches(
                    self.clause_refs@.subrange(0, i as int),
                    nl,
                )[j],
                forall|j: int| 0 <= j < nl ==> #[trigger] self.bin_implies@[j]@ == self.built_bins(
                    self.clause_refs@.subrange(0, i as int),
                    nl,
                )[j],
            decreases self.clause_refs@.len() - i,
        {
            let cr = self.clause_refs[i];
            let ghost pre = *self;
            proof {
                assert(self.clause_refs@.subrange(0, i + 1).drop_last() =~= self.clause_refs@.subrange(0, i as int));
                lemma_built_len(&pre, self.clause_refs@.subrange(0, i as int), nl);
            }
            if !self.arena.is_deleted(cr) {
                self.attach_clause(cr);
            }
            proof {
                lemma_built_len(&pre, self.clause_refs@.subrange(0, i + 1), nl);
                assert(self.built_watches(self.clause_refs@.subrange(0, i + 1), nl) == pre.built_watches(
                    self.clause_refs@.subrange(0, i + 1),
                    nl,
                )) by {
                    lemma_built_same(&pre, self, self.clause_refs@.subrange(0, i + 1), nl);
                }
                assert(self.built_bins(self.clause_refs@.subrange(0, i + 1), nl) == pre.built_bins(
                    self.clause_refs@.subrange(0, i + 1),
                    nl,
                )) by {
                    lemma_built_same(&pre, self, self.clause_refs@.subrange(0, i + 1), nl);
                }
            }
            i = i + 1;
        }
        proof {
            assert(self.clause_refs@.subrange(0, self.clause_refs@.len() as int) =~= self.clause_refs@);
        }
    }

    /// Marks clause `cr` deleted (its literals stay readable).
    fn delete_clause(&mut self, cr: CRef)
        requires
            old(self).inv(),
            old(self).arena.valid(cr),
        ensures
            final(self).inv(),
            final(self).db_frame(&*old(self)),
            final(self).arena.clauses().dom() == old(self).arena.clauses().dom(),
            final(self).clause_refs == old(self).clause_refs,
            final(self).first_learned_idx == old(self).first_learned_idx,
            final(self).num_learned_alive == old(self).num_learned_alive,
            final(self).arena.clauses()[cr as int].deleted,
            final(self).arena.words() == old(self).arena.words(),
            final(self).drat_enabled() == old(self).drat_enabled(),
            final(self).drat_text() == if old(self).drat_enabled() && old(self).drat.deletions_spec() < u64::MAX {
                old(self).drat_text() + seq!['d', ' '] + clause_line(old(self).arena.lits_of(cr))
            } else {
                old(self).drat_text()
            },
    {
        let ghost s0 = *self;
        if self.drat.num_deletions() < u64::MAX && self.drat.is_enabled() {
            let lits = self.arena.lits(cr);
            self.drat.delete_clause(lits.as_slice());
        }
        self.arena.set_deleted(cr);
        proof {
            assert(self.arena.clauses().dom() =~= s0.arena.clauses().dom());
            assert forall|x: CRef| #[trigger] self.arena.valid(x) implies clause_in_range(
                self.clits(x),
                self.num_vars as int,
            ) && entails(self.formula(), self.clits(x)) by {
                assert(s0.arena.valid(x));
                assert(self.clits(x) == s0.clits(x));
            }
            assert forall|v: int| 1 <= v <= self.num_vars && #[trigger] self.values@[v] != 0
                && self.ant(v) != CREF_UNDEF implies self.reason_ok(v) by {
                assert(s0.reason_ok(v));
                assert(self.clits(self.ant(v)) == s0.clits(self.ant(v)));
            }
        }
    }

    /// The index in `clause_refs` of the first learned clause (its length
    /// when there is none).
    fn first_learned_position(&self) -> (r: usize)
        requires
            self.inv(),
        ensures
            r <= self.clause_refs@.len(),
            r < self.clause_refs@.len() ==> self.arena.clauses()[self.clause_refs@[r as int] as int].learnt,
            forall|j: int| 0 <= j < r ==> !self.arena.clauses()[#[trigger] self.clause_refs@[j] as int].learnt,
    {
        let mut i: usize = 0;
        while i < self.clause_refs.len()
            invariant
                self.inv(),
                i <= self.clause_refs@.len(),
                forall|j: int| 0 <= j < i ==> !self.arena.clauses()[#[trigger] self.clause_refs@[j] as int].learnt,
            decreases self.clause_refs@.len() - i,
        {
            if self.arena.is_learnt(self.clause_refs[i]) {
                return i;
            }
            i = i + 1;
        }
        i
    }

    /// Reduces the learned-clause database: keeps glue clauses (LBD <= 2),
    /// unit clauses and the antecedents of current assignments, and deletes
    /// the half of the other learned clauses with the lowest activity (ties:
    /// highest LBD first).  Then raises the reduction threshold, drops
    /// deleted references, and rebuilds the watches or compacts the arena
    /// when much has been deleted.
    fn reduce_db(&mut self)
        requires
            old(self).inv(),
        ensures
            final(self).inv(),
            final(self).db_frame(&*old(self)),
    {
        broadcast use vstd::std_specs::hash::group_hash_axioms;
        let ghost s0 = *self;
        self.reductions = self.reductions.saturating_add(1);
        let mut antecedent_set: std::collections::HashSet<CRef> = std::collections::HashSet::new();
        let mut t: usize = 0;
        while t < self.trail.len()
            invariant
                self.inv(),
                self.db_frame(&s0),
                t <= self.trail@.len(),
            decreases self.trail@.len() - t,
        {
            let lit = self.trail[t];
            proof {
                assert(in_range(lit as int, self.num_vars as int));
            }
            let var: usize = if lit < 0 { (-lit) as usize } else { lit as usize };
            let a = self.assignments[var];
            if a.antecedent != CREF_UNDEF {
                antecedent_set.insert(a.antecedent);
            }
            t = t + 1;
        }
        let mut candidates: Vec<(u64, u32)> = Vec::new();
        let mut i: usize = self.first_learned_idx;
        while i < self.clause_refs.len()
            invariant
                self.inv(),
                self.db_frame(&s0),
                forall|k: int| 0 <= k < candidates@.len() ==> self.arena.valid(#[trigger] candidates@[k].1),
            decreases self.clause_refs@.len() - i,
        {
            let cr = self.clause_refs[i];
            i = i + 1;
            if self.arena.is_deleted(cr) || !self.arena.is_learnt(cr) {
                continue;
            }
            if antecedent_set.contains(&cr) {
                continue;
            }
            let lbd = self.arena.lbd(cr);
            if lbd <= 2 || self.arena.len(cr) <= 1 {
                continue;
            }
            let act = self.arena.activity(cr) as u64;
            let key: u64 = act * 0x1_0000_0000u64 + (0xFFFF_FFFFu64 - lbd as u64);
            candidates.push((key, cr));
        }
        let ghost cand0 = candidates@;
        let sorted = crate::sorting::sort_by_key(candidates);
        let to_delete = sorted.len() / 2;
        let mut k: usize = 0;
        while k < to_delete
            invariant
                self.inv(),
                self.db_frame(&s0),
                to_delete <= sorted@.len(),
                forall|j: int| 0 <= j < cand0.len() ==> self.arena.valid(#[trigger] cand0[j].1),
                forall|j: int| 0 <= j < sorted@.len() ==> cand0.contains(#[trigger] sorted@[j]),
            decreases to_delete - k,
        {
            let cr = sorted[k].1;
            proof {
                assert(cand0.contains(sorted@[k as int]));
                let j = choose|j: int| 0 <= j < cand0.len() && cand0[j] == sorted@[k as int];
                assert(self.arena.valid(cand0[j].1));
            }
            let ghost pre = *self;
            self.delete_clause(cr);
            proof {
                assert forall|j: int| 0 <= j < cand0.len() implies self.arena.valid(#[trigger] cand0[j].1) by {
                    assert(pre.arena.valid(cand0[j].1));
                }
            }
            self.num_learned_alive = self.num_learned_alive.saturating_sub(1);
            k = k + 1;
        }
        let grown = self.max_learned.saturating_add(300);
        let cap = (self.first_learned_idx / 3).saturating_add(5000);
        self.max_learned = if grown < cap { grown } else { cap };
        // Drop deleted references.
        let before_len = self.clause_refs.len();
        let mut kept: Vec<CRef> = Vec::new();
        let mut j: usize = 0;
        while j < self.clause_refs.len()
            invariant
                self.inv(),
                self.db_frame(&s0),
                forall|m: int| 0 <= m < kept@.len() ==> self.arena.valid(#[trigger] kept@[m]),
            decreases self.clause_refs@.len() - j,
        {
            let cr = self.clause_refs[j];
            if !self.arena.is_deleted(cr) {
                kept.push(cr);
            }
            j = j + 1;
        }
        self.clause_refs = kept;
        self.first_learned_idx = 0;
        let fl = self.first_learned_position();
        self.first_learned_idx = fl;
        let after_len = self.clause_refs.len();
        if before_len / 2 > after_len {
            self.rebuild_watches();
        }
        let total_words = self.arena.total_words();
        if total_words > 0 {
            // compact when more than 30% of the arena is wasted
            let wasted = self.arena.wasted() as u128;
            if wasted * 100 / (total_words as u128) > 30 {
                self.gc_arena();
            }
        }
    }
}

impl CDCLSolver {
    /// Compacts the clause arena: copies the live clauses into a fresh arena
    /// and renames every reference (clause list, antecedents, watches).
    /// Antecedents whose clause was deleted are dropped.  Leaves the arena
    /// as it is if the copy would not fit.
    fn gc_arena(&mut self)
        requires
            old(self).inv(),
        ensures
            final(self).inv(),
            final(self).db_frame(&*old(self)),
    {
        broadcast use vstd::std_specs::hash::group_hash_axioms;
        let ghost s0 = *self;
        let ghost n = self.num_vars as int;
        proof {
            self.arena.lemma_wf();
        }
        let mut new_arena = ClauseArena::with_capacity(self.arena.total_words() - self.arena.wasted());
        let mut remap: std::collections::HashMap<CRef, CRef> = std::collections::HashMap::new();
        let mut new_refs: Vec<CRef> = Vec::new();
        proof {
            self.arena.lemma_wf();
        }
        let mut i: usize = 0;
        while i < self.clause_refs.len()
            invariant
                self.inv(),
                *self == s0,
                new_arena.wf(),
                forall|k: CRef| #[trigger] remap@.contains_key(k) ==> s0.arena.valid(k) && new_arena.valid(remap@[k])
                    && new_arena.lits_of(remap@[k]) == s0.arena.lits_of(k),
                forall|k: CRef| #[trigger] new_arena.valid(k) ==> exists|o: CRef| s0.arena.valid(o) && new_arena.lits_of(k) == s0.arena.lits_of(o),
                forall|m: int| 0 <= m < new_refs@.len() ==> new_arena.valid(#[trigger] new_refs@[m]),
            decreases self.clause_refs@.len() - i,
        {
            let old_cr = self.clause_refs[i];
            i = i + 1;
            if self.arena.is_deleted(old_cr) {
                continue;
            }
            let lits = self.arena.lits(old_cr);
            let learnt = self.arena.is_learnt(old_cr);
            let lbd = if learnt { self.arena.lbd(old_cr) } else { 0 };
            proof {
                self.arena.lemma_wf();
            }
            if new_arena.total_words() >= 0xFFFF_0000usize || lits.len() >= 0xFFF0usize {
                return;
            }
            let ghost na0 = new_arena;
            let new_cr = new_arena.alloc_clause(lits.as_slice(), learnt, lbd);
            if learnt {
                let act = self.arena.activity(old_cr);
                new_arena.set_activity(new_cr, act);
            }
            remap.insert(old_cr, new_cr);
            new_refs.push(new_cr);
            proof {
                assert forall|k: CRef| #[trigger] remap@.contains_key(k) implies s0.arena.valid(k) && new_arena.valid(remap@[k])
                    && new_arena.lits_of(remap@[k]) == s0.arena.lits_of(k) by {
                    if k != old_cr {
                        assert(na0.valid(remap@[k]));
                        assert(remap@[k] != new_cr);
                    }
                }
                assert forall|k: CRef| #[trigger] new_arena.valid(k) implies exists|o: CRef| s0.arena.valid(o) && new_arena.lits_of(k) == s0.arena.lits_of(o) by {
                    if k != new_cr {
                        assert(na0.valid(k));
                        let o = choose|o: CRef| s0.arena.valid(o) && na0.lits_of(k) == s0.arena.lits_of(o);
                    } else {
                        assert(new_arena.lits_of(k) == s0.arena.lits_of(old_cr));
                    }
                }
                assert forall|m: int| 0 <= m < new_refs@.len() implies new_arena.valid(#[trigger] new_refs@[m]) by {
                    if m < new_refs@.len() - 1 {
                        assert(na0.valid(new_refs@[m]));
                    }
                }
            }
        }
        // Rename antecedents.
        let mut assignments = self.assignments.clone();
        let mut v: usize = 1;
        while v <= self.num_vars as usize
            invariant
                *self == s0,
                s0.inv(),
                n == s0.num_vars,
                1 <= v <= n + 1,
                assignments@.len() == n + 1,
                forall|k: CRef| #[trigger] remap@.contains_key(k) ==> s0.arena.valid(k) && new_arena.valid(remap@[k])
                    && new_arena.lits_of(remap@[k]) == s0.arena.lits_of(k),
                forall|u: int| 0 <= u <= n ==> (#[trigger] assignments@[u]).decision_level == s0.assignments@[u].decision_level,
                forall|u: int| 1 <= u < v ==> (#[trigger] assignments@[u]).antecedent == CREF_UNDEF
                    || (new_arena.valid(assignments@[u].antecedent) && s0.assignments@[u].antecedent != CREF_UNDEF
                        && new_arena.lits_of(assignments@[u].antecedent) == s0.arena.lits_of(s0.assignments@[u].antecedent)),
                forall|u: int| v <= u <= n ==> #[trigger] assignments@[u] == s0.assignments@[u],
            decreases n + 1 - v,
        {
            let a = assignments[v];
            if a.antecedent != CREF_UNDEF {
                let na = match remap.get(&a.antecedent) {
                    Some(x) => *x,
                    None => CREF_UNDEF,
                };
                assignments.set(v, Assignment { decision_level: a.decision_level, antecedent: na });
            }
            v = v + 1;
        }
        proof {
            assert(assignments@.len() == s0.assignments@.len());
        }
        self.arena = new_arena;
        self.clause_refs = new_refs;
        self.assignments = assignments;
        let num_lits = (self.num_vars as usize + 1) * 2;
        self.watches = empty_lists(num_lits);
        self.bin_implies = empty_lists(num_lits);
        self.first_learned_idx = 0;
        proof {
            assert forall|x: CRef| #[trigger] self.arena.valid(x) implies clause_in_range(self.clits(x), n)
                && entails(self.formula(), self.clits(x)) by {
                let o = choose|o: CRef| s0.arena.valid(o) && self.arena.lits_of(x) == s0.arena.lits_of(o);
                assert(s0.arena.valid(o));
                assert(self.clits(x) == s0.clits(o));
            }
            assert forall|u: int| 1 <= u <= n && #[trigger] self.values@[u] != 0 && self.level(u) == 0 implies entails(
                self.formula(),
                seq![self.tlit(u)],
            ) by {
                assert(s0.level(u) == 0);
            }
            assert forall|u: int| 1 <= u <= n && #[trigger] self.values@[u] != 0 && self.ant(u) != CREF_UNDEF implies self.reason_ok(u) by {
                let o = s0.ant(u);
                assert(s0.reason_ok(u));
                assert(self.clits(self.ant(u)) == s0.clits(o));
            }
            assert forall|u: int| 1 <= u <= n && #[trigger] self.values@[u] != 0 implies 0 <= self.level(u) <= self.decision_level by {
                assert(s0.level(u) <= s0.decision_level);
            }
            let t = self.trail@;
            let lim = self.trail_lim@;
            assert forall|p: int, k: int| 0 <= p < t.len() && 0 <= k < lim.len() implies ((p < #[trigger] lim[k]) == (self.level(
                var_of(#[trigger] t[p] as int),
            ) <= k)) by {
                let u = var_of(t[p] as int);
                assert(in_range(t[p] as int, n));
                assert(s0.level(u) == self.level(u));
            }
            assert(self.inv_levels());
            assert(self.inv_reasons());
        }
        let fl = self.first_learned_position();
        self.first_learned_idx = fl;
        self.rebuild_watches();
    }
}

impl CDCLSolver {
    /// Adds variable `num_vars + 1`: unassigned, phase `true`, activity 0,
    /// with empty watch lists, and puts it into the order heap.
    fn add_var(&mut self)
        requires
            old(self).inv(),
            old(self).num_vars < 0x3fff_fff0,
        ensures
            final(self).inv(),
            final(self).num_vars == old(self).num_vars + 1,
            final(self).formula() == old(self).formula(),
            final(self).input == old(self).input,
            final(self).arena == old(self).arena,
            final(self).clause_refs == old(self).clause_refs,
            final(self).first_learned_idx == old(self).first_learned_idx,
            final(self).decision_level == old(self).decision_level,
            final(self).trail == old(self).trail,
            final(self).initial_conflict == old(self).initial_conflict,
            final(self).values@ == old(self).values@.push(0i8),
            forall|v: int| 0 <= v <= old(self).num_vars ==> #[trigger] final(self).level(v) == old(self).level(v),
    {
        let ghost s0 = *self;
        self.values.push(0i8);
        self.assignments.push(Assignment { decision_level: -1, antecedent: CREF_UNDEF });
        self.saved_phase.push(true);
        self.seen.push(false);
        self.watches.push(Vec::new());
        self.watches.push(Vec::new());
        self.bin_implies.push(Vec::new());
        self.bin_implies.push(Vec::new());
        proof {
            self.tpos@ = self.tpos@.push(0int);
        }
        let nv = self.num_vars + 1;
        self.var_heap.insert(nv);
        self.num_vars = nv;
        proof {
            let n0 = s0.num_vars as int;
            let n = nv as int;
            assert forall|cr: CRef| #[trigger] self.arena.valid(cr) implies clause_in_range(self.clits(cr), n)
                && entails(self.formula(), self.clits(cr)) by {
                assert(s0.arena.valid(cr));
                assert(clause_in_range(s0.clits(cr), n0));
            }
            assert forall|j: int| 0 <= j < self.formula().len() implies #[trigger] clause_in_range(
                self.formula()[j],
                n,
            ) by {
                assert(clause_in_range(s0.formula()[j], n0));
            }
            assert(self.inv_arena());
            assert forall|i: int, j: int|
                0 <= i < self.watches@.len() && 0 <= j < self.watches@[i]@.len() implies {
                    let w = #[trigger] self.watches@[i]@[j];
                    self.arena.valid(w.cref) && in_range(w.blocker as int, n)
                } by {
                assert(i < s0.watches@.len());
                assert(self.watches@[i] == s0.watches@[i]);
            }
            assert forall|i: int, j: int|
                0 <= i < self.bin_implies@.len() && 0 <= j < self.bin_implies@[i]@.len() implies {
                    let e = #[trigger] self.bin_implies@[i]@[j];
                    self.arena.valid(e.1) && in_range(e.0 as int, n)
                } by {
                assert(i < s0.bin_implies@.len());
                assert(self.bin_implies@[i] == s0.bin_implies@[i]);
            }
            assert(self.inv_watches());
            assert forall|i: int| 0 <= i < self.trail@.len() implies in_range(#[trigger] self.trail@[i] as int, n)
                && self.tpos@[var_of(self.trail@[i] as int)] == i && self.lv(self.trail@[i] as int) == 1 by {
                assert(in_range(s0.trail@[i] as int, n0));
                assert(s0.lv(s0.trail@[i] as int) == 1);
            }
            assert forall|v: int| 1 <= v <= n && #[trigger] self.values@[v] != 0 implies 0 <= self.tpos@[v]
                < self.trail@.len() && var_of(self.trail@[self.tpos@[v]] as int) == v by {
                assert(v <= n0);
                assert(s0.values@[v] != 0);
            }
            assert(self.inv_trail());
            assert forall|v: int| 1 <= v <= n && #[trigger] self.values@[v] != 0 implies 0 <= self.level(v)
                <= self.decision_level by {
                assert(s0.values@[v] != 0);
            }
            assert forall|i: int, k: int|
                0 <= i < self.trail@.len() && 0 <= k < self.trail_lim@.len() implies ((i
                    < #[trigger] self.trail_lim@[k]) == (self.level(var_of(#[trigger] self.trail@[i] as int))
                    <= k)) by {
                assert(in_range(s0.trail@[i] as int, n0));
                assert((i < s0.trail_lim@[k]) == (s0.level(var_of(s0.trail@[i] as int)) <= k));
            }
            assert(self.inv_levels());
            assert forall|v: int| 1 <= v <= n && #[trigger] self.values@[v] != 0 && self.level(v) == 0 implies entails(
                self.formula(),
                seq![self.tlit(v)],
            ) by {
                assert(s0.values@[v] != 0);
                assert(s0.tlit(v) == self.tlit(v));
            }
            assert forall|v: int| 1 <= v <= n && #[trigger] self.values@[v] != 0 && self.ant(v) != CREF_UNDEF
                implies self.reason_ok(v) by {
                assert(s0.values@[v] != 0);
                assert(s0.reason_ok(v));
                let c = self.clits(self.ant(v));
                assert forall|k: int| 0 <= k < c.len() implies #[trigger] c[k] == self.tlit(v) || (self.lv(c[k])
                    == -1 && self.tpos@[var_of(c[k])] < self.tpos@[v]) by {
                    assert(clause_in_range(s0.clits(s0.ant(v)), n0));
                    assert(c[k] == s0.tlit(v) || (s0.lv(c[k]) == -1 && s0.tpos@[var_of(c[k])] < s0.tpos@[v]));
                }
            }
            assert(self.inv_reasons());
            assert(self.seen_clear());
        }
    }
}


/// Largest variable among signed literals (0 for none).
pub open spec fn signed_max_var(s: Seq<i32>) -> int
    decreases s.len(),
{
    if s.len() == 0 {
        0
    } else {
        let m = signed_max_var(s.drop_last());
        let v = var_of(s.last() as int);
        if v > m {
            v
        } else {
            m
        }
    }
}

/// Position class of a literal value when a new clause is ordered: true
/// literals first, then unassigned ones, then false ones.
pub open spec fn value_rank(v: int) -> int {
    if v == 1 {
        0
    } else if v == 0 {
        1
    } else {
        2
    }
}

/// Adding a clause to an unsatisfiable formula keeps it unsatisfiable.
pub proof fn lemma_unsat_push(f: Seq<Seq<int>>, d: Seq<int>)
    requires
        !satisfiable(f),
    ensures
        !satisfiable(f.push(d)),
{
    if satisfiable(f.push(d)) {
        let a = choose|a: spec_fn(int) -> bool| #[trigger] formula_sat(a, f.push(d));
        assert forall|i: int| 0 <= i < f.len() implies #[trigger] clause_sat(a, f[i]) by {
            assert(f.push(d)[i] == f[i]);
        }
        assert(formula_sat(a, f));
    }
}

/// A formula holding a clause whose literals it all refutes is
/// unsatisfiable (the empty clause in particular).
pub proof fn lemma_refuted_clause(f: Seq<Seq<int>>, i: int)
    requires
        0 <= i < f.len(),
        forall|k: int| 0 <= k < f[i].len() ==> #[trigger] f[i][k] != 0 && entails(f, seq![-f[i][k]]),
    ensures
        !satisfiable(f),
{
    if satisfiable(f) {
        let a = choose|a: spec_fn(int) -> bool| #[trigger] formula_sat(a, f);
        assert(clause_sat(a, f[i]));
        let k = choose|k: int| 0 <= k < f[i].len() && #[trigger] lit_true(a, f[i][k]);
        assert(entails(f, seq![-f[i][k]]));
        assert(clause_sat(a, seq![-f[i][k]]));
        assert(lit_true(a, seq![-f[i][k]][0]));
    }
}

/// A clause is entailed when a clause all of whose literals it contains is.
pub proof fn lemma_entails_superset(f: Seq<Seq<int>>, c: Seq<int>, d: Seq<int>)
    requires
        entails(f, c),
        forall|k: int| 0 <= k < c.len() ==> d.contains(#[trigger] c[k]),
    ensures
        entails(f, d),
{
    assert forall|a: spec_fn(int) -> bool| #[trigger] formula_sat(a, f) implies clause_sat(a, d) by {
        assert(clause_sat(a, c));
        let k = choose|k: int| 0 <= k < c.len() && #[trigger] lit_true(a, c[k]);
        assert(d.contains(c[k]));
        let j = choose|j: int| 0 <= j < d.len() && d[j] == c[k];
        assert(lit_true(a, d[j]));
    }
}

impl CDCLSolver {
    /// At decision level 0 a false literal is refuted by the formula.
    proof fn lemma_false_at_root(&self, x: int)
        requires
            self.inv(),
            self.decision_level == 0,
            in_range(x, self.num_vars as int),
            self.lv(x) == -1,
        ensures
            entails(self.formula(), seq![-x]),
    {
        let v = var_of(x);
        assert(self.values@[v] != 0);
        assert(self.level(v) == 0);
        assert(self.tlit(v) == -x);
    }

    /// Appends a clause to the formula; the rest of the state is kept.
    fn push_input(&mut self, c: Vec<i32>)
        requires
            old(self).inv(),
            clause_in_range(ints(c@), old(self).num_vars as int),
        ensures
            final(self).inv(),
            final(self).formula() == old(self).formula().push(ints(c@)),
            final(self).input@ == old(self).input@.push(c),
            final(self).arena == old(self).arena,
            final(self).clause_refs == old(self).clause_refs,
            final(self).num_vars == old(self).num_vars,
            final(self).values == old(self).values,
            final(self).assignments == old(self).assignments,
            final(self).trail == old(self).trail,
            final(self).trail_lim == old(self).trail_lim,
            final(self).decision_level == old(self).decision_level,
            final(self).qhead == old(self).qhead,
            final(self).tpos == old(self).tpos,
            final(self).watches == old(self).watches,
            final(self).bin_implies == old(self).bin_implies,
            final(self).initial_conflict == old(self).initial_conflict,
            final(self).first_learned_idx == old(self).first_learned_idx,
    {
        let ghost s0 = *self;
        let ghost f0 = s0.formula();
        let ghost d = ints(c@);
        self.input.push(c);
        proof {
            let n = self.num_vars as int;
            assert(self.formula() =~= f0.push(d));
            assert forall|cr: CRef| #[trigger] self.arena.valid(cr) implies clause_in_range(self.clits(cr), n)
                && entails(self.formula(), self.clits(cr)) by {
                assert(s0.arena.valid(cr));
                lemma_entails_push(f0, s0.clits(cr), d);
            }
            assert forall|j: int| 0 <= j < self.formula().len() implies #[trigger] clause_in_range(
                self.formula()[j],
                n,
            ) by {
                if j < f0.len() {
                    assert(self.formula()[j] == f0[j]);
                }
            }
            assert(self.inv_arena());
            assert forall|v: int| 1 <= v <= n && #[trigger] self.values@[v] != 0 && self.level(v) == 0 implies entails(
                self.formula(),
                seq![self.tlit(v)],
            ) by {
                assert(s0.values@[v] != 0);
                lemma_entails_push(f0, seq![s0.tlit(v)], d);
            }
            assert forall|v: int| 1 <= v <= n && #[trigger] self.values@[v] != 0 && self.ant(v) != CREF_UNDEF
                implies self.reason_ok(v) by {
                assert(s0.reason_ok(v));
            }
            assert(self.inv_reasons());
            if self.initial_conflict {
                lemma_unsat_push(f0, d);
            }
            assert(self.inv_misc());
        }
    }

    /// Orders literals for watching: true ones first, then unassigned ones,
    /// then false ones, each group in the given order.
    fn order_by_value(&self, lits: &[i32]) -> (s: Vec<i32>)
        requires
            self.inv(),
            forall|k: int| 0 <= k < lits@.len() ==> in_range(#[trigger] lits@[k] as int, self.num_vars as int),
        ensures
            s@.len() == lits@.len(),
            forall|j: int| 0 <= j < s@.len() ==> lits@.contains(#[trigger] s@[j]),
            forall|k: int| 0 <= k < lits@.len() ==> s@.contains(#[trigger] lits@[k]),
            forall|i: int, j: int|
                0 <= i <= j < s@.len() ==> value_rank(self.lv(#[trigger] s@[i] as int)) <= value_rank(
                    self.lv(#[trigger] s@[j] as int),
                ),
    {
        let ghost n = self.num_vars as int;
        let mut t: Vec<i32> = Vec::new();
        let mut u: Vec<i32> = Vec::new();
        let mut f: Vec<i32> = Vec::new();
        let mut i: usize = 0;
        while i < lits.len()
            invariant
                self.inv(),
                n == self.num_vars,
                i <= lits@.len(),
                forall|k: int| 0 <= k < lits@.len() ==> in_range(#[trigger] lits@[k] as int, n),
                t@.len() + u@.len() + f@.len() == i,
                forall|j: int| 0 <= j < t@.len() ==> lits@.contains(#[trigger] t@[j]) && self.lv(t@[j] as int) == 1,
                forall|j: int| 0 <= j < u@.len() ==> lits@.contains(#[trigger] u@[j]) && self.lv(u@[j] as int) == 0,
                forall|j: int| 0 <= j < f@.len() ==> lits@.contains(#[trigger] f@[j]) && self.lv(f@[j] as int) == -1,
                forall|k: int|
                    0 <= k < i ==> t@.contains(#[trigger] lits@[k]) || u@.contains(lits@[k]) || f@.contains(
                        lits@[k],
                    ),
            decreases lits@.len() - i,
        {
            let lit = lits[i];
            proof {
                assert(in_range(lit as int, n));
                assert(-1 <= self.values@[var_of(lit as int)] <= 1);
                assert(lits@.contains(lits@[i as int]));
            }
            let v = self.lit_value(lit);
            let ghost t0 = t@;
            let ghost u0 = u@;
            let ghost f0 = f@;
            if v == 1 {
                t.push(lit);
            } else if v == 0 {
                u.push(lit);
            } else {
                f.push(lit);
            }
            proof {
                assert forall|k: int| 0 <= k < i + 1 implies t@.contains(#[trigger] lits@[k]) || u@.contains(
                    lits@[k],
                ) || f@.contains(lits@[k]) by {
                    if k < i {
                        if t0.contains(lits@[k]) {
                            let j = choose|j: int| 0 <= j < t0.len() && t0[j] == lits@[k];
                            assert(t@[j] == t0[j]);
                        } else if u0.contains(lits@[k]) {
                            let j = choose|j: int| 0 <= j < u0.len() && u0[j] == lits@[k];
                            assert(u@[j] == u0[j]);
                        } else {
                            let j = choose|j: int| 0 <= j < f0.len() && f0[j] == lits@[k];
                            assert(f@[j] == f0[j]);
                        }
                    } else {
                        if v == 1 {
                            assert(t@[t@.len() - 1] == lit);
                        } else if v == 0 {
                            assert(u@[u@.len() - 1] == lit);
                        } else {
                            assert(f@[f@.len() - 1] == lit);
                        }
                    }
                }
            }
            i = i + 1;
        }
        let ghost ts = t@;
        let ghost us = u@;
        let ghost fs = f@;
        t.append(&mut u);
        t.append(&mut f);
        proof {
            let s = t@;
            assert(s =~= ts + us + fs);
            assert forall|j: int| 0 <= j < s.len() implies lits@.contains(#[trigger] s[j]) by {
                if j < ts.len() {
                    assert(s[j] == ts[j]);
                } else if j < ts.len() + us.len() {
                    assert(s[j] == us[j - ts.len()]);
                } else {
                    assert(s[j] == fs[j - ts.len() - us.len()]);
                }
            }
            assert forall|k: int| 0 <= k < lits@.len() implies s.contains(#[trigger] lits@[k]) by {
                if ts.contains(lits@[k]) {
                    let j = choose|j: int| 0 <= j < ts.len() && ts[j] == lits@[k];
                    assert(s[j] == ts[j]);
                } else if us.contains(lits@[k]) {
                    let j = choose|j: int| 0 <= j < us.len() && us[j] == lits@[k];
                    assert(s[ts.len() + j] == us[j]);
                } else {
                    assert(fs.contains(lits@[k]));
                    let j = choose|j: int| 0 <= j < fs.len() && fs[j] == lits@[k];
                    assert(s[ts.len() + us.len() + j] == fs[j]);
                }
            }
            assert forall|a: int, b: int| 0 <= a <= b < s.len() implies value_rank(
                self.lv(#[trigger] s[a] as int),
            ) <= value_rank(self.lv(#[trigger] s[b] as int)) by {
                let ra = if a < ts.len() {
                    assert(s[a] == ts[a]);
                    0int
                } else if a < ts.len() + us.len() {
                    assert(s[a] == us[a - ts.len()]);
                    1int
                } else {
                    assert(s[a] == fs[a - ts.len() - us.len()]);
                    2int
                };
                let rb = if b < ts.len() {
                    assert(s[b] == ts[b]);
                    0int
                } else if b < ts.len() + us.len() {
                    assert(s[b] == us[b - ts.len()]);
                    1int
                } else {
                    assert(s[b] == fs[b - ts.len() - us.len()]);
                    2int
                };
                assert(value_rank(self.lv(s[a] as int)) == ra);
                assert(value_rank(self.lv(s[b] as int)) == rb);
            }
        }
        t
    }

    /// Stores an entailed clause in the arena (without watches) and lists
    /// it among the live clauses.
    fn store_clause(&mut self, lits: &[i32], learnt: bool, lbd: u32) -> (cr: CRef)
        requires
            old(self).inv(),
            lits@.len() <= LEN_MASK,
            old(self).arena.words() + 3 + lits@.len() < u32::MAX,
            entails(old(self).formula(), ints(lits@)),
            clause_in_range(ints(lits@), old(self).num_vars as int),
        ensures
            final(self).inv(),
            final(self).arena.valid(cr),
            final(self).clits(cr) == ints(lits@),
            final(self).formula() == old(self).formula(),
            final(self).input == old(self).input,
            final(self).num_vars == old(self).num_vars,
            final(self).values == old(self).values,
            final(self).assignments == old(self).assignments,
            final(self).trail == old(self).trail,
            final(self).trail_lim == old(self).trail_lim,
            final(self).decision_level == old(self).decision_level,
            final(self).qhead == old(self).qhead,
            final(self).initial_conflict == old(self).initial_conflict,
            final(self).first_learned_idx == old(self).first_learned_idx,
            final(self).num_learned_alive == old(self).num_learned_alive,
            forall|x: CRef| old(self).arena.valid(x) ==> #[trigger] final(self).arena.valid(x),
    {
        let ghost s0 = *self;
        let ghost n = self.num_vars as int;
        let cr = self.arena.alloc_clause(lits, learnt, lbd);
        self.clause_refs.push(cr);
        proof {
            let f = self.formula();
            assert(self.clits(cr) == ints(lits@));
            assert forall|x: CRef| #[trigger] self.arena.valid(x) implies clause_in_range(self.clits(x), n)
                && entails(f, self.clits(x)) by {
                if x != cr {
                    assert(s0.arena.valid(x));
                    assert(self.clits(x) == s0.clits(x));
                }
            }
            assert forall|j: int| 0 <= j < self.clause_refs@.len() implies self.arena.valid(
                #[trigger] self.clause_refs@[j],
            ) by {
                if j < self.clause_refs@.len() - 1 {
                    assert(s0.arena.valid(s0.clause_refs@[j]));
                }
            }
            assert forall|v: int| 1 <= v <= n && #[trigger] self.values@[v] != 0 && self.ant(v)
                != CREF_UNDEF implies self.reason_ok(v) by {
                assert(s0.reason_ok(v));
                assert(self.clits(self.ant(v)) == s0.clits(self.ant(v)));
            }
            assert(self.inv_watches());
        }
        cr
    }
}


impl CDCLSolver {
    /// The solver is at decision level 0.
    pub closed spec fn at_root(&self) -> bool {
        self.decision_level == 0
    }

    /// Number of stored clauses that count as input clauses (the learned
    /// ones follow them).
    pub closed spec fn stored_input_count(&self) -> int {
        self.first_learned_idx as int
    }

    /// Number of live stored clauses.
    pub closed spec fn stored_count(&self) -> int {
        self.clause_refs@.len() as int
    }

    /// Learned-clause count above which the database is reduced.
    pub closed spec fn learned_limit(&self) -> int {
        self.max_learned as int
    }

    /// Conflicts per unit of the Luby restart sequence.
    pub closed spec fn restart_unit(&self) -> int {
        self.luby_unit as int
    }

    /// Creates a solver with variables `1..=num_vars` and no clauses, for
    /// incremental use: add clauses with `add_raw_clause`, call `solve`, then
    /// add more clauses and call `solve` again.
    pub fn new_incremental(num_vars: i32) -> (s: Self)
        requires
            0 <= num_vars < 0x3fff_fff0,
        ensures
            s.inv(),
            s.formula() == Seq::<Seq<int>>::empty(),
            s.nvars() == num_vars,
            s.at_root(),
    {
        let mut s = Self::new(Vec::new());
        proof {
            assert(drop_empty(clauses_formula(Seq::<Clause>::empty())) =~= Seq::<Seq<int>>::empty());
        }
        while s.num_vars < num_vars
            invariant
                s.inv(),
                s.formula() == Seq::<Seq<int>>::empty(),
                0 <= s.num_vars <= num_vars < 0x3fff_fff0,
                s.at_root(),
            decreases num_vars - s.num_vars,
        {
            s.add_var();
        }
        s
    }

    /// Adds a clause given as signed literals.  The clause joins the formula
    /// that later calls of `solve` decide; variables beyond the current ones
    /// are created, and each variable of the clause gains initial activity.
    /// The solver first returns to decision level 0.  An empty clause, or one
    /// whose literals are all false at level 0, makes the formula
    /// unsatisfiable; one with a single literal not yet false there assigns
    /// that literal.
    pub fn add_raw_clause(&mut self, lits: &[i32])
        requires
            old(self).inv(),
            forall|k: int|
                0 <= k < lits@.len() ==> #[trigger] lits@[k] != 0 && -0x3fff_fff0 < lits@[k] < 0x3fff_fff0,
        ensures
            final(self).inv(),
            final(self).formula() == old(self).formula().push(ints(lits@)),
            final(self).nvars() == if signed_max_var(lits@) > old(self).nvars() {
                signed_max_var(lits@)
            } else {
                old(self).nvars()
            },
            final(self).at_root(),
    {
        if self.decision_level > 0 {
            self.backtrack(0);
        }
        let ghost f0 = self.formula();
        let ghost n0 = self.num_vars as int;
        let mut i: usize = 0;
        while i < lits.len()
            invariant
                self.inv(),
                self.formula() == f0,
                self.decision_level == 0,
                i <= lits@.len(),
                forall|k: int|
                    0 <= k < lits@.len() ==> #[trigger] lits@[k] != 0 && -0x3fff_fff0 < lits@[k] < 0x3fff_fff0,
                self.num_vars as int == if signed_max_var(lits@.subrange(0, i as int)) > n0 {
                    signed_max_var(lits@.subrange(0, i as int))
                } else {
                    n0
                },
                0 <= n0,
            decreases lits@.len() - i,
        {
            let lit = lits[i];
            let var: i32 = if lit < 0 { -lit } else { lit };
            let ghost nb = self.num_vars as int;
            proof {
                assert(lits@.subrange(0, i as int + 1).drop_last() =~= lits@.subrange(0, i as int));
                assert(lits@.subrange(0, i as int + 1).last() == lit);
            }
            while self.num_vars < var
                invariant
                    self.inv(),
                    self.formula() == f0,
                    self.decision_level == 0,
                    0 < var < 0x3fff_fff0,
                    nb <= self.num_vars,
                    self.num_vars <= nb || self.num_vars <= var,
                decreases var - self.num_vars,
            {
                self.add_var();
            }
            proof {
                self.var_heap.lemma_act_len();
            }
            let a = self.var_heap.activity_of(var as usize);
            self.var_heap.raise_activity(var, a.saturating_add(VAR_INC_UNIT));
            i = i + 1;
        }
        proof {
            assert(lits@.subrange(0, lits@.len() as int) =~= lits@);
        }
        let ghost n = self.num_vars as int;
        let c: Vec<i32> = vstd::slice::slice_to_vec(lits);
        proof {
            assert forall|k: int| 0 <= k < lits@.len() implies in_range(#[trigger] lits@[k] as int, n) by {
                lemma_signed_max_var_bound(lits@, k);
            }
        }
        self.push_input(c);
        let ghost f = self.formula();
        let ghost d = ints(lits@);
        proof {
            assert(f == f0.push(d));
            lemma_entails_member(f, f.len() - 1);
            assert(f[f.len() - 1] == d);
        }
        if lits.len() == 0 {
            proof {
                lemma_refuted_clause(f, f.len() - 1);
            }
            self.initial_conflict = true;
            return;
        }
        if lits.len() == 1 {
            let lit = lits[0];
            proof {
                assert(in_range(lit as int, n));
                assert(d =~= seq![lit as int]);
            }
            let v = self.lit_value(lit);
            if v == 0 {
                self.assign(lit, None);
            } else if v == -1 {
                proof {
                    self.lemma_false_at_root(lit as int);
                    lemma_contradictory_units(f, lit as int);
                }
                self.initial_conflict = true;
            }
            if self.learned_fits(1) {
                self.store_clause(lits, false, 0);
            }
            return;
        }
        let sorted = self.order_by_value(lits);
        proof {
            assert forall|k: int| 0 <= k < d.len() implies ints(sorted@).contains(#[trigger] d[k]) by {
                assert(sorted@.contains(lits@[k]));
                let j = choose|j: int| 0 <= j < sorted@.len() && sorted@[j] == lits@[k];
                assert(ints(sorted@)[j] == d[k]);
            }
            lemma_entails_superset(f, d, ints(sorted@));
            assert forall|j: int| 0 <= j < sorted@.len() implies in_range(#[trigger] sorted@[j] as int, n) by {
                assert(lits@.contains(sorted@[j]));
            }
        }
        let first_val = self.lit_value(sorted[0]);
        let second_val = self.lit_value(sorted[1]);
        let ghost fs = ints(sorted@);
        if first_val == -1 {
            proof {
                assert forall|j: int| 0 <= j < d.len() implies #[trigger] d[j] != 0 && entails(f, seq![-d[j]]) by {
                    assert(sorted@.contains(lits@[j]));
                    let m = choose|m: int| 0 <= m < sorted@.len() && sorted@[m] == lits@[j];
                    assert(in_range(sorted@[m] as int, n));
                    assert(-1 <= self.values@[var_of(sorted@[m] as int)] <= 1);
                    assert(value_rank(self.lv(sorted@[0] as int)) <= value_rank(self.lv(sorted@[m] as int)));
                    self.lemma_false_at_root(lits@[j] as int);
                }
                lemma_refuted_clause(f, f.len() - 1);
            }
            self.initial_conflict = true;
        }
        let fits = self.learned_fits(sorted.len());
        if first_val == 0 && second_val == -1 {
            let l0 = sorted[0];
            proof {
                assert forall|j: int| 0 <= j < sorted@.len() && sorted@[j] != l0 implies self.lv(
                    #[trigger] sorted@[j] as int,
                ) == -1 by {
                    assert(in_range(sorted@[j] as int, n));
                    assert(-1 <= self.values@[var_of(sorted@[j] as int)] <= 1);
                    if j >= 1 {
                        assert(value_rank(self.lv(sorted@[1] as int)) <= value_rank(self.lv(sorted@[j] as int)));
                    } else {
                        assert(sorted@[j] == l0);
                    }
                }
            }
            if fits {
                let cr = self.store_clause(sorted.as_slice(), false, 0);
                proof {
                    assert(self.clits(cr) == fs);
                    assert forall|k: int| 0 <= k < self.clits(cr).len() implies #[trigger] self.clits(cr)[k] == l0
                        || self.lv(self.clits(cr)[k]) == -1 by {
                        assert(fs[k] == sorted@[k]);
                    }
                    self.arena.lemma_wf();
                }
                self.assign(l0, Some(cr));
                self.attach_clause(cr);
            } else {
                proof {
                    assert forall|k: int| 0 <= k < fs.len() && fs[k] != l0 implies entails(
                        f,
                        seq![-(#[trigger] fs[k])],
                    ) by {
                        assert(fs[k] == sorted@[k]);
                        self.lemma_false_at_root(sorted@[k] as int);
                    }
                    lemma_unit_resolution(f, fs, l0 as int);
                }
                self.assign(l0, None);
            }
        } else if fits {
            let cr = self.store_clause(sorted.as_slice(), false, 0);
            self.attach_clause(cr);
        }
    }

    /// Returns to decision level 0 and counts every clause stored so far as
    /// an input clause, before `solve` is called again.
    pub fn prepare_for_resolve(&mut self)
        requires
            old(self).inv(),
        ensures
            final(self).inv(),
            final(self).formula() == old(self).formula(),
            final(self).nvars() == old(self).nvars(),
            final(self).at_root(),
            final(self).stored_input_count() == final(self).stored_count(),
    {
        if self.decision_level > 0 {
            self.backtrack(0);
        }
        self.first_learned_idx = self.clause_refs.len();
    }

    /// Tunes the search for formulas that are mostly satisfiable: a larger
    /// learned-clause limit, a longer restart unit, and each variable's
    /// saved phase set to its more frequent polarity in the live clauses.
    pub fn tune_for_sat(&mut self)
        requires
            old(self).inv(),
        ensures
            final(self).inv(),
            final(self).formula() == old(self).formula(),
            final(self).nvars() == old(self).nvars(),
            forall|v: int| #[trigger] final(self).val(v) == old(self).val(v),
            final(self).learned_limit() == old(self).stored_input_count() / 2 + 10000,
            final(self).restart_unit() == 512,
    {
        self.max_learned = self.first_learned_idx / 2 + 10000;
        self.luby_unit = 512;
        let nv = self.num_vars as usize;
        let mut pos: Vec<u32> = vec_of(nv + 1, 0u32);
        let mut neg: Vec<u32> = vec_of(nv + 1, 0u32);
        let mut i: usize = 0;
        while i < self.clause_refs.len()
            invariant
                self.inv(),
                nv == self.num_vars,
                pos@.len() == nv + 1,
                neg@.len() == nv + 1,
            decreases self.clause_refs@.len() - i,
        {
            let cr = self.clause_refs[i];
            i = i + 1;
            if self.arena.is_deleted(cr) {
                continue;
            }
            proof {
                self.arena.lemma_wf();
            }
            let len = self.arena.len(cr);
            let mut k: usize = 0;
            while k < len
                invariant
                    self.inv(),
                    self.arena.valid(cr),
                    len == self.clits(cr).len(),
                    nv == self.num_vars,
                    pos@.len() == nv + 1,
                    neg@.len() == nv + 1,
                decreases len - k,
            {
                let lit = self.arena.lit(cr, k);
                proof {
                    assert(clause_in_range(self.clits(cr), nv as int));
                    assert(self.clits(cr)[k as int] == lit);
                }
                if lit > 0 {
                    let v = lit as usize;
                    let c = pos[v];
                    pos.set(v, c.saturating_add(1));
                } else {
                    let v = (-lit) as usize;
                    let c = neg[v];
                    neg.set(v, c.saturating_add(1));
                }
                k = k + 1;
            }
        }
        let mut v: usize = 1;
        while v <= nv
            invariant
                self.inv(),
                nv == self.num_vars,
                pos@.len() == nv + 1,
                neg@.len() == nv + 1,
                self.formula() == old(self).formula(),
                self.values == old(self).values,
                self.max_learned == old(self).first_learned_idx / 2 + 10000,
                self.luby_unit == 512,
                1 <= v,
            decreases nv + 1 - v,
        {
            let phase = pos[v] >= neg[v];
            self.saved_phase.set(v, phase);
            v = v + 1;
        }
    }
}

/// Each literal's variable is at most the largest variable.
pub proof fn lemma_signed_max_var_bound(s: Seq<i32>, k: int)
    requires
        0 <= k < s.len(),
    ensures
        var_of(s[k] as int) <= signed_max_var(s),
        0 <= signed_max_var(s),
    decreases s.len(),
{
    if k < s.len() - 1 {
        lemma_signed_max_var_bound(s.drop_last(), k);
        assert(s.drop_last()[k] == s[k]);
    } else if s.len() > 1 {
        lemma_signed_max_var_bound(s.drop_last(), 0);
    }
}


impl CDCLSolver {
    /// Every assumption (an assigned variable of a positive level without an
    /// antecedent) is true in `a`.
    pub closed spec fn assumptions_hold(&self, a: spec_fn(int) -> bool) -> bool {
        forall|v: int|
            1 <= v <= self.num_vars && self.values@[v] != 0 && self.ant(v) == CREF_UNDEF && self.level(v)
                > 0 ==> lit_true(a, #[trigger] self.tlit(v))
    }

    /// Every assumption is the negation of a literal of `d`.
    pub closed spec fn assumptions_within(&self, d: Seq<int>) -> bool {
        forall|v: int|
            1 <= v <= self.num_vars && #[trigger] self.values@[v] != 0 && self.ant(v) == CREF_UNDEF
                && self.level(v) > 0 ==> d.contains(-self.tlit(v))
    }

    /// In a model of the formula in which the assumptions hold, every
    /// assigned variable takes its trail value.
    proof fn lemma_trail_implied(&self, a: spec_fn(int) -> bool, u: int)
        requires
            self.inv(),
            formula_sat(a, self.formula()),
            self.assumptions_hold(a),
            1 <= u <= self.num_vars,
            self.values@[u] != 0,
        ensures
            lit_true(a, self.tlit(u)),
        decreases self.tpos@[u],
    {
        let n = self.num_vars as int;
        if self.ant(u) == CREF_UNDEF {
            if self.level(u) == 0 {
                assert(entails(self.formula(), seq![self.tlit(u)]));
                assert(clause_sat(a, seq![self.tlit(u)]));
                assert(lit_true(a, seq![self.tlit(u)][0]));
            }
        } else {
            assert(self.reason_ok(u));
            let c = self.clits(self.ant(u));
            assert(entails(self.formula(), c));
            assert(clause_sat(a, c));
            let k = choose|k: int| 0 <= k < c.len() && #[trigger] lit_true(a, c[k]);
            if c[k] != self.tlit(u) {
                let w = var_of(c[k]);
                assert(clause_in_range(c, n));
                assert(c[k] != 0 && -n <= c[k] <= n);
                assert(self.lv(c[k]) == -1);
                assert(self.values@[w] != 0);
                assert(self.tlit(w) == -c[k]);
                assert(0 <= self.tpos@[w] < self.tpos@[u]);
                self.lemma_trail_implied(a, w);
            }
        }
    }

    /// When the assumptions are negations of literals of `d`, a model of
    /// the formula that falsifies `d` makes every trail literal true.
    proof fn lemma_assumptions_from(&self, a: spec_fn(int) -> bool, d: Seq<int>)
        requires
            self.inv(),
            self.assumptions_within(d),
            forall|k: int| 0 <= k < d.len() ==> !lit_true(a, #[trigger] d[k]) && d[k] != 0,
        ensures
            self.assumptions_hold(a),
    {
        let n = self.num_vars as int;
        assert forall|v: int|
            1 <= v <= n && self.values@[v] != 0 && self.ant(v) == CREF_UNDEF && self.level(v) > 0 implies lit_true(
            a,
            #[trigger] self.tlit(v),
        ) by {
            assert(d.contains(-self.tlit(v)));
            let k = choose|k: int| 0 <= k < d.len() && d[k] == -self.tlit(v);
            assert(!lit_true(a, d[k]));
        }
    }

    /// Probing shows `d` when an entailed clause has only literals that are
    /// false or belong to `d`, or when `d` has a literal that is true.
    proof fn lemma_probe_entails(&self, d: Seq<int>, c: Seq<int>)
        requires
            self.inv(),
            self.assumptions_within(d),
            forall|k: int| 0 <= k < d.len() ==> in_range(#[trigger] d[k], self.num_vars as int),
            forall|k: int| 0 <= k < c.len() ==> in_range(#[trigger] c[k], self.num_vars as int),
            (entails(self.formula(), c) && forall|k: int|
                0 <= k < c.len() ==> self.lv(#[trigger] c[k]) == -1 || d.contains(c[k])) || exists|k: int|
                0 <= k < d.len() && self.lv(#[trigger] d[k]) == 1,
        ensures
            entails(self.formula(), d),
    {
        let n = self.num_vars as int;
        assert forall|a: spec_fn(int) -> bool| #[trigger] formula_sat(a, self.formula()) implies clause_sat(a, d) by {
            if !clause_sat(a, d) {
                assert forall|k: int| 0 <= k < d.len() implies !lit_true(a, #[trigger] d[k]) && d[k] != 0 by {
                    assert(in_range(d[k], n));
                }
                self.lemma_assumptions_from(a, d);
                if exists|k: int| 0 <= k < d.len() && self.lv(#[trigger] d[k]) == 1 {
                    let k = choose|k: int| 0 <= k < d.len() && self.lv(#[trigger] d[k]) == 1;
                    let w = var_of(d[k]);
                    assert(in_range(d[k], n));
                    assert(self.values@[w] != 0);
                    assert(self.tlit(w) == d[k]);
                    self.lemma_trail_implied(a, w);
                } else {
                    assert(clause_sat(a, c));
                    let k = choose|k: int| 0 <= k < c.len() && #[trigger] lit_true(a, c[k]);
                    assert(in_range(c[k], n));
                    if self.lv(c[k]) == -1 {
                        let w = var_of(c[k]);
                        assert(self.values@[w] != 0);
                        assert(self.tlit(w) == -c[k]);
                        self.lemma_trail_implied(a, w);
                    } else {
                        assert(d.contains(c[k]));
                        let j = choose|j: int| 0 <= j < d.len() && d[j] == c[k];
                        assert(!lit_true(a, d[j]));
                    }
                }
            }
        }
    }

    /// Index of the first literal of `lits` from position `from` on that is
    /// true.
    fn first_true(&self, lits: &Vec<i32>, from: usize) -> (r: Option<usize>)
        requires
            self.inv(),
            forall|k: int| 0 <= k < lits@.len() ==> in_range(#[trigger] lits@[k] as int, self.num_vars as int),
        ensures
            match r {
                Some(j) => from <= j < lits@.len() && self.lv(lits@[j as int] as int) == 1,
                None => forall|k: int| from <= k < lits@.len() ==> self.lv(#[trigger] lits@[k] as int) != 1,
            },
    {
        let mut j: usize = from;
        if j > lits.len() {
            return None;
        }
        while j < lits.len()
            invariant
                self.inv(),
                from <= j <= lits@.len(),
                forall|k: int| 0 <= k < lits@.len() ==> in_range(#[trigger] lits@[k] as int, self.num_vars as int),
                forall|k: int| from <= k < j ==> self.lv(#[trigger] lits@[k] as int) != 1,
            decreases lits@.len() - j,
        {
            if self.lit_value(lits[j]) == 1 {
                return Some(j);
            }
            j = j + 1;
        }
        None
    }

    /// Probes clause `lits` at a fresh decision level: assumes the negation
    /// of each literal in turn and propagates.  Returns the literals kept,
    /// and whether the clause is satisfied (a literal found true before it is
    /// assumed).  A literal found false is dropped; a conflict ends the
    /// probe with the literal just assumed kept; a later literal of the
    /// clause becoming true ends it with that literal kept too.  Unless the
    /// clause is satisfied, the kept literals form a clause the formula
    /// entails.  The solver returns to decision level 0.
    fn probe_clause(&mut self, lits: &Vec<i32>) -> (r: (Vec<i32>, bool))
        requires
            old(self).inv(),
            old(self).decision_level == 0,
            entails(old(self).formula(), ints(lits@)),
            forall|k: int| 0 <= k < lits@.len() ==> in_range(#[trigger] lits@[k] as int, old(self).num_vars as int),
        ensures
            final(self).inv(),
            final(self).decision_level == 0,
            final(self).formula() == old(self).formula(),
            final(self).num_vars == old(self).num_vars,
            final(self).input == old(self).input,
            final(self).clause_refs == old(self).clause_refs,
            final(self).first_learned_idx == old(self).first_learned_idx,
            final(self).num_learned_alive == old(self).num_learned_alive,
            final(self).initial_conflict == old(self).initial_conflict,
            final(self).arena.clauses().dom() == old(self).arena.clauses().dom(),
            forall|x: CRef| old(self).arena.valid(x) ==> #[trigger] final(self).arena.clauses()[x as int].deleted
                == old(self).arena.clauses()[x as int].deleted && final(self).arena.clauses()[x as int].learnt
                == old(self).arena.clauses()[x as int].learnt,
            r.0@.len() <= lits@.len(),
            forall|j: int| 0 <= j < r.0@.len() ==> lits@.contains(#[trigger] r.0@[j]),
            !r.1 ==> entails(final(self).formula(), ints(r.0@)),
    {
        let ghost s0 = *self;
        let ghost f = self.formula();
        let ghost n = self.num_vars as int;
        let mut new_lits: Vec<i32> = Vec::new();
        let mut subsumed = false;
        let mut implied = false;
        let mut conflict = false;
        let mut conflict_cr: CRef = 0;
        self.open_level();
        proof {
            assert(self.assumptions_within(ints(new_lits@)));
        }
        let mut i: usize = 0;
        while i < lits.len()
            invariant_except_break
                new_lits@.len() <= i,
                !subsumed && !conflict && !implied,
            invariant
                self.inv(),
                self.decision_level == 1,
                self.formula() == f,
                self.num_vars == n,
                self.input == s0.input,
                self.clause_refs == s0.clause_refs,
                self.first_learned_idx == s0.first_learned_idx,
                self.num_learned_alive == s0.num_learned_alive,
                self.initial_conflict == s0.initial_conflict,
                same_meta(self.arena, s0.arena),
                f == s0.formula(),
                n == s0.num_vars,
                i <= lits@.len(),
                entails(f, ints(lits@)),
                forall|k: int| 0 <= k < lits@.len() ==> in_range(#[trigger] lits@[k] as int, n),
                forall|j: int| 0 <= j < new_lits@.len() ==> lits@.contains(#[trigger] new_lits@[j]),
                self.assumptions_within(ints(new_lits@)),
                forall|k: int| 0 <= k < i ==> self.lv(#[trigger] lits@[k] as int) == -1,
            ensures
                self.inv(),
                self.decision_level == 1,
                self.formula() == f,
                self.num_vars == n,
                self.input == s0.input,
                self.clause_refs == s0.clause_refs,
                self.first_learned_idx == s0.first_learned_idx,
                self.num_learned_alive == s0.num_learned_alive,
                self.initial_conflict == s0.initial_conflict,
                same_meta(self.arena, s0.arena),
                new_lits@.len() <= lits@.len(),
                forall|j: int| 0 <= j < new_lits@.len() ==> lits@.contains(#[trigger] new_lits@[j]),
                self.assumptions_within(ints(new_lits@)),
                conflict ==> self.arena.valid(conflict_cr) && forall|k: int|
                    0 <= k < self.clits(conflict_cr).len() ==> self.lv(#[trigger] self.clits(conflict_cr)[k])
                        == -1,
                implied ==> exists|k: int|
                    0 <= k < ints(new_lits@).len() && self.lv(#[trigger] ints(new_lits@)[k]) == 1,
                !subsumed && !conflict && !implied ==> forall|k: int|
                    0 <= k < lits@.len() ==> self.lv(#[trigger] lits@[k] as int) == -1,
            decreases lits@.len() - i,
        {
            let lit = lits[i];
            proof {
                assert(in_range(lit as int, n));
                assert(lits@.contains(lits@[i as int]));
            }
            let val = self.lit_value(lit);
            if val == 1 {
                subsumed = true;
                break;
            }
            if val == -1 {
                i = i + 1;
                continue;
            }
            let ghost pre = *self;
            let ghost nl0 = new_lits@;
            self.assign(-lit, None);
            new_lits.push(lit);
            proof {
                let d = ints(new_lits@);
                assert forall|v: int|
                    1 <= v <= n && #[trigger] self.values@[v] != 0 && self.ant(v) == CREF_UNDEF && self.level(v)
                        > 0 implies d.contains(-self.tlit(v)) by {
                    if v == var_of(lit as int) {
                        assert(d[d.len() - 1] == lit as int);
                    } else {
                        assert(pre.values@[v] != 0);
                        assert(ints(nl0).contains(-pre.tlit(v)));
                        let j = choose|j: int| 0 <= j < ints(nl0).len() && ints(nl0)[j] == -pre.tlit(v);
                        assert(d[j] == ints(nl0)[j]);
                    }
                }
                assert forall|j: int| 0 <= j < new_lits@.len() implies lits@.contains(#[trigger] new_lits@[j]) by {
                    if j < nl0.len() {
                        assert(new_lits@[j] == nl0[j]);
                    }
                }
            }
            let ghost mid = *self;
            let c = self.propagate();
            proof {
                let d = ints(new_lits@);
                assert forall|v: int|
                    1 <= v <= n && #[trigger] self.values@[v] != 0 && self.ant(v) == CREF_UNDEF && self.level(v)
                        > 0 implies d.contains(-self.tlit(v)) by {
                    if mid.values@[v] == 0 {
                        assert(self.ant(v) != CREF_UNDEF);
                    } else {
                        assert(self.assignments@[v] == mid.assignments@[v]);
                        assert(self.values@[v] == mid.values@[v]);
                    }
                }
                assert forall|k: int| 0 <= k <= i implies self.lv(#[trigger] lits@[k] as int) == -1 by {
                    assert(in_range(lits@[k] as int, n));
                    assert(mid.values@[var_of(lits@[k] as int)] != 0);
                }
            }
            match c {
                Some(cr) => {
                    conflict = true;
                    conflict_cr = cr;
                    break;
                },
                None => {},
            }
            match self.first_true(lits, i + 1) {
                Some(j) => {
                    let ghost nl1 = new_lits@;
                    let other = lits[j];
                    new_lits.push(other);
                    implied = true;
                    proof {
                        let d = ints(new_lits@);
                        assert(lits@.contains(lits@[j as int]));
                        assert(d[d.len() - 1] == other as int);
                        assert forall|v: int|
                            1 <= v <= n && #[trigger] self.values@[v] != 0 && self.ant(v) == CREF_UNDEF && self.level(v)
                                > 0 implies d.contains(-self.tlit(v)) by {
                            assert(ints(nl1).contains(-self.tlit(v)));
                            let q = choose|q: int| 0 <= q < ints(nl1).len() && ints(nl1)[q] == -self.tlit(v);
                            assert(d[q] == ints(nl1)[q]);
                        }
                        assert forall|q: int| 0 <= q < new_lits@.len() implies lits@.contains(
                            #[trigger] new_lits@[q],
                        ) by {
                            if q < nl1.len() {
                                assert(new_lits@[q] == nl1[q]);
                            }
                        }
                    }
                    break;
                },
                None => {},
            }
            i = i + 1;
        }
        proof {
            if !subsumed {
                let d = ints(new_lits@);
                assert forall|k: int| 0 <= k < d.len() implies in_range(#[trigger] d[k], n) by {
                    assert(lits@.contains(new_lits@[k]));
                }
                if conflict {
                    let c = self.clits(conflict_cr);
                    assert(clause_in_range(c, n));
                    self.lemma_probe_entails(d, c);
                } else if implied {
                    self.lemma_probe_entails(d, d);
                } else {
                    let c = ints(lits@);
                    assert forall|k: int| 0 <= k < c.len() implies in_range(#[trigger] c[k], n) by {
                        assert(in_range(lits@[k] as int, n));
                    }
                    assert forall|k: int| 0 <= k < c.len() implies self.lv(#[trigger] c[k]) == -1 by {
                        assert(self.lv(lits@[k] as int) == -1);
                    }
                    self.lemma_probe_entails(d, c);
                }
            }
        }
        let ghost st = *self;
        self.backtrack(0);
        (new_lits, subsumed)
    }
}


impl CDCLSolver {
    /// Vivification: shortens the long, non-glue clauses stored after the
    /// input clauses (at most 500 of them) by probing each at decision
    /// level 0 (see `probe_clause`).  A clause found satisfied is deleted; a
    /// clause that loses literals is replaced by the shorter one, and a
    /// single remaining literal is assigned and propagated (a conflict then
    /// marks the formula unsatisfiable).
    pub fn vivify(&mut self)
        requires
            old(self).inv(),
            old(self).at_root(),
        ensures
            final(self).inv(),
            final(self).formula() == old(self).formula(),
            final(self).nvars() == old(self).nvars(),
            final(self).at_root(),
    {
        let ghost f = self.formula();
        let ghost n = self.num_vars as int;
        let mut candidates: Vec<CRef> = Vec::new();
        let mut i: usize = self.first_learned_idx;
        while i < self.clause_refs.len()
            invariant
                self.inv(),
                forall|k: int| 0 <= k < candidates@.len() ==> self.arena.valid(#[trigger] candidates@[k]),
            decreases self.clause_refs@.len() - i,
        {
            let cr = self.clause_refs[i];
            i = i + 1;
            if self.arena.is_deleted(cr) {
                continue;
            }
            let len = self.arena.len(cr);
            if len <= 2 {
                continue;
            }
            if self.arena.is_learnt(cr) && self.arena.lbd(cr) <= 2 {
                continue;
            }
            candidates.push(cr);
        }
        let limit = if candidates.len() < 500 { candidates.len() } else { 500 };
        let mut ci: usize = 0;
        while ci < limit
            invariant
                self.inv(),
                self.decision_level == 0,
                self.formula() == f,
                self.num_vars == n,
                f == old(self).formula(),
                n == old(self).num_vars,
                limit <= candidates@.len(),
                forall|k: int| 0 <= k < candidates@.len() ==> self.arena.valid(#[trigger] candidates@[k]),
            decreases limit - ci,
        {
            let cr = candidates[ci];
            ci = ci + 1;
            proof {
                assert(self.arena.valid(candidates@[ci - 1]));
            }
            if self.arena.is_deleted(cr) {
                continue;
            }
            let lits = self.arena.lits(cr);
            let orig_len = lits.len();
            proof {
                assert(ints(lits@) == self.clits(cr));
                assert(clause_in_range(self.clits(cr), n));
                assert forall|k: int| 0 <= k < lits@.len() implies in_range(#[trigger] lits@[k] as int, n) by {
                    assert(self.clits(cr)[k] == lits@[k] as int);
                }
            }
            let ghost pre = *self;
            let (new_lits, subsumed) = self.probe_clause(&lits);
            proof {
                assert forall|k: int| 0 <= k < candidates@.len() implies self.arena.valid(#[trigger] candidates@[k]) by {
                    assert(pre.arena.valid(candidates@[k]));
                }
            }
            let learnt = self.arena.is_learnt(cr);
            if subsumed {
                self.delete_clause(cr);
                if learnt {
                    self.num_learned_alive = self.num_learned_alive.saturating_sub(1);
                }
                continue;
            }
            if new_lits.len() < orig_len && new_lits.len() > 0 {
                let old_lbd = if learnt { self.arena.lbd(cr) } else { 0 };
                self.delete_clause(cr);
                if learnt {
                    self.num_learned_alive = self.num_learned_alive.saturating_sub(1);
                }
                proof {
                    assert forall|k: int| 0 <= k < new_lits@.len() implies in_range(#[trigger] new_lits@[k] as int, n) by {
                        assert(lits@.contains(new_lits@[k]));
                    }
                }
                if new_lits.len() == 1 {
                    let unit = new_lits[0];
                    proof {
                        assert(ints(new_lits@) =~= seq![unit as int]);
                    }
                    if self.lit_value(unit) == 0 {
                        self.assign(unit, None);
                        match self.propagate() {
                            Some(c) => {
                                proof {
                                    self.lemma_level0_conflict(c);
                                }
                                self.initial_conflict = true;
                                return;
                            },
                            None => {},
                        }
                    }
                } else if self.learned_fits(new_lits.len()) {
                    let nl = new_lits.len() as u32;
                    let lbd = if learnt {
                        if old_lbd < nl {
                            old_lbd
                        } else {
                            nl
                        }
                    } else {
                        0
                    };
                    proof {
                        assert forall|k: int| 0 <= k < ints(new_lits@).len() implies #[trigger] ints(new_lits@)[k] != 0
                            && -n <= ints(new_lits@)[k] <= n by {
                            assert(in_range(new_lits@[k] as int, n));
                        }
                    }
                    let ghost pre2 = *self;
                    let new_cr = self.store_clause(new_lits.as_slice(), learnt, lbd);
                    if learnt {
                        self.num_learned_alive = self.num_learned_alive.saturating_add(1);
                    }
                    self.attach_clause(new_cr);
                    proof {
                        assert forall|k: int| 0 <= k < candidates@.len() implies self.arena.valid(
                            #[trigger] candidates@[k],
                        ) by {
                            assert(pre2.arena.valid(candidates@[k]));
                        }
                    }
                }
            }
        }
    }
}

} // verus!
