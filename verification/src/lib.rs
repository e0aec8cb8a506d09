//! A CDCL (Conflict-Driven Clause Learning) SAT solver.
//!
//! Formulas are written in prefix notation: variables `x1`, `x2`, ...
//! (positive integers), `(not e)`, `(and a b)`, `(or a b)`, `(impl a b)` and
//! `(equiv a b)`.  A formula already in conjunctive normal form is handed to
//! the solver clause by clause; any other formula goes through the Tseitin
//! transformation first.
//!
//! Modules:
//! - [`expr`]: the expression tree and its meaning;
//! - [`parser`]: the prefix-notation parser;
//! - [`literal`]: literals, clauses and the truth semantics of CNF;
//! - [`cnf`]: CNF detection and extraction;
//! - [`tseitin`]: the Tseitin transformation;
//! - [`clause_arena`], [`heap`], [`drat`]: the solver's data structures;
//! - [`solver`]: the CDCL solver;
//! - [`preprocess`]: CNF simplification.
use vstd::prelude::*;

pub mod text;
pub mod literal;
pub mod expr;
pub mod cnf;
pub mod tseitin;
pub mod parser;
pub mod clause_arena;
pub mod drat;
pub mod heap;
pub mod sorting;
pub mod search;
pub mod solver;
pub mod preprocess;
pub mod encode;
pub mod sudoku_solver;
pub mod sudoku_generator;
pub mod nqueens_solver;
pub mod nonogram_solver;
pub mod dimacs_sat;
pub mod cryptarithmetic;
pub mod lights_out;
pub mod puzzle_input;
pub mod hamiltonian;
pub mod graph_coloring;
pub mod exact_cover;
pub mod minesweeper;
pub mod magic_square;
pub mod magic_search;

pub use crate::cnf::{extract_clause_literals, extract_cnf_clauses, is_clause, is_cnf};
use crate::cnf::{clause_lits_seq, lits_formula, spec_extract_cnf};
pub use crate::expr::{find_max_var, Expr};
use crate::expr::{count_ops, eval, expr_satisfiable, max_var, op_count};
pub use crate::literal::{Clause, Literal};
use crate::literal::{clauses_formula, formula_sat, satisfiable};
pub use crate::parser::{ParseError, Parser};
use crate::parser::{parse_at, parse_err_message, tokenize, ParseErr};
pub use crate::solver::{CDCLSolver, SolverError};
use crate::solver::{solver_error_message, solver_input_fits};
pub use crate::tseitin::TseitinTransformer;
use crate::tseitin::{clause_lits, tseitin_cnf};

verus! {

/// Error of [`solve_formula`]: the input could not be parsed, or the solver
/// failed.
#[derive(Debug, Clone)]
pub enum SolveError {
    /// An error occurred while parsing the formula.
    Parse(ParseError),
    /// The solver failed.
    Solver(SolverError),
}

/// The text of a `SolveError`.
pub open spec fn solve_error_message(e: SolveError) -> Seq<char> {
    match e {
        SolveError::Parse(p) => "Parse error: "@ + parse_err_message(p.model()),
        SolveError::Solver(s) => "Solver error: "@ + solver_error_message(s),
    }
}

impl SolveError {
    /// The human-readable message of the error.
    pub fn to_string(&self) -> (s: String)
        ensures
            s@ == solve_error_message(*self),
    {
        let mut out: Vec<char> = Vec::new();
        match self {
            SolveError::Parse(e) => {
                let head = crate::text::str_chars("Parse error: ");
                crate::text::push_chars(&mut out, head.as_slice());
                let m = crate::text::str_chars(e.to_string().as_str());
                crate::text::push_chars(&mut out, m.as_slice());
            },
            SolveError::Solver(e) => {
                let head = crate::text::str_chars("Solver error: ");
                crate::text::push_chars(&mut out, head.as_slice());
                let m = crate::text::str_chars(e.to_string().as_str());
                crate::text::push_chars(&mut out, m.as_slice());
            },
        }
        crate::text::string_from_chars(&out)
    }

    /// The message of the underlying parse or solver error.
    pub fn source(&self) -> (s: Option<String>)
        ensures
            s is Some,
            match *self {
                SolveError::Parse(p) => s->0@ == parse_err_message(p.model()),
                SolveError::Solver(e) => s->0@ == solver_error_message(e),
            },
    {
        match self {
            SolveError::Parse(e) => Some(e.to_string()),
            SolveError::Solver(e) => Some(e.to_string()),
        }
    }
}

impl From<ParseError> for SolveError {
    fn from(err: ParseError) -> (r: Self) {
        SolveError::Parse(err)
    }
}

impl vstd::std_specs::convert::FromSpecImpl<ParseError> for SolveError {
    open spec fn obeys_from_spec() -> bool {
        true
    }

    open spec fn from_spec(v: ParseError) -> Self {
        SolveError::Parse(v)
    }
}

impl From<SolverError> for SolveError {
    fn from(err: SolverError) -> (r: Self) {
        SolveError::Solver(err)
    }
}

impl vstd::std_specs::convert::FromSpecImpl<SolverError> for SolveError {
    open spec fn obeys_from_spec() -> bool {
        true
    }

    open spec fn from_spec(v: SolverError) -> Self {
        SolveError::Solver(v)
    }
}

/// The result of parsing a whole input: the expression and the position
/// after it, or the error.
pub open spec fn parsed(input: Seq<char>) -> Result<(Expr, int), (ParseErr, int)> {
    parse_at(tokenize(input), 0)
}

/// Parses a formula in prefix notation and decides its satisfiability.
///
/// `Ok(true)`: the formula is satisfiable; `Ok(false)`: it is not;
/// `Err(SolveError::Parse(_))`: exactly when the input does not parse, with
/// the parser's error; `Err(SolveError::Solver(_))`: the solver failed (the
/// input parsed).
pub fn solve_formula(input: &str) -> (r: Result<bool, SolveError>)
    ensures
        match r {
            Ok(b) => parsed(input@) is Ok && b == expr_satisfiable(parsed(input@)->Ok_0.0),
            Err(SolveError::Parse(e)) => parsed(input@) is Err && e.model() == parsed(
                input@,
            )->Err_0.0,
            Err(SolveError::Solver(_)) => parsed(input@) is Ok,
        },
{
    let mut parser = Parser::new(input);
    let expr = match parser.parse() {
        Ok(e) => e,
        Err(e) => {
            return Err(SolveError::Parse(e));
        },
    };
    let ghost e = expr;
    proof {
        crate::parser::lemma_parse_positive(tokenize(input@), 0);
        assert(crate::expr::vars_positive(e));
    }
    let mut clauses: Vec<Clause> = Vec::new();
    let mut from_cnf = false;
    if is_cnf(&expr) {
        if extract_cnf_clauses(&expr, &mut clauses) {
            from_cnf = true;
        }
    }
    let ghost mut tseitin_path = false;
    if !from_cnf {
        let max_var_e = find_max_var(&expr);
        let ops = count_ops(&expr);
        proof {
            crate::expr::lemma_max_var_bounds(e);
        }
        if ops >= 0x7FFF_FFFFu64 || (max_var_e as u64) + 1 + ops > 0x7FFF_FFFFu64 {
            return Err(
                SolveError::Solver(SolverError::InternalError("Formula too large for the solver".to_string())),
            );
        }
        let mut transformer = TseitinTransformer::new(max_var_e);
        let root_var = transformer.transform(&expr);
        clauses = transformer.into_clauses(root_var);
        proof {
            tseitin_path = true;
            assert(clause_lits(clauses@) == tseitin_cnf(e));
        }
    }
    if !solver_input_fits(&clauses) {
        return Err(
            SolveError::Solver(SolverError::InternalError("Formula too large for the solver".to_string())),
        );
    }
    let ghost f = clauses_formula(clauses@);
    proof {
        crate::solver::lemma_drop_empty_id(f);
        if tseitin_path {
            assert(f =~= lits_formula(tseitin_cnf(e)));
            crate::tseitin::lemma_tseitin_equisat(e);
        } else {
            crate::cnf::lemma_extract_cnf_ok_iff_cnf(e);
            assert(clause_lits_seq(clauses@) =~= spec_extract_cnf(e).1);
            assert(f =~= lits_formula(spec_extract_cnf(e).1));
        }
    }
    let mut solver = CDCLSolver::new(clauses);
    match solver.solve() {
        Ok(b) => {
            proof {
                if b {
                    let a = solver.model();
                    assert(formula_sat(a, f));
                    if tseitin_path {
                        assert(satisfiable(f));
                    } else {
                        crate::cnf::lemma_extract_cnf_meaning(e, a);
                        assert(eval(e, a));
                    }
                } else {
                    assert(!satisfiable(f));
                    if !tseitin_path && expr_satisfiable(e) {
                        let a = choose|a: spec_fn(int) -> bool| #[trigger] eval(e, a);
                        crate::cnf::lemma_extract_cnf_meaning(e, a);
                        assert(formula_sat(a, f));
                    }
                }
            }
            Ok(b)
        },
        Err(err) => Err(SolveError::Solver(err)),
    }
}

} // verus!
