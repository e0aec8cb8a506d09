//! Boolean expression AST, its semantics, and its prefix-notation rendering.
use vstd::prelude::*;

use crate::literal::lit_true;
use crate::text::string_from_chars;

verus! {

/// A boolean expression in abstract syntax tree form.
#[derive(Debug, PartialEq)]
pub enum Expr {
    /// A boolean variable identified by a positive integer.
    Var(i32),
    /// Logical negation: NOT a
    Not(Box<Expr>),
    /// Logical conjunction: a AND b
    And(Box<Expr>, Box<Expr>),
    /// Logical disjunction: a OR b
    Or(Box<Expr>, Box<Expr>),
    /// Logical implication: a -> b
    Impl(Box<Expr>, Box<Expr>),
    /// Logical equivalence: a <-> b
    Equiv(Box<Expr>, Box<Expr>),
}

// ---------------------------------------------------------------------------
// Specification
// ---------------------------------------------------------------------------

/// The truth value of an expression under an assignment.
pub open spec fn eval(e: Expr, a: spec_fn(int) -> bool) -> bool
    decreases e,
{
    match e {
        Expr::Var(v) => lit_true(a, v as int),
        Expr::Not(x) => !eval(*x, a),
        Expr::And(x, y) => eval(*x, a) && eval(*y, a),
        Expr::Or(x, y) => eval(*x, a) || eval(*y, a),
        Expr::Impl(x, y) => !eval(*x, a) || eval(*y, a),
        Expr::Equiv(x, y) => eval(*x, a) == eval(*y, a),
    }
}

/// Some assignment makes the expression true.
pub open spec fn expr_satisfiable(e: Expr) -> bool {
    exists|a: spec_fn(int) -> bool| #[trigger] eval(e, a)
}

pub open spec fn max_int(x: int, y: int) -> int {
    if x >= y {
        x
    } else {
        y
    }
}

/// The largest variable number occurring in `e`, or 0 if all are smaller.
pub open spec fn max_var(e: Expr) -> int
    decreases e,
{
    match e {
        Expr::Var(v) => max_int(0, v as int),
        Expr::Not(x) => max_var(*x),
        Expr::And(x, y) => max_int(max_var(*x), max_var(*y)),
        Expr::Or(x, y) => max_int(max_var(*x), max_var(*y)),
        Expr::Impl(x, y) => max_int(max_var(*x), max_var(*y)),
        Expr::Equiv(x, y) => max_int(max_var(*x), max_var(*y)),
    }
}

/// Number of nodes of the tree.
pub open spec fn node_count(e: Expr) -> nat
    decreases e,
{
    match e {
        Expr::Var(_) => 1,
        Expr::Not(x) => 1 + node_count(*x),
        Expr::And(x, y) => 1 + node_count(*x) + node_count(*y),
        Expr::Or(x, y) => 1 + node_count(*x) + node_count(*y),
        Expr::Impl(x, y) => 1 + node_count(*x) + node_count(*y),
        Expr::Equiv(x, y) => 1 + node_count(*x) + node_count(*y),
    }
}

/// Number of operator (non-variable) nodes of the tree.
pub open spec fn op_count(e: Expr) -> nat
    decreases e,
{
    match e {
        Expr::Var(_) => 0,
        Expr::Not(x) => 1 + op_count(*x),
        Expr::And(x, y) => 1 + op_count(*x) + op_count(*y),
        Expr::Or(x, y) => 1 + op_count(*x) + op_count(*y),
        Expr::Impl(x, y) => 1 + op_count(*x) + op_count(*y),
        Expr::Equiv(x, y) => 1 + op_count(*x) + op_count(*y),
    }
}

/// Every variable of `e` is a positive number.
pub open spec fn vars_positive(e: Expr) -> bool
    decreases e,
{
    match e {
        Expr::Var(v) => v >= 1,
        Expr::Not(x) => vars_positive(*x),
        Expr::And(x, y) => vars_positive(*x) && vars_positive(*y),
        Expr::Or(x, y) => vars_positive(*x) && vars_positive(*y),
        Expr::Impl(x, y) => vars_positive(*x) && vars_positive(*y),
        Expr::Equiv(x, y) => vars_positive(*x) && vars_positive(*y),
    }
}

/// Every variable of `e` is at most `n`.
pub open spec fn vars_at_most(e: Expr, n: int) -> bool
    decreases e,
{
    match e {
        Expr::Var(v) => v <= n,
        Expr::Not(x) => vars_at_most(*x, n),
        Expr::And(x, y) => vars_at_most(*x, n) && vars_at_most(*y, n),
        Expr::Or(x, y) => vars_at_most(*x, n) && vars_at_most(*y, n),
        Expr::Impl(x, y) => vars_at_most(*x, n) && vars_at_most(*y, n),
        Expr::Equiv(x, y) => vars_at_most(*x, n) && vars_at_most(*y, n),
    }
}

pub proof fn lemma_max_var_bounds(e: Expr)
    ensures
        max_var(e) >= 0,
        vars_at_most(e, max_var(e)),
        max_var(e) <= i32::MAX,
    decreases e,
{
    match e {
        Expr::Var(v) => {},
        Expr::Not(x) => {
            lemma_max_var_bounds(*x);
        },
        Expr::And(x, y) | Expr::Or(x, y) | Expr::Impl(x, y) | Expr::Equiv(x, y) => {
            lemma_max_var_bounds(*x);
            lemma_max_var_bounds(*y);
            lemma_vars_at_most_mono(*x, max_var(*x), max_var(e));
            lemma_vars_at_most_mono(*y, max_var(*y), max_var(e));
        },
    }
}

pub proof fn lemma_vars_at_most_mono(e: Expr, n: int, m: int)
    requires
        vars_at_most(e, n),
        n <= m,
    ensures
        vars_at_most(e, m),
    decreases e,
{
    match e {
        Expr::Var(v) => {},
        Expr::Not(x) => {
            lemma_vars_at_most_mono(*x, n, m);
        },
        Expr::And(x, y) | Expr::Or(x, y) | Expr::Impl(x, y) | Expr::Equiv(x, y) => {
            lemma_vars_at_most_mono(*x, n, m);
            lemma_vars_at_most_mono(*y, n, m);
        },
    }
}

pub proof fn lemma_node_count_pos(e: Expr)
    ensures
        node_count(e) >= 1,
        op_count(e) < node_count(e),
    decreases e,
{
    match e {
        Expr::Var(v) => {},
        Expr::Not(x) => {
            lemma_node_count_pos(*x);
        },
        Expr::And(x, y) | Expr::Or(x, y) | Expr::Impl(x, y) | Expr::Equiv(x, y) => {
            lemma_node_count_pos(*x);
            lemma_node_count_pos(*y);
        },
    }
}

/// Maximum over a stack of pending subexpressions.
pub open spec fn stack_max(s: Seq<&Expr>) -> int
    decreases s.len(),
{
    if s.len() == 0 {
        0
    } else {
        max_int(stack_max(s.drop_last()), max_var(*s.last()))
    }
}

/// Total number of nodes in a stack of pending subexpressions.
pub open spec fn stack_nodes(s: Seq<&Expr>) -> nat
    decreases s.len(),
{
    if s.len() == 0 {
        0
    } else {
        stack_nodes(s.drop_last()) + node_count(*s.last())
    }
}

// ---------------------------------------------------------------------------
// Rendering
// ---------------------------------------------------------------------------

pub open spec fn digit_char(d: int) -> char {
    if d == 0 {
        '0'
    } else if d == 1 {
        '1'
    } else if d == 2 {
        '2'
    } else if d == 3 {
        '3'
    } else if d == 4 {
        '4'
    } else if d == 5 {
        '5'
    } else if d == 6 {
        '6'
    } else if d == 7 {
        '7'
    } else if d == 8 {
        '8'
    } else {
        '9'
    }
}

/// Decimal digits of a natural number, most significant first.
pub open spec fn nat_decimal(n: nat) -> Seq<char>
    decreases n,
{
    if n < 10 {
        seq![digit_char(n as int)]
    } else {
        nat_decimal(n / 10) + seq![digit_char((n % 10) as int)]
    }
}

/// Decimal rendering of an integer, with a leading `-` when negative.
pub open spec fn int_decimal(n: int) -> Seq<char> {
    if n < 0 {
        seq!['-'] + nat_decimal((-n) as nat)
    } else {
        nat_decimal(n as nat)
    }
}

/// The prefix-notation rendering of an expression.
pub open spec fn render(e: Expr) -> Seq<char>
    decreases e,
{
    match e {
        Expr::Var(v) => seq!['x'] + int_decimal(v as int),
        Expr::Not(x) => seq!['(', 'n', 'o', 't', ' '] + render(*x) + seq![')'],
        Expr::And(x, y) => seq!['(', 'a', 'n', 'd', ' '] + render(*x) + seq![' '] + render(*y)
            + seq![')'],
        Expr::Or(x, y) => seq!['(', 'o', 'r', ' '] + render(*x) + seq![' '] + render(*y) + seq![
            ')',
        ],
        Expr::Impl(x, y) => seq!['(', 'i', 'm', 'p', 'l', ' '] + render(*x) + seq![' '] + render(
            *y,
        ) + seq![')'],
        Expr::Equiv(x, y) => seq!['(', 'e', 'q', 'u', 'i', 'v', ' '] + render(*x) + seq![' ']
            + render(*y) + seq![')'],
    }
}

pub(crate) fn digit_to_char(d: u32) -> (c: char)
    requires
        d < 10,
    ensures
        c == digit_char(d as int),
{
    match d {
        0 => '0',
        1 => '1',
        2 => '2',
        3 => '3',
        4 => '4',
        5 => '5',
        6 => '6',
        7 => '7',
        8 => '8',
        _ => '9',
    }
}

/// Appends the decimal digits of `n`.
pub fn push_nat_decimal(out: &mut Vec<char>, n: u32)
    ensures
        final(out)@ == old(out)@ + nat_decimal(n as nat),
    decreases n,
{
    if n >= 10 {
        push_nat_decimal(out, n / 10);
    }
    out.push(digit_to_char(n % 10));
    proof {
        if n >= 10 {
            assert(final(out)@ =~= old(out)@ + nat_decimal(n as nat));
        } else {
            assert(final(out)@ =~= old(out)@ + nat_decimal(n as nat));
        }
    }
}

/// Appends the decimal digits of `n`.
pub fn push_usize_decimal(out: &mut Vec<char>, n: usize)
    ensures
        final(out)@ == old(out)@ + nat_decimal(n as nat),
    decreases n,
{
    if n >= 10 {
        push_usize_decimal(out, n / 10);
    }
    out.push(digit_to_char((n % 10) as u32));
    proof {
        assert(final(out)@ =~= old(out)@ + nat_decimal(n as nat));
    }
}

/// Appends the decimal rendering of `n` (with a `-` sign when negative).
pub fn push_int_decimal(out: &mut Vec<char>, n: i32)
    ensures
        final(out)@ == old(out)@ + int_decimal(n as int),
{
    if n < 0 {
        out.push('-');
        let m: u32 = if n == i32::MIN {
            2147483648u32
        } else {
            (-n) as u32
        };
        push_nat_decimal(out, m);
        proof {
            assert(final(out)@ =~= old(out)@ + int_decimal(n as int));
        }
    } else {
        push_nat_decimal(out, n as u32);
    }
}

fn push_str(out: &mut Vec<char>, s: &[char])
    ensures
        final(out)@ == old(out)@ + s@,
{
    let mut i: usize = 0;
    while i < s.len()
        invariant
            i <= s@.len(),
            out@ == old(out)@ + s@.subrange(0, i as int),
        decreases s@.len() - i,
    {
        out.push(s[i]);
        i = i + 1;
        proof {
            assert(out@ =~= old(out)@ + s@.subrange(0, i as int));
        }
    }
    proof {
        assert(s@.subrange(0, s@.len() as int) =~= s@);
    }
}

impl Clone for Expr {
    fn clone(&self) -> (r: Self)
        ensures
            r == *self,
        decreases *self,
    {
        match self {
            Expr::Var(v) => Expr::Var(*v),
            Expr::Not(x) => Expr::Not(Box::new((**x).clone())),
            Expr::And(x, y) => Expr::And(Box::new((**x).clone()), Box::new((**y).clone())),
            Expr::Or(x, y) => Expr::Or(Box::new((**x).clone()), Box::new((**y).clone())),
            Expr::Impl(x, y) => Expr::Impl(Box::new((**x).clone()), Box::new((**y).clone())),
            Expr::Equiv(x, y) => Expr::Equiv(Box::new((**x).clone()), Box::new((**y).clone())),
        }
    }
}

impl Expr {
    fn render_into(&self, out: &mut Vec<char>)
        ensures
            final(out)@ == old(out)@ + render(*self),
        decreases *self,
    {
        match self {
            Expr::Var(v) => {
                out.push('x');
                push_int_decimal(out, *v);
                proof {
                    assert(final(out)@ =~= old(out)@ + render(*self));
                }
            },
            Expr::Not(x) => {
                push_str(out, &['(', 'n', 'o', 't', ' ']);
                x.render_into(out);
                out.push(')');
                proof {
                    assert(final(out)@ =~= old(out)@ + render(*self));
                }
            },
            Expr::And(x, y) => {
                push_str(out, &['(', 'a', 'n', 'd', ' ']);
                x.render_into(out);
                out.push(' ');
                y.render_into(out);
                out.push(')');
                proof {
                    assert(final(out)@ =~= old(out)@ + render(*self));
                }
            },
            Expr::Or(x, y) => {
                push_str(out, &['(', 'o', 'r', ' ']);
                x.render_into(out);
                out.push(' ');
                y.render_into(out);
                out.push(')');
                proof {
                    assert(final(out)@ =~= old(out)@ + render(*self));
                }
            },
            Expr::Impl(x, y) => {
                push_str(out, &['(', 'i', 'm', 'p', 'l', ' ']);
                x.render_into(out);
                out.push(' ');
                y.render_into(out);
                out.push(')');
                proof {
                    assert(final(out)@ =~= old(out)@ + render(*self));
                }
            },
            Expr::Equiv(x, y) => {
                push_str(out, &['(', 'e', 'q', 'u', 'i', 'v', ' ']);
                x.render_into(out);
                out.push(' ');
                y.render_into(out);
                out.push(')');
                proof {
                    assert(final(out)@ =~= old(out)@ + render(*self));
                }
            },
        }
    }

    /// Formats the expression in prefix notation, e.g. `(and x1 (not x2))`.
    /// The result can be read back by the parser.
    pub fn to_string(&self) -> (s: String)
        ensures
            s@ == render(*self),
    {
        let mut out: Vec<char> = Vec::new();
        self.render_into(&mut out);
        proof {
            assert(out@ =~= render(*self));
        }
        string_from_chars(&out)
    }
}

/// Finds the maximum variable number used in an expression (0 if none is
/// positive).
pub fn find_max_var(expr: &Expr) -> (m: i32)
    ensures
        m == max_var(*expr),
{
    let mut max: i32 = 0;
    let mut stack: Vec<&Expr> = Vec::new();
    stack.push(expr);
    proof {
        assert(stack@.drop_last() =~= Seq::<&Expr>::empty());
        lemma_node_count_pos(*expr);
        lemma_max_var_bounds(*expr);
        assert(stack_max(stack@) == max_int(stack_max(stack@.drop_last()), max_var(*expr)));
    }
    while stack.len() > 0
        invariant
            max_int(max as int, stack_max(stack@)) == max_var(*expr),
            max >= 0,
        decreases stack_nodes(stack@),
    {
        let ghost s0 = stack@;
        let e = stack.pop().unwrap();
        proof {
            assert(s0.drop_last() =~= stack@);
            lemma_node_count_pos(*e);
            assert(stack_max(s0) == max_int(stack_max(stack@), max_var(*e)));
            assert(stack_nodes(s0) == stack_nodes(stack@) + node_count(*e));
        }
        match e {
            Expr::Var(v) => {
                if *v > max {
                    max = *v;
                }
            },
            Expr::Not(inner) => {
                let ghost s1 = stack@;
                stack.push(inner);
                proof {
                    assert(stack@.drop_last() =~= s1);
                    assert(stack_max(stack@) == max_int(stack_max(s1), max_var(**inner)));
                    assert(stack_nodes(stack@) == stack_nodes(s1) + node_count(**inner));
                }
            },
            Expr::And(a, b) | Expr::Or(a, b) | Expr::Impl(a, b) | Expr::Equiv(a, b) => {
                let ghost s1 = stack@;
                stack.push(a);
                let ghost s2 = stack@;
                stack.push(b);
                proof {
                    assert(s2.drop_last() =~= s1);
                    assert(stack@.drop_last() =~= s2);
                    assert(stack_max(s2) == max_int(stack_max(s1), max_var(**a)));
                    assert(stack_max(stack@) == max_int(stack_max(s2), max_var(**b)));
                    assert(stack_nodes(s2) == stack_nodes(s1) + node_count(**a));
                    assert(stack_nodes(stack@) == stack_nodes(s2) + node_count(**b));
                }
            },
        }
    }
    max
}


/// The number of operators of `e`, or `u64::MAX` when that does not fit.
pub fn count_ops(e: &Expr) -> (r: u64)
    ensures
        r == if op_count(*e) < u64::MAX { op_count(*e) as int } else { u64::MAX as int },
    decreases *e,
{
    match e {
        Expr::Var(_) => 0,
        Expr::Not(x) => count_ops(x).saturating_add(1),
        Expr::And(x, y) => count_ops(x).saturating_add(count_ops(y)).saturating_add(1),
        Expr::Or(x, y) => count_ops(x).saturating_add(count_ops(y)).saturating_add(1),
        Expr::Impl(x, y) => count_ops(x).saturating_add(count_ops(y)).saturating_add(1),
        Expr::Equiv(x, y) => count_ops(x).saturating_add(count_ops(y)).saturating_add(1),
    }
}
} // verus!
