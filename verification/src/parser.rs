//! Parser for boolean expressions in prefix notation.
//!
//! - Variables: `x1`, `x2`, ... (optionally parenthesized: `(x1)`)
//! - Negation: `(not e)`, conjunction `(and a b)`, disjunction `(or a b)`,
//!   implication `(impl a b)`, equivalence `(equiv a b)`.
use vstd::prelude::*;

use crate::expr::{digit_char, int_decimal, nat_decimal, render, vars_positive, Expr};
use crate::text::{all_digits, char_is_space, digit_value, digits_value, is_digit, is_space, parse_i32, parse_i32_spec, push_chars, str_chars, string_from_chars};

verus! {

/// Errors that can occur during parsing.
#[derive(Debug, Clone, PartialEq)]
pub enum ParseError {
    /// An unknown operator was encountered.
    UnknownOperator(String),
    /// A variable number could not be parsed.
    InvalidVariable(String),
    /// An unexpected token was encountered.
    UnexpectedToken(String),
    /// Expected a specific token but found something else.
    ExpectedToken { expected: String, found: String },
    /// The input ended unexpectedly.
    UnexpectedEndOfInput,
}

/// The mathematical content of a parse error.
pub enum ParseErr {
    UnknownOperator(Seq<char>),
    InvalidVariable(Seq<char>),
    UnexpectedToken(Seq<char>),
    ExpectedToken { expected: Seq<char>, found: Seq<char> },
    UnexpectedEndOfInput,
}

impl ParseError {
    pub open spec fn model(&self) -> ParseErr {
        match self {
            ParseError::UnknownOperator(s) => ParseErr::UnknownOperator(s@),
            ParseError::InvalidVariable(s) => ParseErr::InvalidVariable(s@),
            ParseError::UnexpectedToken(s) => ParseErr::UnexpectedToken(s@),
            ParseError::ExpectedToken { expected, found } => ParseErr::ExpectedToken {
                expected: expected@,
                found: found@,
            },
            ParseError::UnexpectedEndOfInput => ParseErr::UnexpectedEndOfInput,
        }
    }
}

/// The message describing a parse error.
pub open spec fn parse_err_message(e: ParseErr) -> Seq<char> {
    match e {
        ParseErr::UnknownOperator(op) => "Unknown operator: '"@ + op + "'"@,
        ParseErr::InvalidVariable(v) => "Invalid variable: '"@ + v + "'"@,
        ParseErr::UnexpectedToken(t) => "Unexpected token: "@ + t,
        ParseErr::ExpectedToken { expected, found } => "Expected '"@ + expected + "', found '"@
            + found + "'"@,
        ParseErr::UnexpectedEndOfInput => "Unexpected end of input"@,
    }
}

// ---------------------------------------------------------------------------
// Tokenizer specification
// ---------------------------------------------------------------------------

/// The token list `cur` contributes when it is ended (nothing if empty).
pub open spec fn flush(cur: Seq<char>) -> Seq<Seq<char>> {
    if cur.len() > 0 {
        seq![cur]
    } else {
        Seq::empty()
    }
}

/// Tokens of `rest`, given the partial token `cur` read just before it:
/// parentheses are tokens of their own, whitespace separates tokens, and
/// every other character extends the current token.
pub open spec fn tokens_from(cur: Seq<char>, rest: Seq<char>) -> Seq<Seq<char>>
    decreases rest.len(),
{
    if rest.len() == 0 {
        flush(cur)
    } else {
        let c = rest[0];
        if c == '(' || c == ')' {
            flush(cur) + seq![seq![c]] + tokens_from(Seq::empty(), rest.drop_first())
        } else if is_space(c) {
            flush(cur) + tokens_from(Seq::empty(), rest.drop_first())
        } else {
            tokens_from(cur.push(c), rest.drop_first())
        }
    }
}

/// The tokens of an input string.
pub open spec fn tokenize(s: Seq<char>) -> Seq<Seq<char>> {
    tokens_from(Seq::empty(), s)
}

// ---------------------------------------------------------------------------
// Grammar specification
// ---------------------------------------------------------------------------

pub open spec fn starts_with_x(t: Seq<char>) -> bool {
    t.len() > 0 && t[0] == 'x'
}

/// Result of parsing from token position `p`: the expression and the
/// position after it, or the error and the position reached when it was
/// detected.
pub open spec fn expect_close(t: Seq<Seq<char>>, q: int) -> Result<int, (ParseErr, int)> {
    if q < t.len() && t[q] == seq![')'] {
        Ok(q + 1)
    } else if q < t.len() {
        Err((ParseErr::ExpectedToken { expected: seq![')'], found: t[q] }, q + 1))
    } else {
        Err((ParseErr::ExpectedToken { expected: seq![')'], found: "end of input"@ }, q))
    }
}

pub open spec fn binary_node(op: Seq<char>, x: Expr, y: Expr) -> Expr {
    if op == "and"@ {
        Expr::And(Box::new(x), Box::new(y))
    } else if op == "or"@ {
        Expr::Or(Box::new(x), Box::new(y))
    } else if op == "impl"@ {
        Expr::Impl(Box::new(x), Box::new(y))
    } else {
        Expr::Equiv(Box::new(x), Box::new(y))
    }
}

pub open spec fn is_binary_op(op: Seq<char>) -> bool {
    op == "and"@ || op == "or"@ || op == "impl"@ || op == "equiv"@
}

/// The prefix-notation grammar, read from token position `p`.
pub open spec fn parse_at(t: Seq<Seq<char>>, p: int) -> Result<(Expr, int), (ParseErr, int)>
    decreases t.len() - p,
{
    if p < 0 || p >= t.len() {
        Err((ParseErr::UnexpectedEndOfInput, p))
    } else if t[p] == seq!['('] {
        if p + 1 >= t.len() {
            Err((ParseErr::UnexpectedEndOfInput, p + 1))
        } else {
            let op = t[p + 1];
            if op == "not"@ {
                match parse_at(t, p + 2) {
                    Err(e) => Err(e),
                    Ok((x, q)) => if q <= p {
                        Err((ParseErr::UnexpectedEndOfInput, q))
                    } else {
                        match expect_close(t, q) {
                            Err(e) => Err(e),
                            Ok(q2) => Ok((Expr::Not(Box::new(x)), q2)),
                        }
                    },
                }
            } else if is_binary_op(op) {
                match parse_at(t, p + 2) {
                    Err(e) => Err(e),
                    Ok((x, q1)) => if q1 <= p || q1 > t.len() {
                        Err((ParseErr::UnexpectedEndOfInput, q1))
                    } else {
                        match parse_at(t, q1) {
                            Err(e) => Err(e),
                            Ok((y, q2)) => match expect_close(t, q2) {
                                Err(e) => Err(e),
                                Ok(q3) => Ok((binary_node(op, x, y), q3)),
                            },
                        }
                    },
                }
            } else if starts_with_x(op) {
                match parse_i32_spec(op.drop_first()) {
                    Some(v) if v >= 1 => match expect_close(t, p + 2) {
                        Err(e) => Err(e),
                        Ok(q) => Ok((Expr::Var(v), q)),
                    },
                    _ => Err((ParseErr::InvalidVariable(op), p + 2)),
                }
            } else {
                Err((ParseErr::UnknownOperator(op), p + 2))
            }
        }
    } else if starts_with_x(t[p]) {
        match parse_i32_spec(t[p].drop_first()) {
            Some(v) if v >= 1 => Ok((Expr::Var(v), p + 1)),
            _ => Err((ParseErr::InvalidVariable(t[p]), p + 1)),
        }
    } else {
        Err((ParseErr::UnexpectedToken(t[p]), p))
    }
}

/// Parsing consumes at least one token and never reads past the end.
pub proof fn lemma_parse_progress(t: Seq<Seq<char>>, p: int)
    requires
        0 <= p,
    ensures
        match parse_at(t, p) {
            Ok((_, q)) => p < q <= t.len(),
            Err((_, q)) => p <= q <= t.len() || (p >= t.len() && q == p),
        },
    decreases t.len() - p,
{
    if p < t.len() && t[p] == seq!['('] && p + 1 < t.len() {
        let op = t[p + 1];
        if op == "not"@ || is_binary_op(op) {
            lemma_parse_progress(t, p + 2);
            match parse_at(t, p + 2) {
                Ok((_, q1)) => {
                    if is_binary_op(op) && op != "not"@ {
                        lemma_parse_progress(t, q1);
                    }
                },
                _ => {},
            }
        }
    }
}

/// Every variable of a parsed expression is a positive number.
pub proof fn lemma_parse_positive(t: Seq<Seq<char>>, p: int)
    requires
        0 <= p,
    ensures
        parse_at(t, p) is Ok ==> crate::expr::vars_positive(parse_at(t, p)->Ok_0.0),
    decreases t.len() - p,
{
    lemma_parse_progress(t, p);
    if p < t.len() && t[p] == seq!['('] && p + 1 < t.len() {
        let op = t[p + 1];
        if op == "not"@ || is_binary_op(op) {
            lemma_parse_positive(t, p + 2);
            lemma_parse_progress(t, p + 2);
            match parse_at(t, p + 2) {
                Ok((_, q1)) => {
                    if is_binary_op(op) && op != "not"@ && q1 > p && q1 <= t.len() {
                        lemma_parse_positive(t, q1);
                    }
                },
                _ => {},
            }
        }
    }
}

// ---------------------------------------------------------------------------
// Reading a rendering back
// ---------------------------------------------------------------------------

/// The tokens of an expression's rendering.
pub open spec fn expr_tokens(e: Expr) -> Seq<Seq<char>>
    decreases e,
{
    match e {
        Expr::Var(v) => seq![seq!['x'] + int_decimal(v as int)],
        Expr::Not(x) => seq![seq!['('], seq!['n', 'o', 't']] + expr_tokens(*x) + seq![seq![')']],
        Expr::And(x, y) => seq![seq!['('], seq!['a', 'n', 'd']] + expr_tokens(*x) + expr_tokens(*y)
            + seq![seq![')']],
        Expr::Or(x, y) => seq![seq!['('], seq!['o', 'r']] + expr_tokens(*x) + expr_tokens(*y)
            + seq![seq![')']],
        Expr::Impl(x, y) => seq![seq!['('], seq!['i', 'm', 'p', 'l']] + expr_tokens(*x)
            + expr_tokens(*y) + seq![seq![')']],
        Expr::Equiv(x, y) => seq![seq!['('], seq!['e', 'q', 'u', 'i', 'v']] + expr_tokens(*x)
            + expr_tokens(*y) + seq![seq![')']],
    }
}

/// Characters that extend a token: no parenthesis and no whitespace.
pub open spec fn plain(s: Seq<char>) -> bool {
    forall|i: int| 0 <= i < s.len() ==> #[trigger] s[i] != '(' && s[i] != ')' && !is_space(s[i])
}

/// Text that ends any token before it: nothing, a parenthesis or whitespace.
pub open spec fn token_boundary(r: Seq<char>) -> bool {
    r.len() == 0 || r[0] == '(' || r[0] == ')' || is_space(r[0])
}

proof fn lemma_digit_char(d: int)
    requires
        0 <= d < 10,
    ensures
        is_digit(digit_char(d)),
        digit_value(digit_char(d)) == d,
{
}

proof fn lemma_nat_decimal_digits(n: nat)
    ensures
        nat_decimal(n).len() > 0,
        all_digits(nat_decimal(n)),
        digits_value(nat_decimal(n)) == n,
    decreases n,
{
    lemma_digit_char((n % 10) as int);
    if n < 10 {
        assert(seq![digit_char(n as int)].drop_last() =~= Seq::<char>::empty());
        assert(digits_value(Seq::<char>::empty()) == 0);
    } else {
        lemma_nat_decimal_digits(n / 10);
        let s = nat_decimal(n);
        assert(s.drop_last() =~= nat_decimal(n / 10));
        assert(s.last() == digit_char((n % 10) as int));
    }
}

proof fn lemma_plain_prefix(cur: Seq<char>, s: Seq<char>, r: Seq<char>)
    requires
        plain(s),
    ensures
        tokens_from(cur, s + r) == tokens_from(cur + s, r),
    decreases s.len(),
{
    if s.len() == 0 {
        assert(s + r =~= r);
        assert(cur + s =~= cur);
    } else {
        assert((s + r)[0] == s[0]);
        assert((s + r).drop_first() =~= s.drop_first() + r);
        assert(s[0] != '(' && s[0] != ')' && !is_space(s[0]));
        lemma_plain_prefix(cur.push(s[0]), s.drop_first(), r);
        assert(cur.push(s[0]) + s.drop_first() =~= cur + s);
    }
}

proof fn lemma_token_ends(s: Seq<char>, r: Seq<char>)
    requires
        s.len() > 0,
        token_boundary(r),
    ensures
        tokens_from(s, r) == seq![s] + tokens_from(Seq::empty(), r),
{
    if r.len() == 0 {
        assert(seq![s] + Seq::<Seq<char>>::empty() =~= seq![s]);
    } else if r[0] == '(' || r[0] == ')' {
        assert(seq![s] + (Seq::<Seq<char>>::empty() + seq![seq![r[0]]] + tokens_from(
            Seq::empty(),
            r.drop_first(),
        )) =~= seq![s] + seq![seq![r[0]]] + tokens_from(Seq::empty(), r.drop_first()));
    } else {
        assert(seq![s] + (Seq::<Seq<char>>::empty() + tokens_from(Seq::empty(), r.drop_first()))
            =~= seq![s] + tokens_from(Seq::empty(), r.drop_first()));
    }
}

proof fn lemma_paren_token(c: char, r: Seq<char>)
    requires
        c == '(' || c == ')',
    ensures
        tokens_from(Seq::empty(), seq![c] + r) == seq![seq![c]] + tokens_from(Seq::empty(), r),
{
    assert((seq![c] + r)[0] == c);
    assert((seq![c] + r).drop_first() =~= r);
    assert(Seq::<Seq<char>>::empty() + seq![seq![c]] =~= seq![seq![c]]);
}

proof fn lemma_space_token(cur: Seq<char>, r: Seq<char>)
    ensures
        tokens_from(cur, seq![' '] + r) == flush(cur) + tokens_from(Seq::empty(), r),
{
    assert((seq![' '] + r)[0] == ' ');
    assert(is_space(' '));
    assert((seq![' '] + r).drop_first() =~= r);
}

/// The tokens of `(op body)` followed by `r`, given the tokens of `body`.
proof fn lemma_node_tokens(o: Seq<char>, body: Seq<char>, bt: Seq<Seq<char>>, r: Seq<char>)
    requires
        o.len() > 0,
        plain(o),
        tokens_from(Seq::empty(), body + (seq![')'] + r)) == bt + tokens_from(
            Seq::empty(),
            seq![')'] + r,
        ),
    ensures
        tokens_from(Seq::empty(), seq!['('] + o + seq![' '] + body + seq![')'] + r) == seq![
            seq!['('],
            o,
        ] + bt + seq![seq![')']] + tokens_from(Seq::empty(), r),
{
    let e = Seq::<char>::empty();
    let tail = body + (seq![')'] + r);
    assert(seq!['('] + o + seq![' '] + body + seq![')'] + r =~= seq!['('] + (o + (seq![' ']
        + tail)));
    lemma_paren_token('(', o + (seq![' '] + tail));
    lemma_plain_prefix(e, o, seq![' '] + tail);
    assert(e + o =~= o);
    lemma_space_token(o, tail);
    lemma_paren_token(')', r);
    assert(seq![seq!['(']] + (seq![o] + (bt + (seq![seq![')']] + tokens_from(e, r)))) =~= seq![
        seq!['('],
        o,
    ] + bt + seq![seq![')']] + tokens_from(e, r));
}

/// The rendering of an expression, followed by text that ends a token,
/// splits into the expression's tokens and those of the text.
proof fn lemma_render_tokens(e: Expr, r: Seq<char>)
    requires
        token_boundary(r),
    ensures
        tokens_from(Seq::empty(), render(e) + r) == expr_tokens(e) + tokens_from(
            Seq::empty(),
            r,
        ),
    decreases e,
{
    let emp = Seq::<char>::empty();
    let close = seq![')'] + r;
    assert(token_boundary(close));
    match e {
        Expr::Var(v) => {
            let s = seq!['x'] + int_decimal(v as int);
            if v < 0 {
                lemma_nat_decimal_digits((-v) as nat);
            } else {
                lemma_nat_decimal_digits(v as nat);
            }
            assert forall|i: int| 0 <= i < s.len() implies #[trigger] s[i] != '(' && s[i] != ')'
                && !is_space(s[i]) by {
                if i > 0 && v < 0 && i > 1 {
                    assert(s[i] == nat_decimal((-v) as nat)[i - 2]);
                    assert(is_digit(nat_decimal((-v) as nat)[i - 2]));
                } else if i > 0 && v >= 0 {
                    assert(s[i] == nat_decimal(v as nat)[i - 1]);
                    assert(is_digit(nat_decimal(v as nat)[i - 1]));
                }
            }
            lemma_plain_prefix(emp, s, r);
            assert(emp + s =~= s);
            lemma_token_ends(s, r);
        },
        Expr::Not(x) => {
            lemma_render_tokens(*x, close);
            lemma_node_tokens(seq!['n', 'o', 't'], render(*x), expr_tokens(*x), r);
            assert(render(e) + r =~= seq!['('] + seq!['n', 'o', 't'] + seq![' '] + render(*x)
                + seq![')'] + r);
        },
        Expr::And(x, y) => {
            let body = render(*x) + seq![' '] + render(*y);
            assert(is_space(' '));
            lemma_render_tokens(*x, seq![' '] + (render(*y) + close));
            lemma_render_tokens(*y, close);
            lemma_binary_body(*x, *y, r);
            lemma_node_tokens(seq!['a', 'n', 'd'], body, expr_tokens(*x) + expr_tokens(*y), r);
            assert(render(e) + r =~= seq!['('] + seq!['a', 'n', 'd'] + seq![' '] + body + seq![')']
                + r);
            assert(seq![seq!['('], seq!['a', 'n', 'd']] + (expr_tokens(*x) + expr_tokens(*y))
                =~= seq![seq!['('], seq!['a', 'n', 'd']] + expr_tokens(*x) + expr_tokens(*y));
        },
        Expr::Or(x, y) => {
            let body = render(*x) + seq![' '] + render(*y);
            assert(is_space(' '));
            lemma_render_tokens(*x, seq![' '] + (render(*y) + close));
            lemma_render_tokens(*y, close);
            lemma_binary_body(*x, *y, r);
            lemma_node_tokens(seq!['o', 'r'], body, expr_tokens(*x) + expr_tokens(*y), r);
            assert(render(e) + r =~= seq!['('] + seq!['o', 'r'] + seq![' '] + body + seq![')']
                + r);
            assert(seq![seq!['('], seq!['o', 'r']] + (expr_tokens(*x) + expr_tokens(*y))
                =~= seq![seq!['('], seq!['o', 'r']] + expr_tokens(*x) + expr_tokens(*y));
        },
        Expr::Impl(x, y) => {
            let body = render(*x) + seq![' '] + render(*y);
            assert(is_space(' '));
            lemma_render_tokens(*x, seq![' '] + (render(*y) + close));
            lemma_render_tokens(*y, close);
            lemma_binary_body(*x, *y, r);
            lemma_node_tokens(seq!['i', 'm', 'p', 'l'], body, expr_tokens(*x) + expr_tokens(*y), r);
            assert(render(e) + r =~= seq!['('] + seq!['i', 'm', 'p', 'l'] + seq![' '] + body
                + seq![')'] + r);
            assert(seq![seq!['('], seq!['i', 'm', 'p', 'l']] + (expr_tokens(*x) + expr_tokens(*y))
                =~= seq![seq!['('], seq!['i', 'm', 'p', 'l']] + expr_tokens(*x) + expr_tokens(*y));
        },
        Expr::Equiv(x, y) => {
            let body = render(*x) + seq![' '] + render(*y);
            assert(is_space(' '));
            lemma_render_tokens(*x, seq![' '] + (render(*y) + close));
            lemma_render_tokens(*y, close);
            lemma_binary_body(*x, *y, r);
            lemma_node_tokens(
                seq!['e', 'q', 'u', 'i', 'v'],
                body,
                expr_tokens(*x) + expr_tokens(*y),
                r,
            );
            assert(render(e) + r =~= seq!['('] + seq!['e', 'q', 'u', 'i', 'v'] + seq![' '] + body
                + seq![')'] + r);
            assert(seq![seq!['('], seq!['e', 'q', 'u', 'i', 'v']] + (expr_tokens(*x) + expr_tokens(
                *y,
            )) =~= seq![seq!['('], seq!['e', 'q', 'u', 'i', 'v']] + expr_tokens(*x) + expr_tokens(
                *y,
            ));
        },
    }
}

/// The tokens of `x y)` followed by `r`.
proof fn lemma_binary_body(x: Expr, y: Expr, r: Seq<char>)
    requires
        tokens_from(Seq::empty(), render(x) + (seq![' '] + (render(y) + (seq![')'] + r))))
            == expr_tokens(x) + tokens_from(Seq::empty(), seq![' '] + (render(y) + (seq![')']
            + r))),
        tokens_from(Seq::empty(), render(y) + (seq![')'] + r)) == expr_tokens(y) + tokens_from(
            Seq::empty(),
            seq![')'] + r,
        ),
    ensures
        tokens_from(Seq::empty(), render(x) + seq![' '] + render(y) + (seq![')'] + r))
            == expr_tokens(x) + expr_tokens(y) + tokens_from(Seq::empty(), seq![')'] + r),
{
    let close = seq![')'] + r;
    let mid = seq![' '] + (render(y) + close);
    lemma_space_token(Seq::empty(), render(y) + close);
    assert(render(x) + seq![' '] + render(y) + close =~= render(x) + mid);
    assert(flush(Seq::<char>::empty()) =~= Seq::<Seq<char>>::empty());
    assert(Seq::<Seq<char>>::empty() + tokens_from(Seq::empty(), render(y) + close)
        =~= tokens_from(Seq::empty(), render(y) + close));
    assert(expr_tokens(x) + (expr_tokens(y) + tokens_from(Seq::empty(), close)) =~= expr_tokens(x)
        + expr_tokens(y) + tokens_from(Seq::empty(), close));
}

proof fn lemma_parse_decimal(n: nat)
    requires
        1 <= n <= i32::MAX,
    ensures
        parse_i32_spec(nat_decimal(n)) == Some(n as i32),
{
    lemma_nat_decimal_digits(n);
    let s = nat_decimal(n);
    assert(is_digit(s[0]));
}

proof fn lemma_binary_tokens_at(e: Expr, x: Expr, y: Expr, o: Seq<char>, t: Seq<Seq<char>>, p: int)
    requires
        expr_tokens(e) == seq![seq!['('], o] + expr_tokens(x) + expr_tokens(y) + seq![seq![')']],
        0 <= p,
        p + expr_tokens(e).len() <= t.len(),
        t.subrange(p, p + expr_tokens(e).len()) == expr_tokens(e),
    ensures
        t[p] == seq!['('],
        t[p + 1] == o,
        t.subrange(p + 2, p + 2 + expr_tokens(x).len()) == expr_tokens(x),
        t.subrange(p + 2 + expr_tokens(x).len(), p + 2 + expr_tokens(x).len() + expr_tokens(
            y,
        ).len()) == expr_tokens(y),
        t[p + 2 + expr_tokens(x).len() + expr_tokens(y).len()] == seq![')'],
        expr_tokens(e).len() == expr_tokens(x).len() + expr_tokens(y).len() + 3,
{
    let et = expr_tokens(e);
    let xt = expr_tokens(x);
    let yt = expr_tokens(y);
    let n = et.len() as int;
    assert forall|i: int| 0 <= i < n implies t[p + i] == #[trigger] et[i] by {
        assert(t.subrange(p, p + n)[i] == t[p + i]);
    }
    assert(t[p] == et[0] && t[p + 1] == et[1]);
    assert(t.subrange(p + 2, p + 2 + xt.len()) =~= xt) by {
        assert forall|i: int| 0 <= i < xt.len() implies t.subrange(p + 2, p + 2 + xt.len())[i]
            == xt[i] by {
            assert(et[2 + i] == xt[i]);
        }
    }
    let q1 = p + 2 + xt.len();
    assert(t.subrange(q1, q1 + yt.len()) =~= yt) by {
        assert forall|i: int| 0 <= i < yt.len() implies t.subrange(q1, q1 + yt.len())[i]
            == yt[i] by {
            assert(et[2 + xt.len() + i] == yt[i]);
        }
    }
    assert(t[q1 + yt.len()] == et[n - 1]);
}

proof fn lemma_var_token_at(v: i32, t: Seq<Seq<char>>, p: int)
    requires
        v >= 1,
        0 <= p < t.len(),
        t.subrange(p, p + 1) == expr_tokens(Expr::Var(v)),
    ensures
        parse_at(t, p) == Ok::<(Expr, int), (ParseErr, int)>((Expr::Var(v), p + 1)),
{
    assert(t[p] == t.subrange(p, p + 1)[0]);
    lemma_parse_decimal(v as nat);
    assert(t[p][0] == 'x');
    assert(t[p].drop_first() =~= nat_decimal(v as nat));
}

proof fn lemma_not_tokens_at(e: Expr, x: Expr, t: Seq<Seq<char>>, p: int)
    requires
        expr_tokens(e) == seq![seq!['('], seq!['n', 'o', 't']] + expr_tokens(x) + seq![seq![')']],
        0 <= p,
        p + expr_tokens(e).len() <= t.len(),
        t.subrange(p, p + expr_tokens(e).len()) == expr_tokens(e),
    ensures
        t[p] == seq!['('],
        t[p + 1] == seq!['n', 'o', 't'],
        t.subrange(p + 2, p + 2 + expr_tokens(x).len()) == expr_tokens(x),
        t[p + 2 + expr_tokens(x).len()] == seq![')'],
        expr_tokens(e).len() == expr_tokens(x).len() + 3,
{
    let et = expr_tokens(e);
    let xt = expr_tokens(x);
    let n = et.len() as int;
    assert forall|i: int| 0 <= i < n implies t[p + i] == #[trigger] et[i] by {
        assert(t.subrange(p, p + n)[i] == t[p + i]);
    }
    assert(t[p] == et[0] && t[p + 1] == et[1]);
    assert(t.subrange(p + 2, p + 2 + xt.len()) =~= xt) by {
        assert forall|i: int| 0 <= i < xt.len() implies t.subrange(p + 2, p + 2 + xt.len())[i]
            == xt[i] by {
            assert(et[2 + i] == xt[i]);
        }
    }
    assert(t[p + 2 + xt.len()] == et[n - 1]);
}

/// The tokens of `e`, found from position `p` of `t`, parse back to `e`.
#[verifier::spinoff_prover]
#[verifier::rlimit(40)]
proof fn lemma_parse_expr_tokens(e: Expr, t: Seq<Seq<char>>, p: int)
    requires
        vars_positive(e),
        0 <= p,
        p + expr_tokens(e).len() <= t.len(),
        t.subrange(p, p + expr_tokens(e).len()) == expr_tokens(e),
    ensures
        parse_at(t, p) == Ok::<(Expr, int), (ParseErr, int)>((e, p + expr_tokens(e).len())),
    decreases e,
{
    match e {
        Expr::Var(v) => {
            assert(expr_tokens(e).len() == 1);
            lemma_var_token_at(v, t, p);
            assert(parse_at(t, p) == Ok::<(Expr, int), (ParseErr, int)>((Expr::Var(v), p + 1)));
        },
        Expr::Not(x) => {
            lemma_not_tokens_at(e, *x, t, p);
            lemma_parse_expr_tokens(*x, t, p + 2);
            reveal_strlit("not");
            assert(seq!['n', 'o', 't'] =~= "not"@);
        },
        Expr::And(x, y) => {
            lemma_binary_tokens_at(e, *x, *y, seq!['a', 'n', 'd'], t, p);
            lemma_parse_expr_tokens(*x, t, p + 2);
            lemma_parse_expr_tokens(*y, t, p + 2 + expr_tokens(*x).len());
            reveal_strlit("not");
            assert(seq!['a', 'n', 'd'] != "not"@);
            reveal_strlit("and");
            assert(seq!['a', 'n', 'd'] =~= "and"@);
        },
        Expr::Or(x, y) => {
            lemma_binary_tokens_at(e, *x, *y, seq!['o', 'r'], t, p);
            lemma_parse_expr_tokens(*x, t, p + 2);
            lemma_parse_expr_tokens(*y, t, p + 2 + expr_tokens(*x).len());
            reveal_strlit("not");
            assert(seq!['o', 'r'] != "not"@);
            reveal_strlit("and");
            reveal_strlit("or");
            assert(seq!['o', 'r'] =~= "or"@);
            assert(seq!['o', 'r'] != "and"@);
        },
        Expr::Impl(x, y) => {
            lemma_binary_tokens_at(e, *x, *y, seq!['i', 'm', 'p', 'l'], t, p);
            lemma_parse_expr_tokens(*x, t, p + 2);
            lemma_parse_expr_tokens(*y, t, p + 2 + expr_tokens(*x).len());
            reveal_strlit("not");
            assert(seq!['i', 'm', 'p', 'l'] != "not"@);
            reveal_strlit("and");
            reveal_strlit("or");
            reveal_strlit("impl");
            assert(seq!['i', 'm', 'p', 'l'] =~= "impl"@);
            assert(seq!['i', 'm', 'p', 'l'] != "and"@);
            assert(seq!['i', 'm', 'p', 'l'] != "or"@);
        },
        Expr::Equiv(x, y) => {
            lemma_binary_tokens_at(e, *x, *y, seq!['e', 'q', 'u', 'i', 'v'], t, p);
            lemma_parse_expr_tokens(*x, t, p + 2);
            lemma_parse_expr_tokens(*y, t, p + 2 + expr_tokens(*x).len());
            reveal_strlit("not");
            assert(seq!['e', 'q', 'u', 'i', 'v'] != "not"@);
            reveal_strlit("and");
            reveal_strlit("or");
            reveal_strlit("impl");
            reveal_strlit("equiv");
            assert(seq!['e', 'q', 'u', 'i', 'v'] =~= "equiv"@);
            assert(seq!['e', 'q', 'u', 'i', 'v'] != "and"@);
            assert(seq!['e', 'q', 'u', 'i', 'v'] != "or"@);
            assert(seq!['e', 'q', 'u', 'i', 'v'] != "impl"@);
        },
    }
}

/// Reading a rendering back: the rendering of an expression whose variables
/// are all positive tokenizes and parses back to that same expression, and
/// the parse reads every token.  So `Parser::new(&e.to_string()).parse()`
/// gives `Ok(e)` and leaves nothing unread.
pub proof fn lemma_render_round_trip(e: Expr)
    requires
        vars_positive(e),
    ensures
        parse_at(tokenize(render(e)), 0) == Ok::<(Expr, int), (ParseErr, int)>(
            (e, tokenize(render(e)).len() as int),
        ),
{
    let emp = Seq::<char>::empty();
    lemma_render_tokens(e, emp);
    assert(render(e) + emp =~= render(e));
    assert(tokens_from(emp, emp) =~= Seq::<Seq<char>>::empty());
    let t = expr_tokens(e);
    assert(t + Seq::<Seq<char>>::empty() =~= t);
    assert(t.subrange(0, t.len() as int) =~= t);
    lemma_parse_expr_tokens(e, t, 0);
}

// ---------------------------------------------------------------------------
// Parser
// ---------------------------------------------------------------------------

/// All characters but the first.
fn tail_chars(v: &Vec<char>) -> (r: Vec<char>)
    requires
        v@.len() > 0,
    ensures
        r@ == v@.drop_first(),
{
    let mut r: Vec<char> = Vec::new();
    let mut i: usize = 1;
    while i < v.len()
        invariant
            1 <= i <= v@.len(),
            r@ == v@.subrange(1, i as int),
        decreases v@.len() - i,
    {
        r.push(v[i]);
        i = i + 1;
        proof {
            assert(r@ =~= v@.subrange(1, i as int));
        }
    }
    proof {
        assert(r@ =~= v@.drop_first());
    }
    r
}

/// A parser for boolean expressions in prefix notation.
pub struct Parser {
    tokens: Vec<Vec<char>>,
    pos: usize,
}

pub open spec fn token_seqs(v: Seq<Vec<char>>) -> Seq<Seq<char>> {
    v.map_values(|t: Vec<char>| t@)
}

impl Parser {
    /// The token sequence.
    pub closed spec fn tokens(&self) -> Seq<Seq<char>> {
        token_seqs(self.tokens@)
    }

    /// Position of the next unread token.
    pub closed spec fn position(&self) -> int {
        self.pos as int
    }

    pub closed spec fn wf(&self) -> bool {
        self.pos <= self.tokens@.len()
    }

    /// Creates a parser for `input`; the input is tokenized immediately.
    pub fn new(input: &str) -> (p: Self)
        ensures
            p.wf(),
            p.tokens() == tokenize(input@),
            p.position() == 0,
    {
        let chars = str_chars(input);
        let mut tokens: Vec<Vec<char>> = Vec::new();
        let mut current: Vec<char> = Vec::new();
        let mut i: usize = 0;
        proof {
            assert(chars@.skip(0) =~= chars@);
        }
        while i < chars.len()
            invariant
                i <= chars@.len(),
                token_seqs(tokens@) + tokens_from(current@, chars@.skip(i as int)) == tokenize(
                    chars@,
                ),
                chars@ == input@,
            decreases chars@.len() - i,
        {
            let c = chars[i];
            let ghost rest = chars@.skip(i as int);
            let ghost t0 = token_seqs(tokens@);
            let ghost cur0 = current@;
            proof {
                assert(rest[0] == c);
                assert(rest.drop_first() =~= chars@.skip(i + 1));
            }
            if c == '(' || c == ')' {
                if current.len() > 0 {
                    let t = current;
                    tokens.push(t);
                    current = Vec::new();
                }
                let mut single: Vec<char> = Vec::new();
                single.push(c);
                tokens.push(single);
                proof {
                    assert(single@ =~= seq![c]);
                    assert(token_seqs(tokens@) =~= t0 + flush(cur0) + seq![seq![c]]);
                    assert(current@ =~= Seq::<char>::empty());
                }
            } else if char_is_space(c) {
                if current.len() > 0 {
                    let t = current;
                    tokens.push(t);
                    current = Vec::new();
                }
                proof {
                    assert(token_seqs(tokens@) =~= t0 + flush(cur0));
                    assert(current@ =~= Seq::<char>::empty());
                }
            } else {
                current.push(c);
                proof {
                    assert(token_seqs(tokens@) =~= t0);
                }
            }
            i = i + 1;
            proof {
                assert(token_seqs(tokens@) + tokens_from(current@, chars@.skip(i as int))
                    =~= t0 + tokens_from(cur0, rest));
            }
        }
        let ghost t0 = token_seqs(tokens@);
        let ghost cur0 = current@;
        if current.len() > 0 {
            tokens.push(current);
        }
        proof {
            assert(chars@.skip(i as int) =~= Seq::<char>::empty());
            assert(token_seqs(tokens@) =~= t0 + flush(cur0));
            assert(token_seqs(tokens@) =~= tokenize(input@));
        }
        Parser { tokens, pos: 0 }
    }

    /// Whether the token at `q` is exactly `s`.
    fn token_is(&self, q: usize, s: &[char]) -> (b: bool)
        requires
            q < self.tokens@.len(),
        ensures
            b == (self.tokens()[q as int] == s@),
    {
        crate::text::chars_eq(self.tokens[q].as_slice(), s)
    }

    fn expect_close(&mut self) -> (r: Result<(), ParseError>)
        requires
            old(self).wf(),
        ensures
            final(self).wf(),
            final(self).tokens() == old(self).tokens(),
            match expect_close(old(self).tokens(), old(self).position()) {
                Ok(q) => r is Ok && final(self).position() == q,
                Err((e, q)) => r is Err && r->Err_0.model() == e && final(self).position() == q,
            },
    {
        proof {
            assert(old(self).tokens().len() == self.tokens@.len());
            assert([')']@ =~= seq![')']);
        }
        if self.pos < self.tokens.len() {
            let q = self.pos;
            proof {
                assert(self.tokens()[q as int] == self.tokens@[q as int]@);
            }
            self.pos = self.pos + 1;
            if self.token_is(q, &[')']) {
                Ok(())
            } else {
                let close = vec![')'];
                let expected = string_from_chars(&close);
                let found = string_from_chars(&self.tokens[q]);
                proof {
                    assert(close@ =~= seq![')']);
                }
                Err(ParseError::ExpectedToken { expected, found })
            }
        } else {
            let close = vec![')'];
            let expected = string_from_chars(&close);
            let mut eoi: Vec<char> = Vec::new();
            push_chars(&mut eoi, &['e', 'n', 'd', ' ', 'o', 'f', ' ', 'i', 'n', 'p', 'u', 't']);
            let found = string_from_chars(&eoi);
            proof {
                assert(close@ =~= seq![')']);
                reveal_strlit("end of input");
                assert(eoi@ =~= "end of input"@);
            }
            Err(ParseError::ExpectedToken { expected, found })
        }
    }

    fn parse_expr(&mut self) -> (r: Result<Expr, ParseError>)
        requires
            old(self).wf(),
        ensures
            final(self).wf(),
            final(self).tokens() == old(self).tokens(),
            match parse_at(old(self).tokens(), old(self).position()) {
                Ok((e, q)) => r == Ok::<Expr, ParseError>(e) && final(self).position() == q,
                Err((e, q)) => r is Err && r->Err_0.model() == e && final(self).position() == q,
            },
        decreases old(self).tokens@.len() - old(self).pos,
    {
        let ghost t = self.tokens();
        let ghost p = self.pos as int;
        proof {
            lemma_parse_progress(t, p);
            assert(t.len() == self.tokens@.len());
            assert(['(']@ =~= seq!['(']);
            reveal_strlit("not");
            reveal_strlit("and");
            reveal_strlit("or");
            reveal_strlit("impl");
            reveal_strlit("equiv");
            assert(['n', 'o', 't']@ =~= "not"@);
            assert(['a', 'n', 'd']@ =~= "and"@);
            assert(['o', 'r']@ =~= "or"@);
            assert(['i', 'm', 'p', 'l']@ =~= "impl"@);
            assert(['e', 'q', 'u', 'i', 'v']@ =~= "equiv"@);
        }
        if self.pos >= self.tokens.len() {
            return Err(ParseError::UnexpectedEndOfInput);
        }
        let p0 = self.pos;
        if self.token_is(p0, &['(']) {
            if p0 + 1 >= self.tokens.len() {
                self.pos = p0 + 1;
                return Err(ParseError::UnexpectedEndOfInput);
            }
            self.pos = p0 + 2;
            let ghost op = t[p + 1];
            proof {
                reveal_strlit("not");
                reveal_strlit("and");
                reveal_strlit("or");
                reveal_strlit("impl");
                reveal_strlit("equiv");
            }
            if self.token_is(p0 + 1, &['n', 'o', 't']) {
                proof {
                    assert(op == "not"@);
                }
                let x = match self.parse_expr() {
                    Ok(x) => x,
                    Err(e) => {
                        return Err(e);
                    },
                };
                proof {
                    lemma_parse_progress(t, p + 2);
                }
                match self.expect_close() {
                    Ok(()) => {},
                    Err(e) => {
                        return Err(e);
                    },
                }
                Ok(Expr::Not(Box::new(x)))
            } else {
                let is_and = self.token_is(p0 + 1, &['a', 'n', 'd']);
                let is_or = self.token_is(p0 + 1, &['o', 'r']);
                let is_impl = self.token_is(p0 + 1, &['i', 'm', 'p', 'l']);
                let is_equiv = self.token_is(p0 + 1, &['e', 'q', 'u', 'i', 'v']);
                proof {
                    assert(is_and == (op == "and"@));
                    assert(is_or == (op == "or"@));
                    assert(is_impl == (op == "impl"@));
                    assert(is_equiv == (op == "equiv"@));
                    assert(op != "not"@);
                }
                if is_and || is_or || is_impl || is_equiv {
                    let x = match self.parse_expr() {
                        Ok(x) => x,
                        Err(e) => {
                            return Err(e);
                        },
                    };
                    proof {
                        lemma_parse_progress(t, p + 2);
                    }
                    let ghost q1 = self.pos as int;
                    let y = match self.parse_expr() {
                        Ok(y) => y,
                        Err(e) => {
                            return Err(e);
                        },
                    };
                    proof {
                        lemma_parse_progress(t, q1);
                    }
                    match self.expect_close() {
                        Ok(()) => {},
                        Err(e) => {
                            return Err(e);
                        },
                    }
                    if is_and {
                        Ok(Expr::And(Box::new(x), Box::new(y)))
                    } else if is_or {
                        Ok(Expr::Or(Box::new(x), Box::new(y)))
                    } else if is_impl {
                        Ok(Expr::Impl(Box::new(x), Box::new(y)))
                    } else {
                        Ok(Expr::Equiv(Box::new(x), Box::new(y)))
                    }
                } else if self.tokens[p0 + 1].len() > 0 && self.tokens[p0 + 1][0] == 'x' {
                    let num = tail_chars(&self.tokens[p0 + 1]);
                    proof {
                        assert(num@ =~= op.drop_first());
                    }
                    let pv = parse_i32(&num);
                    let ok_var = match pv {
                        Some(v) => v >= 1,
                        None => false,
                    };
                    if ok_var {
                        let v = pv.unwrap();
                        match self.expect_close() {
                            Ok(()) => Ok(Expr::Var(v)),
                            Err(e) => Err(e),
                        }
                    } else {
                        Err(ParseError::InvalidVariable(string_from_chars(&self.tokens[p0 + 1])))
                    }
                } else {
                    Err(ParseError::UnknownOperator(string_from_chars(&self.tokens[p0 + 1])))
                }
            }
        } else if self.tokens[p0].len() > 0 && self.tokens[p0][0] == 'x' {
            self.pos = p0 + 1;
            let num = tail_chars(&self.tokens[p0]);
            proof {
                assert(num@ =~= t[p].drop_first());
            }
            let pv = parse_i32(&num);
            let ok_var = match pv {
                Some(v) => v >= 1,
                None => false,
            };
            if ok_var {
                Ok(Expr::Var(pv.unwrap()))
            } else {
                Err(ParseError::InvalidVariable(string_from_chars(&self.tokens[p0])))
            }
        } else {
            Err(ParseError::UnexpectedToken(string_from_chars(&self.tokens[p0])))
        }
    }

    /// Parses the next expression.  Tokens after the expression are left
    /// unread.
    pub fn parse(&mut self) -> (r: Result<Expr, ParseError>)
        requires
            old(self).wf(),
        ensures
            final(self).wf(),
            final(self).tokens() == old(self).tokens(),
            match parse_at(old(self).tokens(), old(self).position()) {
                Ok((e, q)) => r == Ok::<Expr, ParseError>(e) && final(self).position() == q,
                Err((e, q)) => r is Err && r->Err_0.model() == e && final(self).position() == q,
            },
    {
        self.parse_expr()
    }
}

impl ParseError {
    /// The human-readable message of the error, e.g. `Unknown operator: 'foo'`.
    pub fn to_string(&self) -> (s: String)
        ensures
            s@ == parse_err_message(self.model()),
    {
        let mut out: Vec<char> = Vec::new();
        match self {
            ParseError::UnknownOperator(op) => {
                push_chars(
                    &mut out,
                    &['U', 'n', 'k', 'n', 'o', 'w', 'n', ' ', 'o', 'p', 'e', 'r', 'a', 't', 'o', 'r', ':', ' ', '\''],
                );
                push_chars(&mut out, str_chars(op.as_str()).as_slice());
                out.push('\'');
                proof {
                    reveal_strlit("Unknown operator: '");
                    reveal_strlit("'");
                }
            },
            ParseError::InvalidVariable(v) => {
                push_chars(
                    &mut out,
                    &['I', 'n', 'v', 'a', 'l', 'i', 'd', ' ', 'v', 'a', 'r', 'i', 'a', 'b', 'l', 'e', ':', ' ', '\''],
                );
                push_chars(&mut out, str_chars(v.as_str()).as_slice());
                out.push('\'');
                proof {
                    reveal_strlit("Invalid variable: '");
                    reveal_strlit("'");
                }
            },
            ParseError::UnexpectedToken(t) => {
                push_chars(
                    &mut out,
                    &['U', 'n', 'e', 'x', 'p', 'e', 'c', 't', 'e', 'd', ' ', 't', 'o', 'k', 'e', 'n', ':', ' '],
                );
                push_chars(&mut out, str_chars(t.as_str()).as_slice());
                proof {
                    reveal_strlit("Unexpected token: ");
                }
            },
            ParseError::ExpectedToken { expected, found } => {
                push_chars(&mut out, &['E', 'x', 'p', 'e', 'c', 't', 'e', 'd', ' ', '\'']);
                push_chars(&mut out, str_chars(expected.as_str()).as_slice());
                push_chars(&mut out, &['\'', ',', ' ', 'f', 'o', 'u', 'n', 'd', ' ', '\'']);
                push_chars(&mut out, str_chars(found.as_str()).as_slice());
                out.push('\'');
                proof {
                    reveal_strlit("Expected '");
                    reveal_strlit("', found '");
                    reveal_strlit("'");
                }
            },
            ParseError::UnexpectedEndOfInput => {
                push_chars(
                    &mut out,
                    &['U', 'n', 'e', 'x', 'p', 'e', 'c', 't', 'e', 'd', ' ', 'e', 'n', 'd', ' ', 'o', 'f', ' ', 'i', 'n', 'p', 'u', 't'],
                );
                proof {
                    reveal_strlit("Unexpected end of input");
                }
            },
        }
        proof {
            assert(out@ =~= parse_err_message(self.model()));
        }
        string_from_chars(&out)
    }
}

} // verus!
