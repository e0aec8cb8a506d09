//! The DIMACS CNF front end: command-line options and the DIMACS reader.
//!
//! In DIMACS, lines starting with `c` are comments, `p cnf <vars> <clauses>`
//! declares the problem, and every later line is a clause: literals
//! separated by whitespace, ended by `0`.
use vstd::prelude::*;
use crate::literal::{Clause, Literal};
use crate::text::{char_seqs, chars_eq, words_from, parse_i32, parse_i32_spec, parse_u64, parse_u64_spec, parse_usize, parse_usize_spec, push_chars, split_words, str_chars, string_from_chars, words};

verus! {

/// The solver's options.
pub struct Config {
    pub file: Option<String>,
    pub stats: bool,
    pub no_preprocess: bool,
    pub timeout_secs: Option<u64>,
}

/// What the command line asks for.
pub enum ArgsAction {
    /// Print the usage text and stop.
    Help,
    /// Solve with these options.
    Run(Config),
}

/// Options read so far: input file, statistics, no preprocessing, timeout.
pub type OptionsSpec = (Option<Seq<char>>, bool, bool, Option<u64>);

/// The reading of the arguments from position `i` on, given the options read
/// before it: `Ok(None)` for help, `Ok(Some(options))`, or the error
/// message.
pub open spec fn args_from(args: Seq<Seq<char>>, i: int, o: OptionsSpec) -> Result<Option<OptionsSpec>, Seq<char>>
    decreases args.len() - i,
{
    if i >= args.len() || i < 0 {
        Ok(Some(o))
    } else {
        let a = args[i];
        if a == "--help"@ || a == "-h"@ {
            Ok(None)
        } else if a == "--stats"@ {
            args_from(args, i + 1, (o.0, true, o.2, o.3))
        } else if a == "--no-preprocess"@ {
            args_from(args, i + 1, (o.0, o.1, true, o.3))
        } else if a == "--timeout"@ {
            if i + 1 >= args.len() {
                Err("--timeout requires a value"@)
            } else {
                match parse_u64_spec(args[i + 1]) {
                    Some(secs) => args_from(args, i + 2, (o.0, o.1, o.2, Some(secs))),
                    None => Err("Invalid timeout value: "@ + args[i + 1]),
                }
            }
        } else if a.len() > 0 && a[0] == '-' {
            Err("Unknown option: "@ + a)
        } else if o.0 is Some {
            Err("Multiple input files not supported"@)
        } else {
            args_from(args, i + 1, (Some(a), o.1, o.2, o.3))
        }
    }
}

/// The options of a `Config`.
pub open spec fn config_spec(c: Config) -> OptionsSpec {
    (
        match c.file {
            Some(f) => Some(f@),
            None => None,
        },
        c.stats,
        c.no_preprocess,
        c.timeout_secs,
    )
}

/// The views of a list of strings.
pub open spec fn string_seqs(v: Seq<String>) -> Seq<Seq<char>> {
    v.map_values(|s: String| s@)
}

/// Reads the command-line arguments (without the program name).  `--help`
/// or `-h` asks for help; `--stats`, `--no-preprocess` and `--timeout SEC`
/// set options; any other argument starting with `-` is an error; one
/// other argument names the input file.  `nopp_set` (the `NOPP` variable
/// being set) turns preprocessing off as well.
pub fn parse_args(args: &Vec<String>, nopp_set: bool) -> (r: Result<ArgsAction, String>)
    ensures
        match args_from(string_seqs(args@), 0, (None, false, false, None)) {
            Err(e) => r matches Err(m) && m@ == e,
            Ok(None) => r matches Ok(ArgsAction::Help),
            Ok(Some(o)) => r matches Ok(ArgsAction::Run(c)) && config_spec(c) == (o.0, o.1, o.2 || nopp_set, o.3),
        },
{
    let ghost sa = string_seqs(args@);
    let mut file: Option<String> = None;
    let mut stats = false;
    let mut no_preprocess = false;
    let mut timeout_secs: Option<u64> = None;
    let mut i: usize = 0;
    let help = str_chars("--help");
    let h = str_chars("-h");
    let st = str_chars("--stats");
    let np = str_chars("--no-preprocess");
    let to = str_chars("--timeout");
    while i < args.len()
        invariant
            sa == string_seqs(args@),
            i <= args@.len(),
            help@ == "--help"@,
            h@ == "-h"@,
            st@ == "--stats"@,
            np@ == "--no-preprocess"@,
            to@ == "--timeout"@,
            args_from(sa, 0, (None, false, false, None)) == args_from(
                sa,
                i as int,
                (
                    match file {
                        Some(f) => Some(f@),
                        None => None,
                    },
                    stats,
                    no_preprocess,
                    timeout_secs,
                ),
            ),
        decreases args@.len() - i,
    {
        let a = str_chars(args[i].as_str());
        proof {
            assert(a@ == sa[i as int]);
        }
        if chars_eq(a.as_slice(), help.as_slice()) || chars_eq(a.as_slice(), h.as_slice()) {
            return Ok(ArgsAction::Help);
        } else if chars_eq(a.as_slice(), st.as_slice()) {
            stats = true;
        } else if chars_eq(a.as_slice(), np.as_slice()) {
            no_preprocess = true;
        } else if chars_eq(a.as_slice(), to.as_slice()) {
            if i + 1 >= args.len() {
                return Err("--timeout requires a value".to_string());
            }
            let v = str_chars(args[i + 1].as_str());
            proof {
                assert(v@ == sa[i + 1]);
            }
            match parse_u64(&v) {
                Some(secs) => {
                    timeout_secs = Some(secs);
                    i = i + 1;
                },
                None => {
                    let mut m = str_chars("Invalid timeout value: ");
                    push_chars(&mut m, v.as_slice());
                    return Err(string_from_chars(&m));
                },
            }
        } else if a.len() > 0 && a[0] == '-' {
            let mut m = str_chars("Unknown option: ");
            push_chars(&mut m, a.as_slice());
            return Err(string_from_chars(&m));
        } else {
            if file.is_some() {
                return Err("Multiple input files not supported".to_string());
            }
            file = Some(args[i].clone());
        }
        i = i + 1;
    }
    if !no_preprocess && nopp_set {
        no_preprocess = true;
    }
    Ok(ArgsAction::Run(Config { file, stats, no_preprocess, timeout_secs }))
}

/// Reading state: declared variable count, declared clause count, whether
/// the problem line was seen, and the clauses read.
pub type DimacsState = (usize, usize, bool, Seq<Seq<Literal>>);

/// The literal a DIMACS number stands for (`-l` wraps for the least `i32`).
pub open spec fn dimacs_literal(l: i32) -> Literal {
    if l > 0 {
        Literal { var: l, negated: false }
    } else {
        Literal { var: if l == i32::MIN { i32::MIN } else { -l as i32 }, negated: true }
    }
}

/// The numbers of a clause line up to (not including) the first 0.
pub open spec fn before_zero(vals: Seq<i32>) -> Seq<i32>
    decreases vals.len(),
{
    if vals.len() == 0 || vals[0] == 0 {
        Seq::empty()
    } else {
        seq![vals[0]] + before_zero(vals.drop_first())
    }
}

/// The numbers of the words, when all of them are `i32` values.
pub open spec fn word_numbers(w: Seq<Seq<char>>) -> Option<Seq<i32>>
    decreases w.len(),
{
    if w.len() == 0 {
        Some(Seq::empty())
    } else {
        match (parse_i32_spec(w[0]), word_numbers(w.drop_first())) {
            (Some(v), Some(rest)) => Some(seq![v] + rest),
            _ => None,
        }
    }
}

/// One line of DIMACS input, given as its words.
pub open spec fn dimacs_line(st: DimacsState, w: Seq<Seq<char>>) -> Result<DimacsState, Seq<char>> {
    if w.len() == 0 {
        Ok(st)
    } else if w[0][0] == 'c' {
        Ok(st)
    } else if w[0][0] == 'p' {
        if w.len() < 4 || w[1] != "cnf"@ {
            Err("Invalid problem line, expected 'p cnf <vars> <clauses>'"@)
        } else {
            match parse_usize_spec(w[2]) {
                None => Err("Invalid variable count"@),
                Some(nv) => match parse_usize_spec(w[3]) {
                    None => Err("Invalid clause count"@),
                    Some(nc) => Ok((nv, nc, true, st.3)),
                },
            }
        }
    } else if !st.2 {
        Err("Clause before problem line"@)
    } else {
        match word_numbers(w) {
            None => Err("Invalid literal"@),
            Some(vals) => {
                let c = before_zero(vals).map_values(|l: i32| dimacs_literal(l));
                if c.len() > 0 || vals.contains(0) {
                    Ok((st.0, st.1, st.2, st.3.push(c)))
                } else {
                    Ok(st)
                }
            },
        }
    }
}

/// The first `n` lines read from the start.
pub open spec fn dimacs_lines(lines: Seq<Seq<char>>, n: int) -> Result<DimacsState, Seq<char>>
    decreases n,
{
    if n <= 0 {
        Ok((0, 0, false, Seq::empty()))
    } else {
        match dimacs_lines(lines, n - 1) {
            Err(e) => Err(e),
            Ok(st) => dimacs_line(st, words(lines[n - 1])),
        }
    }
}

/// The literal lists of clauses.
pub open spec fn clause_lits(cs: Seq<Clause>) -> Seq<Seq<Literal>> {
    cs.map_values(|c: Clause| c@)
}

/// Reads a DIMACS problem from its lines: the declared variable count, the
/// clauses, and the declared clause count; or the message of the first
/// error (a problem line is required).
pub fn parse_dimacs(lines: &Vec<String>) -> (r: Result<(usize, Vec<Clause>, usize), String>)
    ensures
        match dimacs_lines(string_seqs(lines@), lines@.len() as int) {
            Err(e) => r matches Err(m) && m@ == e,
            Ok(st) => if !st.2 {
                r matches Err(m) && m@ == "No problem line found"@
            } else {
                r matches Ok(v) && v.0 == st.0 && clause_lits(v.1@) == st.3 && v.2 == st.1
            },
        },
{
    let ghost sl = string_seqs(lines@);
    let mut num_vars: usize = 0;
    let mut expected: usize = 0;
    let mut header_seen = false;
    let mut clauses: Vec<Clause> = Vec::new();
    let cnf = str_chars("cnf");
    let mut i: usize = 0;
    proof {
        assert(clause_lits(clauses@) =~= Seq::<Seq<Literal>>::empty());
    }
    while i < lines.len()
        invariant
            sl == string_seqs(lines@),
            i <= lines@.len(),
            cnf@ == "cnf"@,
            dimacs_lines(sl, i as int) == Ok::<DimacsState, Seq<char>>((num_vars, expected, header_seen, clause_lits(clauses@))),
        decreases lines@.len() - i,
    {
        let chars = str_chars(lines[i].as_str());
        let w = split_words(&chars);
        let ghost ws = char_seqs(w@);
        proof {
            assert(chars@ == sl[i as int]);
            assert(ws == words(sl[i as int]));
        }
        let ghost st = (num_vars, expected, header_seen, clause_lits(clauses@));
        if w.len() == 0 {
        } else if w[0].len() > 0 && w[0][0] == 'c' {
            proof {
                assert(ws[0][0] == 'c');
            }
        } else if w[0].len() > 0 && w[0][0] == 'p' {
            proof {
                assert(ws[0][0] == 'p');
            }
            if w.len() < 4 || !chars_eq(w[1].as_slice(), cnf.as_slice()) {
                proof {
                    lemma_dimacs_error(sl, i as int, sl.len() as int, "Invalid problem line, expected 'p cnf <vars> <clauses>'"@);
                }
                return Err("Invalid problem line, expected 'p cnf <vars> <clauses>'".to_string());
            }
            proof {
                assert(ws[1] == w@[1]@);
                assert(ws[2] == w@[2]@);
                assert(ws[3] == w@[3]@);
            }
            match parse_usize(&w[2]) {
                None => {
                    proof {
                        lemma_dimacs_error(sl, i as int, sl.len() as int, "Invalid variable count"@);
                    }
                    return Err("Invalid variable count".to_string());
                },
                Some(nv) => {
                    match parse_usize(&w[3]) {
                        None => {
                            proof {
                                lemma_dimacs_error(sl, i as int, sl.len() as int, "Invalid clause count"@);
                            }
                            return Err("Invalid clause count".to_string());
                        },
                        Some(nc) => {
                            num_vars = nv;
                            expected = nc;
                            header_seen = true;
                        },
                    }
                },
            }
        } else {
            proof {
                if w@.len() > 0 {
                    assert(w@[0]@.len() > 0) by {
                        lemma_words_nonempty(sl[i as int]);
                    }
                    assert(ws[0][0] != 'c' && ws[0][0] != 'p');
                }
            }
            if !header_seen {
                proof {
                    lemma_dimacs_error(sl, i as int, sl.len() as int, "Clause before problem line"@);
                }
                return Err("Clause before problem line".to_string());
            }
            let mut vals: Vec<i32> = Vec::new();
            let mut k: usize = 0;
            while k < w.len()
                invariant
                    ws == char_seqs(w@),
                    k <= w@.len(),
                    word_numbers(ws.subrange(0, k as int)) == Some(vals@),
                    i < lines@.len(),
                    sl == string_seqs(lines@),
                    ws == words(sl[i as int]),
                    dimacs_lines(sl, i as int) == Ok::<DimacsState, Seq<char>>(st),
                    st.2,
                    ws.len() > 0,
                    ws[0].len() > 0 && ws[0][0] != 'c' && ws[0][0] != 'p',
                decreases w@.len() - k,
            {
                match parse_i32(&w[k]) {
                    None => {
                        proof {
                            lemma_word_numbers_none(ws, k as int);
                            lemma_dimacs_error(sl, i as int, sl.len() as int, "Invalid literal"@);
                        }
                        return Err("Invalid literal".to_string());
                    },
                    Some(v) => {
                        proof {
                            lemma_word_numbers_push(ws, k as int, v);
                        }
                        vals.push(v);
                    },
                }
                k = k + 1;
            }
            proof {
                assert(ws.subrange(0, w@.len() as int) =~= ws);
            }
            let mut lits: Vec<Literal> = Vec::new();
            let mut has_zero = false;
            let mut k: usize = 0;
            while k < vals.len()
                invariant
                    k <= vals@.len(),
                    has_zero ==> vals@.contains(0),
                    !has_zero ==> forall|j: int| 0 <= j < k ==> vals@[j] != 0,
                    !has_zero ==> lits@ == vals@.subrange(0, k as int).map_values(|l: i32| dimacs_literal(l)),
                    has_zero ==> lits@ == before_zero(vals@).map_values(|l: i32| dimacs_literal(l)),
                decreases vals@.len() - k,
            {
                let l = vals[k];
                if !has_zero {
                    if l == 0 {
                        has_zero = true;
                        proof {
                            lemma_before_zero_prefix(vals@, k as int);
                        }
                    } else {
                        let lit = if l > 0 { Literal::positive(l) } else if l == i32::MIN { Literal::negative(i32::MIN) } else { Literal::negative(-l) };
                        let ghost l0 = lits@;
                        lits.push(lit);
                        proof {
                            assert(lit == dimacs_literal(l));
                            assert(lits@ =~= vals@.subrange(0, k + 1).map_values(|l: i32| dimacs_literal(l)));
                        }
                    }
                }
                k = k + 1;
            }
            proof {
                if !has_zero {
                    assert(vals@.subrange(0, vals@.len() as int) =~= vals@);
                    lemma_before_zero_none(vals@);
                    assert(!vals@.contains(0));
                }
            }
            if lits.len() > 0 || has_zero {
                let ghost c0 = clauses@;
                clauses.push(Clause::new(lits));
                proof {
                    assert(clause_lits(clauses@) =~= clause_lits(c0).push(lits@));
                }
            }
        }
        i = i + 1;
        proof {
            assert(dimacs_lines(sl, i as int) == Ok::<DimacsState, Seq<char>>((num_vars, expected, header_seen, clause_lits(clauses@))));
        }
    }
    if !header_seen {
        return Err("No problem line found".to_string());
    }
    Ok((num_vars, clauses, expected))
}

/// Once a line fails, the reading of all lines fails with its message.
proof fn lemma_dimacs_error(lines: Seq<Seq<char>>, i: int, n: int, e: Seq<char>)
    requires
        0 <= i < n,
        dimacs_lines(lines, i + 1) == Err::<DimacsState, Seq<char>>(e),
    ensures
        dimacs_lines(lines, n) == Err::<DimacsState, Seq<char>>(e),
    decreases n - i,
{
    if n > i + 1 {
        lemma_dimacs_error(lines, i, n - 1, e);
    }
}

/// Every word has at least one character.
pub proof fn lemma_words_nonempty(s: Seq<char>)
    ensures
        forall|i: int| 0 <= i < words(s).len() ==> (#[trigger] words(s)[i]).len() > 0,
{
    lemma_words_from_nonempty(Seq::empty(), s);
}

proof fn lemma_words_from_nonempty(cur: Seq<char>, rest: Seq<char>)
    ensures
        forall|i: int| 0 <= i < words_from(cur, rest).len() ==> (#[trigger] words_from(cur, rest)[i]).len() > 0,
    decreases rest.len(),
{
    let done = if cur.len() > 0 {
        seq![cur]
    } else {
        Seq::<Seq<char>>::empty()
    };
    if rest.len() == 0 {
        assert(words_from(cur, rest) == done);
    } else if crate::text::is_space(rest[0]) {
        lemma_words_from_nonempty(Seq::empty(), rest.drop_first());
        let tail = words_from(Seq::empty(), rest.drop_first());
        assert(words_from(cur, rest) == done + tail);
        assert forall|i: int| 0 <= i < words_from(cur, rest).len() implies (#[trigger] words_from(cur, rest)[i]).len() > 0 by {
            if i >= done.len() {
                assert((done + tail)[i] == tail[i - done.len()]);
            } else {
                assert((done + tail)[i] == done[i]);
            }
        }
    } else {
        lemma_words_from_nonempty(cur.push(rest[0]), rest.drop_first());
        assert(words_from(cur, rest) == words_from(cur.push(rest[0]), rest.drop_first()));
    }
}

proof fn lemma_word_numbers_push(w: Seq<Seq<char>>, k: int, v: i32)
    requires
        0 <= k < w.len(),
        word_numbers(w.subrange(0, k)) is Some,
        parse_i32_spec(w[k]) == Some(v),
    ensures
        word_numbers(w.subrange(0, k + 1)) == Some(word_numbers(w.subrange(0, k))->0.push(v)),
    decreases k,
{
    if k == 0 {
        let s1 = w.subrange(0, 1);
        assert(s1.drop_first() =~= Seq::<Seq<char>>::empty());
        assert(s1[0] == w[0]);
        assert(word_numbers(s1.drop_first()) == Some(Seq::<i32>::empty()));
        assert(word_numbers(s1) == Some(seq![v] + Seq::<i32>::empty()));
        assert(w.subrange(0, 0) =~= Seq::<Seq<char>>::empty());
        assert(seq![v] + Seq::<i32>::empty() =~= Seq::<i32>::empty().push(v));
    } else {
        let t = w.drop_first();
        let sk = w.subrange(0, k);
        let sk1 = w.subrange(0, k + 1);
        assert(sk.drop_first() =~= t.subrange(0, k - 1));
        assert(sk1.drop_first() =~= t.subrange(0, k));
        assert(sk[0] == w[0]);
        assert(sk1[0] == w[0]);
        assert(t[k - 1] == w[k]);
        let p0 = parse_i32_spec(w[0]);
        assert(p0 is Some && word_numbers(t.subrange(0, k - 1)) is Some);
        lemma_word_numbers_push(t, k - 1, v);
        let rest = word_numbers(t.subrange(0, k - 1))->0;
        assert(word_numbers(sk) == Some(seq![p0->0] + rest));
        assert(word_numbers(t.subrange(0, k)) == Some(rest.push(v)));
        assert(word_numbers(sk1) == Some(seq![p0->0] + rest.push(v)));
        assert(seq![p0->0] + rest.push(v) =~= (seq![p0->0] + rest).push(v));
    }
}

proof fn lemma_word_numbers_none(w: Seq<Seq<char>>, k: int)
    requires
        0 <= k < w.len(),
        parse_i32_spec(w[k]) is None,
    ensures
        word_numbers(w) is None,
    decreases k,
{
    if k > 0 {
        lemma_word_numbers_none(w.drop_first(), k - 1);
    }
}

proof fn lemma_before_zero_prefix(vals: Seq<i32>, k: int)
    requires
        0 <= k < vals.len(),
        vals[k] == 0,
        forall|j: int| 0 <= j < k ==> vals[j] != 0,
    ensures
        before_zero(vals) == vals.subrange(0, k),
    decreases k,
{
    if k > 0 {
        lemma_before_zero_prefix(vals.drop_first(), k - 1);
        assert(seq![vals[0]] + vals.drop_first().subrange(0, k - 1) =~= vals.subrange(0, k));
    } else {
        assert(vals.subrange(0, 0) =~= Seq::<i32>::empty());
    }
}

proof fn lemma_before_zero_none(vals: Seq<i32>)
    requires
        forall|j: int| 0 <= j < vals.len() ==> vals[j] != 0,
    ensures
        before_zero(vals) == vals,
    decreases vals.len(),
{
    if vals.len() > 0 {
        lemma_before_zero_none(vals.drop_first());
        assert(seq![vals[0]] + vals.drop_first() =~= vals);
    }
}

} // verus!
