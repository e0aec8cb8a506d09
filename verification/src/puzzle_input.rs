//! Text input of the puzzles: a first line of sizes, then one line per
//! board row, clue list, edge or subset.
use vstd::prelude::*;
use crate::dimacs_sat::string_seqs;
use crate::expr::{nat_decimal, push_usize_decimal};
use crate::minesweeper::Cell;
use crate::text::{char_is_space, char_seqs, is_space, parse_usize, parse_usize_spec, split_words, str_chars, string_from_chars, words};

verus! {

/// The values of the words, when each is a `usize`.
pub open spec fn usize_words(w: Seq<Seq<char>>) -> Option<Seq<usize>>
    decreases w.len(),
{
    if w.len() == 0 {
        Some(Seq::empty())
    } else {
        match (usize_words(w.drop_last()), parse_usize_spec(w.last())) {
            (Some(vs), Some(v)) => Some(vs.push(v)),
            _ => None,
        }
    }
}

/// Parses every word as a `usize`; `None` as soon as one does not parse.
pub fn parse_usize_words(w: &Vec<Vec<char>>) -> (r: Option<Vec<usize>>)
    ensures
        match usize_words(char_seqs(w@)) {
            Some(vs) => r matches Some(v) && v@ == vs,
            None => r is None,
        },
{
    let ghost ws = char_seqs(w@);
    let mut out: Vec<usize> = Vec::new();
    let mut i: usize = 0;
    while i < w.len()
        invariant
            ws == char_seqs(w@),
            i <= w@.len(),
            usize_words(ws.take(i as int)) == Some(out@),
        decreases w@.len() - i,
    {
        proof {
            assert(ws.take(i + 1).drop_last() =~= ws.take(i as int));
            assert(ws.take(i + 1).last() == w@[i as int]@);
        }
        match parse_usize(&w[i]) {
            Some(v) => {
                out.push(v);
            },
            None => {
                proof {
                    lemma_usize_words_prefix_none(ws, i + 1);
                }
                return None;
            },
        }
        i = i + 1;
    }
    proof {
        assert(ws.take(w@.len() as int) =~= ws);
    }
    Some(out)
}

/// Once a prefix of the words fails to parse, the whole list fails.
proof fn lemma_usize_words_prefix_none(ws: Seq<Seq<char>>, k: int)
    requires
        0 <= k <= ws.len(),
        usize_words(ws.take(k)) is None,
    ensures
        usize_words(ws) is None,
    decreases ws.len() - k,
{
    if k < ws.len() {
        assert(ws.take(k + 1).drop_last() =~= ws.take(k));
        lemma_usize_words_prefix_none(ws, k + 1);
    } else {
        assert(ws.take(k) =~= ws);
    }
}

/// The dimensions on the first line: two `usize` words.
pub open spec fn dims_spec(line: Seq<char>) -> Result<(usize, usize), Seq<char>> {
    match usize_words(words(line)) {
        None => Err("Invalid dimension"@),
        Some(d) => if d.len() != 2 {
            Err("Expected 'rows cols' on first line"@)
        } else {
            Ok((d[0], d[1]))
        },
    }
}

/// Reads "rows cols" from the first line.
pub fn parse_dims(line: &String) -> (r: Result<(usize, usize), String>)
    ensures
        match dims_spec(line@) {
            Ok(d) => r == Ok::<(usize, usize), String>(d),
            Err(e) => r matches Err(m) && m@ == e,
        },
{
    let chars = str_chars(line.as_str());
    let w = split_words(&chars);
    match parse_usize_words(&w) {
        None => Err("Invalid dimension".to_string()),
        Some(d) => {
            if d.len() != 2 {
                Err("Expected 'rows cols' on first line".to_string())
            } else {
                Ok((d[0], d[1]))
            }
        },
    }
}

/// The lights of a board line: every non-whitespace character, `'1'` being
/// a light that is on.
pub open spec fn row_cells(line: Seq<char>) -> Seq<bool>
    decreases line.len(),
{
    if line.len() == 0 {
        Seq::empty()
    } else if is_space(line.last()) {
        row_cells(line.drop_last())
    } else {
        row_cells(line.drop_last()).push(line.last() == '1')
    }
}

/// The message for a board line of the wrong width.
pub open spec fn width_message(cols: nat, got: nat) -> Seq<char> {
    "Expected "@ + nat_decimal(cols) + " columns, got "@ + nat_decimal(got)
}

/// The first `k` board rows, read from lines `1..=k`.
pub open spec fn board_rows(lines: Seq<Seq<char>>, cols: nat, k: nat) -> Result<Seq<Seq<bool>>, Seq<char>>
    decreases k,
{
    if k == 0 {
        Ok(Seq::empty())
    } else {
        match board_rows(lines, cols, (k - 1) as nat) {
            Err(e) => Err(e),
            Ok(b) => if k >= lines.len() {
                Err("Missing board row"@)
            } else if row_cells(lines[k as int]).len() != cols {
                Err(width_message(cols, row_cells(lines[k as int]).len()))
            } else {
                Ok(b.push(row_cells(lines[k as int])))
            },
        }
    }
}

/// A Lights Out board: the dimensions, then `rows` lines of lights.
pub open spec fn board_spec(lines: Seq<Seq<char>>) -> Result<(usize, usize, Seq<Seq<bool>>), Seq<char>> {
    if lines.len() == 0 {
        Err("Missing first line"@)
    } else {
        match dims_spec(lines[0]) {
            Err(e) => Err(e),
            Ok(d) => match board_rows(lines, d.1 as nat, d.0 as nat) {
                Err(e) => Err(e),
                Ok(b) => Ok((d.0, d.1, b)),
            },
        }
    }
}

/// The lights of one board line.
fn read_row(line: &String) -> (r: Vec<bool>)
    ensures
        r@ == row_cells(line@),
{
    let chars = str_chars(line.as_str());
    let mut out: Vec<bool> = Vec::new();
    let mut i: usize = 0;
    while i < chars.len()
        invariant
            i <= chars@.len(),
            chars@ == line@,
            out@ == row_cells(chars@.take(i as int)),
        decreases chars@.len() - i,
    {
        proof {
            assert(chars@.take(i + 1).drop_last() =~= chars@.take(i as int));
            assert(chars@.take(i + 1).last() == chars@[i as int]);
        }
        let c = chars[i];
        if !char_is_space(c) {
            out.push(c == '1');
        }
        i = i + 1;
    }
    proof {
        assert(chars@.take(chars@.len() as int) =~= chars@);
    }
    out
}

/// Reads a Lights Out board from its lines: `(rows, cols, lights)`.
pub fn parse_board(lines: &Vec<String>) -> (r: Result<(usize, usize, Vec<Vec<bool>>), String>)
    ensures
        match board_spec(string_seqs(lines@)) {
            Ok(v) => r matches Ok(b) && b.0 == v.0 && b.1 == v.1 && b.2@.map_values(|row: Vec<bool>| row@) == v.2,
            Err(e) => r matches Err(m) && m@ == e,
        },
{
    let ghost sl = string_seqs(lines@);
    if lines.len() == 0 {
        return Err("Missing first line".to_string());
    }
    proof {
        assert(sl[0] == lines@[0]@);
    }
    let (rows, cols) = match parse_dims(&lines[0]) {
        Ok(d) => d,
        Err(e) => {
            return Err(e);
        },
    };
    let mut board: Vec<Vec<bool>> = Vec::new();
    let mut k: usize = 0;
    proof {
        assert(board@.map_values(|row: Vec<bool>| row@) =~= Seq::<Seq<bool>>::empty());
    }
    while k < rows
        invariant
            sl == string_seqs(lines@),
            sl.len() > 0,
            dims_spec(sl[0]) == Ok::<(usize, usize), Seq<char>>((rows, cols)),
            k <= rows,
            board_rows(sl, cols as nat, k as nat) == Ok::<Seq<Seq<bool>>, Seq<char>>(
                board@.map_values(|row: Vec<bool>| row@),
            ),
        decreases rows - k,
    {
        let ghost b0 = board@.map_values(|row: Vec<bool>| row@);
        if k + 1 >= lines.len() {
            proof {
                lemma_board_rows_err(sl, cols as nat, (k + 1) as nat, rows as nat, "Missing board row"@);
            }
            return Err("Missing board row".to_string());
        }
        let row = read_row(&lines[k + 1]);
        proof {
            assert(sl[k + 1] == lines@[k + 1]@);
        }
        if row.len() != cols {
            let mut msg: Vec<char> = Vec::new();
            let p1 = str_chars("Expected ");
            let p2 = str_chars(" columns, got ");
            crate::text::push_chars(&mut msg, p1.as_slice());
            push_usize_decimal(&mut msg, cols);
            crate::text::push_chars(&mut msg, p2.as_slice());
            push_usize_decimal(&mut msg, row.len());
            proof {
                assert(msg@ =~= width_message(cols as nat, row@.len()));
                lemma_board_rows_err(sl, cols as nat, (k + 1) as nat, rows as nat, msg@);
            }
            return Err(string_from_chars(&msg));
        }
        board.push(row);
        proof {
            assert(board@.map_values(|row: Vec<bool>| row@) =~= b0.push(row_cells(sl[k + 1])));
        }
        k = k + 1;
    }
    Ok((rows, cols, board))
}

/// An error at row `k` is the error of every longer prefix.
proof fn lemma_board_rows_err(lines: Seq<Seq<char>>, cols: nat, k: nat, n: nat, e: Seq<char>)
    requires
        k <= n,
        board_rows(lines, cols, k) == Err::<Seq<Seq<bool>>, Seq<char>>(e),
    ensures
        board_rows(lines, cols, n) == Err::<Seq<Seq<bool>>, Seq<char>>(e),
    decreases n - k,
{
    if k < n {
        lemma_board_rows_err(lines, cols, k + 1, n, e);
    }
}

/// The clues of one line: its numbers, or `[0]` for an empty line.
pub open spec fn clue_line(line: Seq<char>) -> Result<Seq<usize>, Seq<char>> {
    if words(line).len() == 0 {
        Ok(seq![0usize])
    } else {
        match usize_words(words(line)) {
            None => Err("Invalid clue"@),
            Some(v) => Ok(v),
        }
    }
}

/// The clue lists of lines `first .. first + k`; `missing` when a line is
/// absent.
pub open spec fn clue_lines(lines: Seq<Seq<char>>, first: int, k: nat, missing: Seq<char>) -> Result<
    Seq<Seq<usize>>,
    Seq<char>,
>
    decreases k,
{
    if k == 0 {
        Ok(Seq::empty())
    } else {
        match clue_lines(lines, first, (k - 1) as nat, missing) {
            Err(e) => Err(e),
            Ok(cs) => if first + k - 1 >= lines.len() {
                Err(missing)
            } else {
                match clue_line(lines[first + k - 1]) {
                    Err(e) => Err(e),
                    Ok(c) => Ok(cs.push(c)),
                }
            },
        }
    }
}

/// A nonogram: the dimensions, `rows` lines of row clues, then `cols` lines
/// of column clues.
pub open spec fn nonogram_spec(lines: Seq<Seq<char>>) -> Result<
    (usize, usize, Seq<Seq<usize>>, Seq<Seq<usize>>),
    Seq<char>,
> {
    if lines.len() == 0 {
        Err("Missing first line"@)
    } else {
        match dims_spec(lines[0]) {
            Err(e) => Err(e),
            Ok(d) => match clue_lines(lines, 1, d.0 as nat, "Missing row clue"@) {
                Err(e) => Err(e),
                Ok(rc) => match clue_lines(lines, 1 + d.0, d.1 as nat, "Missing column clue"@) {
                    Err(e) => Err(e),
                    Ok(cc) => Ok((d.0, d.1, rc, cc)),
                },
            },
        }
    }
}

/// The clues of one line.
pub fn parse_clue_line(line: &String) -> (r: Result<Vec<usize>, String>)
    ensures
        match clue_line(line@) {
            Ok(v) => r matches Ok(c) && c@ == v,
            Err(e) => r matches Err(m) && m@ == e,
        },
{
    let chars = str_chars(line.as_str());
    let w = split_words(&chars);
    if w.len() == 0 {
        proof {
            assert(words(line@).len() == 0);
        }
        return Ok(vec![0usize]);
    }
    match parse_usize_words(&w) {
        None => Err("Invalid clue".to_string()),
        Some(v) => Ok(v),
    }
}

proof fn lemma_clue_lines_err(lines: Seq<Seq<char>>, first: int, k: nat, n: nat, missing: Seq<char>, e: Seq<char>)
    requires
        k <= n,
        clue_lines(lines, first, k, missing) == Err::<Seq<Seq<usize>>, Seq<char>>(e),
    ensures
        clue_lines(lines, first, n, missing) == Err::<Seq<Seq<usize>>, Seq<char>>(e),
    decreases n - k,
{
    if k < n {
        lemma_clue_lines_err(lines, first, k + 1, n, missing, e);
    }
}

/// Reads `count` clue lines starting at line `first`.
fn read_clue_lines(lines: &Vec<String>, first: usize, count: usize, missing: &str) -> (r: Result<Vec<Vec<usize>>, String>)
    requires
        first <= lines@.len(),
    ensures
        match clue_lines(string_seqs(lines@), first as int, count as nat, missing@) {
            Ok(v) => r matches Ok(c) && c@.map_values(|x: Vec<usize>| x@) == v,
            Err(e) => r matches Err(m) && m@ == e,
        },
{
    let ghost sl = string_seqs(lines@);
    let mut out: Vec<Vec<usize>> = Vec::new();
    let mut k: usize = 0;
    proof {
        assert(out@.map_values(|x: Vec<usize>| x@) =~= Seq::<Seq<usize>>::empty());
    }
    while k < count
        invariant
            sl == string_seqs(lines@),
            first <= lines@.len(),
            k <= count,
            clue_lines(sl, first as int, k as nat, missing@) == Ok::<Seq<Seq<usize>>, Seq<char>>(
                out@.map_values(|x: Vec<usize>| x@),
            ),
        decreases count - k,
    {
        let ghost o0 = out@.map_values(|x: Vec<usize>| x@);
        if k >= lines.len() - first {
            proof {
                lemma_clue_lines_err(sl, first as int, (k + 1) as nat, count as nat, missing@, missing@);
            }
            return Err(missing.to_string());
        }
        proof {
            assert(sl[first + k] == lines@[first + k]@);
        }
        match parse_clue_line(&lines[first + k]) {
            Err(e) => {
                proof {
                    lemma_clue_lines_err(sl, first as int, (k + 1) as nat, count as nat, missing@, e@);
                }
                return Err(e);
            },
            Ok(c) => {
                out.push(c);
                proof {
                    assert(out@.map_values(|x: Vec<usize>| x@) =~= o0.push(c@));
                }
            },
        }
        k = k + 1;
    }
    Ok(out)
}

/// Reads a nonogram from its lines: `(rows, cols, row clues, column clues)`.
pub fn parse_nonogram(lines: &Vec<String>) -> (r: Result<(usize, usize, Vec<Vec<usize>>, Vec<Vec<usize>>), String>)
    ensures
        match nonogram_spec(string_seqs(lines@)) {
            Ok(v) => r matches Ok(n) && n.0 == v.0 && n.1 == v.1 && n.2@.map_values(|x: Vec<usize>| x@) == v.2
                && n.3@.map_values(|x: Vec<usize>| x@) == v.3,
            Err(e) => r matches Err(m) && m@ == e,
        },
{
    let ghost sl = string_seqs(lines@);
    if lines.len() == 0 {
        return Err("Missing first line".to_string());
    }
    proof {
        assert(sl[0] == lines@[0]@);
    }
    let (rows, cols) = match parse_dims(&lines[0]) {
        Ok(d) => d,
        Err(e) => {
            return Err(e);
        },
    };
    let row_clues = match read_clue_lines(lines, 1, rows, "Missing row clue") {
        Ok(c) => c,
        Err(e) => {
            return Err(e);
        },
    };
    proof {
        assert(rows + 1 <= lines@.len()) by {
            if rows + 1 > lines@.len() {
                assert(clue_lines(sl, 1, (lines@.len() as nat), "Missing row clue"@) is Ok) by {
                    lemma_clue_lines_ok_prefix(sl, 1, lines@.len() as nat, rows as nat, "Missing row clue"@);
                }
                let m = (lines@.len()) as nat;
                assert(clue_lines(sl, 1, m, "Missing row clue"@) is Err);
            }
        }
    }
    let col_clues = match read_clue_lines(lines, 1 + rows, cols, "Missing column clue") {
        Ok(c) => c,
        Err(e) => {
            return Err(e);
        },
    };
    Ok((rows, cols, row_clues, col_clues))
}

/// A prefix of a successful read succeeds.
proof fn lemma_clue_lines_ok_prefix(lines: Seq<Seq<char>>, first: int, k: nat, n: nat, missing: Seq<char>)
    requires
        k <= n,
        clue_lines(lines, first, n, missing) is Ok,
    ensures
        clue_lines(lines, first, k, missing) is Ok,
    decreases n - k,
{
    if k < n {
        lemma_clue_lines_ok_prefix(lines, first, k + 1, n, missing);
    }
}

/// The lines `first .. first + k` read as lists of numbers (`invalid` when a
/// word is not a `usize`, `missing` when a line is absent).
pub open spec fn number_lines(lines: Seq<Seq<char>>, first: int, k: nat, missing: Seq<char>, invalid: Seq<char>) -> Result<
    Seq<Seq<usize>>,
    Seq<char>,
>
    decreases k,
{
    if k == 0 {
        Ok(Seq::empty())
    } else {
        match number_lines(lines, first, (k - 1) as nat, missing, invalid) {
            Err(e) => Err(e),
            Ok(cs) => if first + k - 1 >= lines.len() {
                Err(missing)
            } else {
                match usize_words(words(lines[first + k - 1])) {
                    None => Err(invalid),
                    Some(c) => Ok(cs.push(c)),
                }
            },
        }
    }
}

proof fn lemma_number_lines_err(
    lines: Seq<Seq<char>>,
    first: int,
    k: nat,
    n: nat,
    missing: Seq<char>,
    invalid: Seq<char>,
    e: Seq<char>,
)
    requires
        k <= n,
        number_lines(lines, first, k, missing, invalid) == Err::<Seq<Seq<usize>>, Seq<char>>(e),
    ensures
        number_lines(lines, first, n, missing, invalid) == Err::<Seq<Seq<usize>>, Seq<char>>(e),
    decreases n - k,
{
    if k < n {
        lemma_number_lines_err(lines, first, k + 1, n, missing, invalid, e);
    }
}

/// Reads `count` lines of numbers starting at line `first`.
pub fn read_number_lines(lines: &Vec<String>, first: usize, count: usize, missing: &str, invalid: &str) -> (r: Result<
    Vec<Vec<usize>>,
    String,
>)
    requires
        first <= lines@.len(),
    ensures
        match number_lines(string_seqs(lines@), first as int, count as nat, missing@, invalid@) {
            Ok(v) => r matches Ok(c) && c@.map_values(|x: Vec<usize>| x@) == v,
            Err(e) => r matches Err(m) && m@ == e,
        },
{
    let ghost sl = string_seqs(lines@);
    let mut out: Vec<Vec<usize>> = Vec::new();
    let mut k: usize = 0;
    proof {
        assert(out@.map_values(|x: Vec<usize>| x@) =~= Seq::<Seq<usize>>::empty());
    }
    while k < count
        invariant
            sl == string_seqs(lines@),
            first <= lines@.len(),
            k <= count,
            number_lines(sl, first as int, k as nat, missing@, invalid@) == Ok::<Seq<Seq<usize>>, Seq<char>>(
                out@.map_values(|x: Vec<usize>| x@),
            ),
        decreases count - k,
    {
        let ghost o0 = out@.map_values(|x: Vec<usize>| x@);
        if k >= lines.len() - first {
            proof {
                lemma_number_lines_err(sl, first as int, (k + 1) as nat, count as nat, missing@, invalid@, missing@);
            }
            return Err(missing.to_string());
        }
        proof {
            assert(sl[first + k] == lines@[first + k]@);
        }
        let chars = str_chars(lines[first + k].as_str());
        let w = split_words(&chars);
        match parse_usize_words(&w) {
            None => {
                proof {
                    lemma_number_lines_err(sl, first as int, (k + 1) as nat, count as nat, missing@, invalid@, invalid@);
                }
                return Err(invalid.to_string());
            },
            Some(c) => {
                out.push(c);
                proof {
                    assert(out@.map_values(|x: Vec<usize>| x@) =~= o0.push(c@));
                }
            },
        }
        k = k + 1;
    }
    Ok(out)
}

/// The number lines are all pairs.
pub open spec fn all_pairs(ls: Seq<Seq<usize>>) -> bool {
    forall|i: int| 0 <= i < ls.len() ==> (#[trigger] ls[i]).len() == 2
}

/// Turns lines of two numbers into pairs.
fn to_pairs(ls: &Vec<Vec<usize>>) -> (r: Option<Vec<(usize, usize)>>)
    ensures
        all_pairs(ls@.map_values(|x: Vec<usize>| x@)) <==> r is Some,
        r matches Some(p) ==> p@.len() == ls@.len() && forall|i: int| 0 <= i < ls@.len() ==> (#[trigger] p@[i]).0
            == ls@[i]@[0] && p@[i].1 == ls@[i]@[1],
{
    let ghost v = ls@.map_values(|x: Vec<usize>| x@);
    let mut out: Vec<(usize, usize)> = Vec::new();
    let mut i: usize = 0;
    while i < ls.len()
        invariant
            v == ls@.map_values(|x: Vec<usize>| x@),
            i <= ls@.len(),
            out@.len() == i,
            forall|j: int| 0 <= j < i ==> (#[trigger] v[j]).len() == 2,
            forall|j: int| 0 <= j < i ==> (#[trigger] out@[j]).0 == ls@[j]@[0] && out@[j].1 == ls@[j]@[1],
        decreases ls@.len() - i,
    {
        if ls[i].len() != 2 {
            proof {
                assert(v[i as int].len() != 2);
            }
            return None;
        }
        out.push((ls[i][0], ls[i][1]));
        i = i + 1;
    }
    Some(out)
}

/// A graph for the Hamiltonian search: "vertices edges [cycle]", then one
/// "v1 v2" line per edge.
pub open spec fn hamiltonian_spec(lines: Seq<Seq<char>>) -> Result<(usize, Seq<Seq<usize>>, bool), Seq<char>> {
    if lines.len() == 0 {
        Err("Missing first line"@)
    } else {
        let parts = words(lines[0]);
        if parts.len() < 2 {
            Err("Expected 'vertices edges [cycle]' on first line"@)
        } else {
            match parse_usize_spec(parts[0]) {
                None => Err("Invalid vertex count"@),
                Some(nv) => match parse_usize_spec(parts[1]) {
                    None => Err("Invalid edge count"@),
                    Some(ne) => match number_lines(lines, 1, ne as nat, "Missing edge"@, "Invalid vertex"@) {
                        Err(e) => Err(e),
                        Ok(es) => if !all_pairs(es) {
                            Err("Expected 'v1 v2' for each edge"@)
                        } else {
                            Ok((nv, es, parts.len() > 2 && is_cycle(parts[2])))
                        },
                    },
                },
            }
        }
    }
}

/// The word is "cycle" written in any mix of capital and small letters.
pub open spec fn is_cycle(w: Seq<char>) -> bool {
    w.len() == 5 && forall|i: int| 0 <= i < 5 ==> #[trigger] w[i] == "cycle"@[i] || w[i] == "CYCLE"@[i]
}

/// Whether the word is "cycle", in any mix of capitals and small letters.
fn is_cycle_word(w: &Vec<char>) -> (b: bool)
    ensures
        b == is_cycle(w@),
{
    let small = str_chars("cycle");
    let big = str_chars("CYCLE");
    proof {
        reveal_strlit("cycle");
        reveal_strlit("CYCLE");
    }
    if w.len() != 5 {
        return false;
    }
    let mut i: usize = 0;
    while i < 5
        invariant
            w@.len() == 5,
            small@ == "cycle"@,
            big@ == "CYCLE"@,
            small@.len() == 5,
            big@.len() == 5,
            i <= 5,
            forall|j: int| 0 <= j < i ==> #[trigger] w@[j] == "cycle"@[j] || w@[j] == "CYCLE"@[j],
        decreases 5 - i,
    {
        let c = w[i];
        if c != small[i] && c != big[i] {
            return false;
        }
        i = i + 1;
    }
    true
}

/// Reads a Hamiltonian problem: `(vertices, edges, find a cycle)`.
pub fn parse_hamiltonian(lines: &Vec<String>) -> (r: Result<(usize, Vec<(usize, usize)>, bool), String>)
    ensures
        match hamiltonian_spec(string_seqs(lines@)) {
            Ok(v) => r matches Ok(g) && g.0 == v.0 && g.2 == v.2 && g.1@.len() == v.1.len() && forall|i: int|
                0 <= i < v.1.len() ==> (#[trigger] g.1@[i]).0 == v.1[i][0] && g.1@[i].1 == v.1[i][1],
            Err(e) => r matches Err(m) && m@ == e,
        },
{
    let ghost sl = string_seqs(lines@);
    if lines.len() == 0 {
        return Err("Missing first line".to_string());
    }
    proof {
        assert(sl[0] == lines@[0]@);
    }
    let chars = str_chars(lines[0].as_str());
    let parts = split_words(&chars);
    if parts.len() < 2 {
        return Err("Expected 'vertices edges [cycle]' on first line".to_string());
    }
    let nv = match parse_usize(&parts[0]) {
        Some(v) => v,
        None => {
            return Err("Invalid vertex count".to_string());
        },
    };
    let ne = match parse_usize(&parts[1]) {
        Some(v) => v,
        None => {
            return Err("Invalid edge count".to_string());
        },
    };
    let cycle = parts.len() > 2 && is_cycle_word(&parts[2]);
    let es = match read_number_lines(lines, 1, ne, "Missing edge", "Invalid vertex") {
        Ok(v) => v,
        Err(e) => {
            return Err(e);
        },
    };
    match to_pairs(&es) {
        None => Err("Expected 'v1 v2' for each edge".to_string()),
        Some(edges) => Ok((nv, edges, cycle)),
    }
}

/// A graph to colour: "vertices edges colors", then one "v1 v2" line per
/// edge.
pub open spec fn coloring_spec(lines: Seq<Seq<char>>) -> Result<(usize, usize, Seq<Seq<usize>>), Seq<char>> {
    if lines.len() == 0 {
        Err("Missing first line"@)
    } else {
        match usize_words(words(lines[0])) {
            None => Err("Invalid number"@),
            Some(p) => if p.len() != 3 {
                Err("Expected 'vertices edges colors' on first line"@)
            } else {
                match number_lines(lines, 1, p[1] as nat, "Missing edge"@, "Invalid vertex"@) {
                    Err(e) => Err(e),
                    Ok(es) => if !all_pairs(es) {
                        Err("Expected 'v1 v2' for each edge"@)
                    } else {
                        Ok((p[0], p[2], es))
                    },
                }
            },
        }
    }
}

/// Reads a colouring problem: `(vertices, colours, edges)`.
pub fn parse_coloring(lines: &Vec<String>) -> (r: Result<(usize, usize, Vec<(usize, usize)>), String>)
    ensures
        match coloring_spec(string_seqs(lines@)) {
            Ok(v) => r matches Ok(g) && g.0 == v.0 && g.1 == v.1 && g.2@.len() == v.2.len() && forall|i: int|
                0 <= i < v.2.len() ==> (#[trigger] g.2@[i]).0 == v.2[i][0] && g.2@[i].1 == v.2[i][1],
            Err(e) => r matches Err(m) && m@ == e,
        },
{
    let ghost sl = string_seqs(lines@);
    if lines.len() == 0 {
        return Err("Missing first line".to_string());
    }
    proof {
        assert(sl[0] == lines@[0]@);
    }
    let chars = str_chars(lines[0].as_str());
    let w = split_words(&chars);
    let p = match parse_usize_words(&w) {
        Some(p) => p,
        None => {
            return Err("Invalid number".to_string());
        },
    };
    if p.len() != 3 {
        return Err("Expected 'vertices edges colors' on first line".to_string());
    }
    let es = match read_number_lines(lines, 1, p[1], "Missing edge", "Invalid vertex") {
        Ok(v) => v,
        Err(e) => {
            return Err(e);
        },
    };
    match to_pairs(&es) {
        None => Err("Expected 'v1 v2' for each edge".to_string()),
        Some(edges) => Ok((p[0], p[2], edges)),
    }
}

/// An exact-cover problem: "num_elements num_subsets", then one line of
/// elements per subset.
pub open spec fn exact_cover_spec(lines: Seq<Seq<char>>) -> Result<(usize, Seq<Seq<usize>>), Seq<char>> {
    if lines.len() == 0 {
        Err("Missing first line"@)
    } else {
        match usize_words(words(lines[0])) {
            None => Err("Invalid number"@),
            Some(d) => if d.len() != 2 {
                Err("Expected 'num_elements num_subsets' on first line"@)
            } else {
                match number_lines(lines, 1, d[1] as nat, "Missing subset"@, "Invalid element"@) {
                    Err(e) => Err(e),
                    Ok(ss) => Ok((d[0], ss)),
                }
            },
        }
    }
}

/// Reads an exact-cover problem: `(elements, subsets)`.
pub fn parse_exact_cover(lines: &Vec<String>) -> (r: Result<(usize, Vec<Vec<usize>>), String>)
    ensures
        match exact_cover_spec(string_seqs(lines@)) {
            Ok(v) => r matches Ok(g) && g.0 == v.0 && g.1@.map_values(|x: Vec<usize>| x@) == v.1,
            Err(e) => r matches Err(m) && m@ == e,
        },
{
    let ghost sl = string_seqs(lines@);
    if lines.len() == 0 {
        return Err("Missing first line".to_string());
    }
    proof {
        assert(sl[0] == lines@[0]@);
    }
    let chars = str_chars(lines[0].as_str());
    let w = split_words(&chars);
    let d = match parse_usize_words(&w) {
        Some(d) => d,
        None => {
            return Err("Invalid number".to_string());
        },
    };
    if d.len() != 2 {
        return Err("Expected 'num_elements num_subsets' on first line".to_string());
    }
    match read_number_lines(lines, 1, d[1], "Missing subset", "Invalid element") {
        Ok(ss) => Ok((d[0], ss)),
        Err(e) => Err(e),
    }
}

/// A Minesweeper character: `?` or `.` unknown, `*` or `X` a mine, `0`-`8`
/// a number, anything else unknown.
pub open spec fn cell_of(ch: char) -> Cell {
    if ch == '*' || ch == 'X' {
        Cell::Mine
    } else if '0' <= ch <= '8' {
        Cell::Number(((ch as u32) - ('0' as u32)) as u8)
    } else {
        Cell::Unknown
    }
}

/// The cells of a Minesweeper line: every non-whitespace character.
pub open spec fn mine_row(line: Seq<char>) -> Seq<Cell>
    decreases line.len(),
{
    if line.len() == 0 {
        Seq::empty()
    } else if is_space(line.last()) {
        mine_row(line.drop_last())
    } else {
        mine_row(line.drop_last()).push(cell_of(line.last()))
    }
}

/// The first `k` Minesweeper rows, read from lines `1..=k`.
pub open spec fn mine_rows(lines: Seq<Seq<char>>, cols: nat, k: nat) -> Result<Seq<Seq<Cell>>, Seq<char>>
    decreases k,
{
    if k == 0 {
        Ok(Seq::empty())
    } else {
        match mine_rows(lines, cols, (k - 1) as nat) {
            Err(e) => Err(e),
            Ok(b) => if k >= lines.len() {
                Err("Missing board row"@)
            } else if mine_row(lines[k as int]).len() != cols {
                Err(width_message(cols, mine_row(lines[k as int]).len()))
            } else {
                Ok(b.push(mine_row(lines[k as int])))
            },
        }
    }
}

/// A Minesweeper board: the dimensions, then `rows` lines of cells.
pub open spec fn minefield_spec(lines: Seq<Seq<char>>) -> Result<(usize, usize, Seq<Seq<Cell>>), Seq<char>> {
    if lines.len() == 0 {
        Err("Missing first line"@)
    } else {
        match dims_spec(lines[0]) {
            Err(e) => Err(e),
            Ok(d) => match mine_rows(lines, d.1 as nat, d.0 as nat) {
                Err(e) => Err(e),
                Ok(b) => Ok((d.0, d.1, b)),
            },
        }
    }
}

/// The cell a character stands for.
fn read_cell(ch: char) -> (c: Cell)
    ensures
        c == cell_of(ch),
{
    if ch == '*' || ch == 'X' {
        Cell::Mine
    } else if '0' <= ch && ch <= '8' {
        Cell::Number(((ch as u32) - ('0' as u32)) as u8)
    } else {
        Cell::Unknown
    }
}

/// The cells of one Minesweeper line.
fn read_mine_row(line: &String) -> (r: Vec<Cell>)
    ensures
        r@ == mine_row(line@),
{
    let chars = str_chars(line.as_str());
    let mut out: Vec<Cell> = Vec::new();
    let mut i: usize = 0;
    while i < chars.len()
        invariant
            i <= chars@.len(),
            chars@ == line@,
            out@ == mine_row(chars@.take(i as int)),
        decreases chars@.len() - i,
    {
        proof {
            assert(chars@.take(i + 1).drop_last() =~= chars@.take(i as int));
            assert(chars@.take(i + 1).last() == chars@[i as int]);
        }
        let c = chars[i];
        if !char_is_space(c) {
            out.push(read_cell(c));
        }
        i = i + 1;
    }
    proof {
        assert(chars@.take(chars@.len() as int) =~= chars@);
    }
    out
}

proof fn lemma_mine_rows_err(lines: Seq<Seq<char>>, cols: nat, k: nat, n: nat, e: Seq<char>)
    requires
        k <= n,
        mine_rows(lines, cols, k) == Err::<Seq<Seq<Cell>>, Seq<char>>(e),
    ensures
        mine_rows(lines, cols, n) == Err::<Seq<Seq<Cell>>, Seq<char>>(e),
    decreases n - k,
{
    if k < n {
        lemma_mine_rows_err(lines, cols, k + 1, n, e);
    }
}

/// Reads a Minesweeper board from its lines: `(rows, cols, cells)`.
pub fn parse_minefield(lines: &Vec<String>) -> (r: Result<(usize, usize, Vec<Vec<Cell>>), String>)
    ensures
        match minefield_spec(string_seqs(lines@)) {
            Ok(v) => r matches Ok(b) && b.0 == v.0 && b.1 == v.1 && b.2@.map_values(|row: Vec<Cell>| row@) == v.2,
            Err(e) => r matches Err(m) && m@ == e,
        },
{
    let ghost sl = string_seqs(lines@);
    if lines.len() == 0 {
        return Err("Missing first line".to_string());
    }
    proof {
        assert(sl[0] == lines@[0]@);
    }
    let (rows, cols) = match parse_dims(&lines[0]) {
        Ok(d) => d,
        Err(e) => {
            return Err(e);
        },
    };
    let mut board: Vec<Vec<Cell>> = Vec::new();
    let mut k: usize = 0;
    proof {
        assert(board@.map_values(|row: Vec<Cell>| row@) =~= Seq::<Seq<Cell>>::empty());
    }
    while k < rows
        invariant
            sl == string_seqs(lines@),
            sl.len() > 0,
            dims_spec(sl[0]) == Ok::<(usize, usize), Seq<char>>((rows, cols)),
            k <= rows,
            mine_rows(sl, cols as nat, k as nat) == Ok::<Seq<Seq<Cell>>, Seq<char>>(
                board@.map_values(|row: Vec<Cell>| row@),
            ),
        decreases rows - k,
    {
        let ghost b0 = board@.map_values(|row: Vec<Cell>| row@);
        if k + 1 >= lines.len() {
            proof {
                lemma_mine_rows_err(sl, cols as nat, (k + 1) as nat, rows as nat, "Missing board row"@);
            }
            return Err("Missing board row".to_string());
        }
        let row = read_mine_row(&lines[k + 1]);
        proof {
            assert(sl[k + 1] == lines@[k + 1]@);
        }
        if row.len() != cols {
            let mut msg: Vec<char> = Vec::new();
            let p1 = str_chars("Expected ");
            let p2 = str_chars(" columns, got ");
            crate::text::push_chars(&mut msg, p1.as_slice());
            push_usize_decimal(&mut msg, cols);
            crate::text::push_chars(&mut msg, p2.as_slice());
            push_usize_decimal(&mut msg, row.len());
            proof {
                assert(msg@ =~= width_message(cols as nat, row@.len()));
                lemma_mine_rows_err(sl, cols as nat, (k + 1) as nat, rows as nat, msg@);
            }
            return Err(string_from_chars(&msg));
        }
        board.push(row);
        proof {
            assert(board@.map_values(|row: Vec<Cell>| row@) =~= b0.push(mine_row(sl[k + 1])));
        }
        k = k + 1;
    }
    Ok((rows, cols, board))
}

} // verus!
