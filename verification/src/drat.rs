//! DRAT (Deletion Resolution Asymmetric Tautology) proof logging.
//!
//! One line per operation:
//! - Addition: `lit1 lit2 ... 0`
//! - Deletion: `d lit1 lit2 ... 0`
//!
//! The logger accumulates the proof text; writing it to a file is left to
//! the caller.
use vstd::prelude::*;

use crate::expr::{int_decimal, push_int_decimal};
use crate::text::string_from_chars;

verus! {

/// The text of the literals of a clause, each followed by a space.
pub open spec fn lits_text(lits: Seq<i32>) -> Seq<char>
    decreases lits.len(),
{
    if lits.len() == 0 {
        Seq::empty()
    } else {
        lits_text(lits.drop_last()) + int_decimal(lits.last() as int) + seq![' ']
    }
}

/// One proof line for a clause: its literals and the terminating `0`.
pub open spec fn clause_line(lits: Seq<i32>) -> Seq<char> {
    lits_text(lits) + seq!['0', '\n']
}

/// A DRAT proof logger.
pub struct DratLogger {
    text: Vec<char>,
    enabled: bool,
    additions: u64,
    deletions: u64,
}

impl DratLogger {
    /// The proof text written so far.
    pub closed spec fn proof_text(&self) -> Seq<char> {
        self.text@
    }

    pub closed spec fn enabled_spec(&self) -> bool {
        self.enabled
    }

    pub closed spec fn additions_spec(&self) -> u64 {
        self.additions
    }

    pub closed spec fn deletions_spec(&self) -> u64 {
        self.deletions
    }

    /// Creates a logger that records the proof in memory.
    pub fn in_memory() -> (l: Self)
        ensures
            l.enabled_spec(),
            l.proof_text().len() == 0,
            l.additions_spec() == 0,
            l.deletions_spec() == 0,
    {
        DratLogger { text: Vec::new(), enabled: true, additions: 0, deletions: 0 }
    }

    /// Creates a disabled (no-op) logger.
    pub fn disabled() -> (l: Self)
        ensures
            !l.enabled_spec(),
            l.proof_text().len() == 0,
            l.additions_spec() == 0,
            l.deletions_spec() == 0,
    {
        DratLogger { text: Vec::new(), enabled: false, additions: 0, deletions: 0 }
    }

    /// Returns true if this logger records proof output.
    pub fn is_enabled(&self) -> (b: bool)
        ensures
            b == self.enabled_spec(),
    {
        self.enabled
    }

    fn write_clause(&mut self, lits: &[i32])
        ensures
            final(self).proof_text() == old(self).proof_text() + clause_line(lits@),
            final(self).enabled == old(self).enabled,
            final(self).additions == old(self).additions,
            final(self).deletions == old(self).deletions,
    {
        let mut i: usize = 0;
        proof {
            assert(lits@.subrange(0, 0) =~= Seq::<i32>::empty());
        }
        while i < lits.len()
            invariant
                i <= lits@.len(),
                self.text@ == old(self).text@ + lits_text(lits@.subrange(0, i as int)),
                self.enabled == old(self).enabled,
                self.additions == old(self).additions,
                self.deletions == old(self).deletions,
            decreases lits@.len() - i,
        {
            push_int_decimal(&mut self.text, lits[i]);
            self.text.push(' ');
            proof {
                let s1 = lits@.subrange(0, i + 1);
                assert(s1.drop_last() =~= lits@.subrange(0, i as int));
                assert(s1.last() == lits@[i as int]);
            }
            i = i + 1;
            proof {
                assert(self.text@ =~= old(self).text@ + lits_text(lits@.subrange(0, i as int)));
            }
        }
        self.text.push('0');
        self.text.push('\n');
        proof {
            assert(lits@.subrange(0, lits@.len() as int) =~= lits@);
            assert(self.text@ =~= old(self).text@ + clause_line(lits@));
        }
    }

    /// Logs a clause addition (a learned clause).  Does nothing when
    /// disabled.
    pub fn add_clause(&mut self, lits: &[i32])
        requires
            old(self).additions_spec() < u64::MAX,
        ensures
            final(self).enabled_spec() == old(self).enabled_spec(),
            final(self).deletions_spec() == old(self).deletions_spec(),
            old(self).enabled_spec() ==> final(self).additions_spec() == old(self).additions_spec()
                + 1 && final(self).proof_text() == old(self).proof_text() + clause_line(lits@),
            !old(self).enabled_spec() ==> final(self).additions_spec() == old(self).additions_spec()
                && final(self).proof_text() == old(self).proof_text(),
    {
        if !self.enabled {
            return;
        }
        self.additions = self.additions + 1;
        self.write_clause(lits);
    }

    /// Logs a clause deletion.  Does nothing when disabled.
    pub fn delete_clause(&mut self, lits: &[i32])
        requires
            old(self).deletions_spec() < u64::MAX,
        ensures
            final(self).enabled_spec() == old(self).enabled_spec(),
            final(self).additions_spec() == old(self).additions_spec(),
            old(self).enabled_spec() ==> final(self).deletions_spec() == old(self).deletions_spec()
                + 1 && final(self).proof_text() == old(self).proof_text() + seq!['d', ' ']
                + clause_line(lits@),
            !old(self).enabled_spec() ==> final(self).deletions_spec() == old(self).deletions_spec()
                && final(self).proof_text() == old(self).proof_text(),
    {
        if !self.enabled {
            return;
        }
        self.deletions = self.deletions + 1;
        self.text.push('d');
        self.text.push(' ');
        let ghost mid = self.text@;
        self.write_clause(lits);
        proof {
            assert(self.text@ =~= old(self).text@ + seq!['d', ' '] + clause_line(lits@));
        }
    }

    /// Flushes the proof output.  The proof is kept in memory, so there is
    /// nothing to do.
    pub fn flush(&mut self)
        ensures
            *final(self) == *old(self),
    {
    }

    /// Returns the number of clause additions logged.
    pub fn num_additions(&self) -> (n: u64)
        ensures
            n == self.additions_spec(),
    {
        self.additions
    }

    /// Returns the number of clause deletions logged.
    pub fn num_deletions(&self) -> (n: u64)
        ensures
            n == self.deletions_spec(),
    {
        self.deletions
    }

    /// The proof text logged so far.
    pub fn output(&self) -> (s: String)
        ensures
            s@ == self.proof_text(),
    {
        string_from_chars(&self.text)
    }
}

} // verus!
