//! Arena-allocated clause database.
//!
//! Clauses are stored contiguously in a single `Vec<u32>` buffer:
//!
//! ```text
//! [header] [lbd] [activity] [lit0] [lit1] ...   (learned clause)
//! [header] [lit0] [lit1] ...                     (original clause)
//! ```
//!
//! The header holds the clause length in bits 0-29, the learnt flag in
//! bit 30 and the deleted flag in bit 31.  A [`CRef`] is the index of a
//! clause's header word.  Deleted clauses stay in place; the number of words
//! they occupy is counted by [`ClauseArena::wasted`].
use vstd::prelude::*;

verus! {

/// A reference to a clause: the index of its header word.
pub type CRef = u32;

/// Sentinel value representing "no clause".
pub const CREF_UNDEF: CRef = 0xFFFF_FFFFu32;

pub const LEN_MASK: u32 = 0x3FFF_FFFFu32;

pub const LEARNT_BIT: u32 = 0x4000_0000u32;

pub const DELETED_BIT: u32 = 0x8000_0000u32;

/// The abstract content of one stored clause.
pub struct ArenaClause {
    pub lits: Seq<i32>,
    pub learnt: bool,
    pub deleted: bool,
    /// Literal block distance (meaningful for learned clauses; 0 otherwise).
    pub lbd: u32,
    /// Activity word (meaningful for learned clauses; 0 otherwise).
    pub act: u32,
}

/// Number of words a clause occupies.
pub open spec fn footprint(c: ArenaClause) -> int {
    1 + (if c.learnt { 2int } else { 0int }) + c.lits.len()
}

/// Offset of the first literal from the header.
pub open spec fn lits_off(learnt: bool) -> int {
    if learnt {
        3
    } else {
        1
    }
}

pub open spec fn header_word(len: u32, learnt: bool, deleted: bool) -> u32 {
    len | (if learnt { LEARNT_BIT } else { 0u32 }) | (if deleted { DELETED_BIT } else { 0u32 })
}

// ---------------------------------------------------------------------------
// Bit-level lemmas
// ---------------------------------------------------------------------------

proof fn lemma_header_bits(len: u32, learnt: bool, deleted: bool)
    requires
        len <= LEN_MASK,
    ensures
        header_word(len, learnt, deleted) & LEN_MASK == len,
        (header_word(len, learnt, deleted) & LEARNT_BIT != 0) == learnt,
        (header_word(len, learnt, deleted) & DELETED_BIT != 0) == deleted,
        header_word(len, learnt, deleted) | DELETED_BIT == header_word(len, learnt, true),
{
    if learnt {
        if deleted {
            assert(((len | 0x4000_0000u32) | 0x8000_0000u32) & 0x3FFF_FFFFu32 == len && (((len
                | 0x4000_0000u32) | 0x8000_0000u32) & 0x4000_0000u32 != 0) && (((len
                | 0x4000_0000u32) | 0x8000_0000u32) & 0x8000_0000u32 != 0) && (((len
                | 0x4000_0000u32) | 0x8000_0000u32) | 0x8000_0000u32) == ((len | 0x4000_0000u32)
                | 0x8000_0000u32)) by (bit_vector)
                requires
                    len <= 0x3FFF_FFFFu32,
            ;
        } else {
            assert(((len | 0x4000_0000u32) | 0u32) & 0x3FFF_FFFFu32 == len && (((len
                | 0x4000_0000u32) | 0u32) & 0x4000_0000u32 != 0) && (((len | 0x4000_0000u32)
                | 0u32) & 0x8000_0000u32 == 0) && (((len | 0x4000_0000u32) | 0u32) | 0x8000_0000u32)
                == ((len | 0x4000_0000u32) | 0x8000_0000u32)) by (bit_vector)
                requires
                    len <= 0x3FFF_FFFFu32,
            ;
        }
    } else {
        if deleted {
            assert(((len | 0u32) | 0x8000_0000u32) & 0x3FFF_FFFFu32 == len && (((len | 0u32)
                | 0x8000_0000u32) & 0x4000_0000u32 == 0) && (((len | 0u32) | 0x8000_0000u32)
                & 0x8000_0000u32 != 0) && (((len | 0u32) | 0x8000_0000u32) | 0x8000_0000u32) == ((
            len | 0u32) | 0x8000_0000u32)) by (bit_vector)
                requires
                    len <= 0x3FFF_FFFFu32,
            ;
        } else {
            assert(((len | 0u32) | 0u32) & 0x3FFF_FFFFu32 == len && (((len | 0u32) | 0u32)
                & 0x4000_0000u32 == 0) && (((len | 0u32) | 0u32) & 0x8000_0000u32 == 0) && (((len
                | 0u32) | 0u32) | 0x8000_0000u32) == ((len | 0u32) | 0x8000_0000u32)) by (bit_vector)
                requires
                    len <= 0x3FFF_FFFFu32,
            ;
        }
    }
}

proof fn lemma_i32_u32_roundtrip(x: i32)
    ensures
        (x as u32) as i32 == x,
{
    assert((x as u32) as i32 == x) by (bit_vector);
}

// ---------------------------------------------------------------------------
// Layout invariant
// ---------------------------------------------------------------------------

/// The words of the buffer at `start` encode clause `c`.
pub open spec fn stored_at(buf: Seq<u32>, start: int, c: ArenaClause) -> bool {
    &&& 0 <= start
    &&& start + footprint(c) <= buf.len()
    &&& c.lits.len() <= LEN_MASK
    &&& buf[start] == header_word(c.lits.len() as u32, c.learnt, c.deleted)
    &&& c.learnt ==> buf[start + 1] == c.lbd && buf[start + 2] == c.act
    &&& !c.learnt ==> c.lbd == 0 && c.act == 0
    &&& forall|k: int|
        0 <= k < c.lits.len() ==> (#[trigger] buf[start + lits_off(c.learnt) + k]) as i32
            == c.lits[k]
}


/// Overwriting one word of a stored clause stores the updated clause.
proof fn lemma_store_word(buf0: Seq<u32>, st: int, off: int, w: u32, c: ArenaClause, cc: ArenaClause)
    requires
        stored_at(buf0, st, c),
        1 <= off < footprint(c),
        cc.lits.len() == c.lits.len(),
        cc.learnt == c.learnt,
        cc.deleted == c.deleted,
        c.learnt && off == 1 ==> cc.lbd == w && cc.act == c.act && cc.lits == c.lits,
        c.learnt && off == 2 ==> cc.act == w && cc.lbd == c.lbd && cc.lits == c.lits,
        off >= lits_off(c.learnt) ==> cc.lbd == c.lbd && cc.act == c.act && cc.lits
            == c.lits.update(off - lits_off(c.learnt), w as i32),
    ensures
        stored_at(buf0.update(st + off, w), st, cc),
{
    let buf1 = buf0.update(st + off, w);
    assert((w as i32) as u32 == w) by (bit_vector);
    if off >= lits_off(c.learnt) {
        assert(c.lits.update(off - lits_off(c.learnt), w as i32)[off - lits_off(c.learnt)] == w as i32);
    }
    assert forall|k: int| 0 <= k < cc.lits.len() implies (#[trigger] buf1[st + lits_off(cc.learnt) + k]) as i32
        == cc.lits[k] by {
        assert(buf0[st + lits_off(c.learnt) + k] as i32 == c.lits[k]);
        if st + lits_off(cc.learnt) + k == st + off {
            lemma_i32_u32_roundtrip(w as i32);
        }
    }
}

/// The total number of words of the first `n` clauses in `order`.
pub open spec fn prefix_words(order: Seq<int>, cls: Map<int, ArenaClause>, n: int) -> int
    decreases n,
{
    if n <= 0 {
        0
    } else {
        prefix_words(order, cls, n - 1) + footprint(cls[order[n - 1]])
    }
}

/// Words of deleted clauses among the first `n` clauses in `order`.
pub open spec fn prefix_wasted(order: Seq<int>, cls: Map<int, ArenaClause>, n: int) -> int
    decreases n,
{
    if n <= 0 {
        0
    } else {
        prefix_wasted(order, cls, n - 1) + (if cls[order[n - 1]].deleted {
            footprint(cls[order[n - 1]])
        } else {
            0
        })
    }
}

proof fn lemma_prefix_bounds(order: Seq<int>, cls: Map<int, ArenaClause>, n: int)
    requires
        0 <= n,
    ensures
        0 <= prefix_wasted(order, cls, n) <= prefix_words(order, cls, n),
        prefix_words(order, cls, n) >= 0,
    decreases n,
{
    if n > 0 {
        lemma_prefix_bounds(order, cls, n - 1);
    }
}

proof fn lemma_prefix_words_mono(order: Seq<int>, cls: Map<int, ArenaClause>, i: int, j: int)
    requires
        0 <= i <= j,
    ensures
        prefix_words(order, cls, i) <= prefix_words(order, cls, j),
    decreases j - i,
{
    if i < j {
        lemma_prefix_words_mono(order, cls, i, j - 1);
    }
}

proof fn lemma_prefix_frame(
    order: Seq<int>,
    cls: Map<int, ArenaClause>,
    cls2: Map<int, ArenaClause>,
    n: int,
)
    requires
        forall|i: int| 0 <= i < n ==> #[trigger] cls[order[i]] == cls2[order[i]],
    ensures
        prefix_words(order, cls, n) == prefix_words(order, cls2, n),
        prefix_wasted(order, cls, n) == prefix_wasted(order, cls2, n),
    decreases n,
{
    if n > 0 {
        lemma_prefix_frame(order, cls, cls2, n - 1);
        assert(cls[order[n - 1]] == cls2[order[n - 1]]);
    }
}

/// Changing one clause without changing its size changes the prefix sums only
/// through its deleted flag.
proof fn lemma_prefix_update(
    order: Seq<int>,
    cls: Map<int, ArenaClause>,
    cls2: Map<int, ArenaClause>,
    j: int,
    n: int,
)
    requires
        0 <= j,
        forall|i: int| 0 <= i < n && i != j ==> #[trigger] cls[order[i]] == cls2[order[i]],
        footprint(cls[order[j]]) == footprint(cls2[order[j]]),
        forall|i: int| 0 <= i < n && i != j ==> #[trigger] order[i] != order[j],
    ensures
        prefix_words(order, cls, n) == prefix_words(order, cls2, n),
        n > j ==> prefix_wasted(order, cls2, n) == prefix_wasted(order, cls, n) + (if cls2[order[j]].deleted {
            footprint(cls2[order[j]])
        } else {
            0
        }) - (if cls[order[j]].deleted {
            footprint(cls[order[j]])
        } else {
            0
        }),
        n <= j ==> prefix_wasted(order, cls2, n) == prefix_wasted(order, cls, n),
    decreases n,
{
    if n > 0 {
        lemma_prefix_update(order, cls, cls2, j, n - 1);
        if n - 1 != j {
            assert(cls[order[n - 1]] == cls2[order[n - 1]]);
        }
    }
}

/// The clauses listed in `order` tile the buffer from word 0 onwards.
pub open spec fn tiled(buf: Seq<u32>, order: Seq<int>, cls: Map<int, ArenaClause>) -> bool {
    &&& forall|i: int| 0 <= i < order.len() ==> cls.dom().contains(#[trigger] order[i])
    &&& forall|i: int| 0 <= i < order.len() ==> #[trigger] order[i] == prefix_words(order, cls, i)
    &&& forall|i: int| 0 <= i < order.len() ==> stored_at(buf, #[trigger] order[i], cls[order[i]])
}

proof fn lemma_tiled_disjoint(buf: Seq<u32>, order: Seq<int>, cls: Map<int, ArenaClause>, i: int, j: int)
    requires
        tiled(buf, order, cls),
        0 <= i < j < order.len(),
    ensures
        order[i] + footprint(cls[order[i]]) <= order[j],
        order[i] < order[j],
{
    assert(order[i] == prefix_words(order, cls, i));
    assert(order[j] == prefix_words(order, cls, j));
    assert(prefix_words(order, cls, i + 1) == prefix_words(order, cls, i) + footprint(cls[order[i]]));
    lemma_prefix_words_mono(order, cls, i + 1, j);
    lemma_footprint_pos(cls[order[i]]);
}

/// Rewriting the words of clause `j` (keeping its size) preserves the tiling.
#[verifier::rlimit(40)]
proof fn lemma_tiled_update(
    buf0: Seq<u32>,
    buf1: Seq<u32>,
    order: Seq<int>,
    cls0: Map<int, ArenaClause>,
    j: int,
    c2: ArenaClause,
)
    requires
        tiled(buf0, order, cls0),
        0 <= j < order.len(),
        buf1.len() == buf0.len(),
        forall|x: int|
            0 <= x < buf0.len() && (x < order[j] || x >= order[j] + footprint(cls0[order[j]]))
                ==> #[trigger] buf1[x] == buf0[x],
        footprint(c2) == footprint(cls0[order[j]]),
        stored_at(buf1, order[j], c2),
    ensures
        tiled(buf1, order, cls0.insert(order[j], c2)),
        cls0.insert(order[j], c2).dom() == cls0.dom(),
        prefix_words(order, cls0.insert(order[j], c2), order.len() as int) == prefix_words(
            order,
            cls0,
            order.len() as int,
        ),
        prefix_wasted(order, cls0.insert(order[j], c2), order.len() as int) == prefix_wasted(
            order,
            cls0,
            order.len() as int,
        ) + (if c2.deleted { footprint(c2) } else { 0 }) - (if cls0[order[j]].deleted {
            footprint(cls0[order[j]])
        } else {
            0
        }),
{
    let cls1 = cls0.insert(order[j], c2);
    let n = order.len() as int;
    assert forall|i: int| 0 <= i < n && i != j implies #[trigger] order[i] != order[j] by {
        if i < j {
            lemma_tiled_disjoint(buf0, order, cls0, i, j);
        } else {
            lemma_tiled_disjoint(buf0, order, cls0, j, i);
        }
    }
    assert forall|i: int| 0 <= i < n && i != j implies #[trigger] cls0[order[i]] == cls1[order[i]] by {}
    assert(cls1[order[j]] == c2);
    lemma_prefix_update(order, cls0, cls1, j, n);
    assert(cls0.dom().contains(order[j]));
    assert(cls1.dom() =~= cls0.dom());
    assert forall|i: int| 0 <= i < n implies #[trigger] order[i] == prefix_words(order, cls1, i) by {
        assert(order[i] == prefix_words(order, cls0, i));
        lemma_prefix_update(order, cls0, cls1, j, i);
    }
    assert forall|i: int| 0 <= i < n implies stored_at(buf1, #[trigger] order[i], cls1[order[i]]) by {
        if i != j {
            let st = order[i];
            let cc = cls0[st];
            assert(stored_at(buf0, st, cc));
            if i < j {
                lemma_tiled_disjoint(buf0, order, cls0, i, j);
            } else {
                lemma_tiled_disjoint(buf0, order, cls0, j, i);
            }
            assert(buf1[st] == buf0[st]);
            if cc.learnt {
                assert(buf1[st + 1] == buf0[st + 1]);
                assert(buf1[st + 2] == buf0[st + 2]);
            }
            assert forall|k: int| 0 <= k < cc.lits.len() implies (#[trigger] buf1[st + lits_off(
                cc.learnt,
            ) + k]) as i32 == cc.lits[k] by {
                assert(buf0[st + lits_off(cc.learnt) + k] as i32 == cc.lits[k]);
            }
        }
    }
}

/// A clause database stored in one contiguous buffer.
pub struct ClauseArena {
    /// Backing store. Clauses are packed contiguously.
    buf: Vec<u32>,
    /// Words occupied by deleted (not yet reclaimed) clauses.
    wasted: usize,
    /// Header positions of the clauses, in allocation order.
    order: Ghost<Seq<int>>,
    /// The clause stored at each header position.
    cls: Ghost<Map<int, ArenaClause>>,
}

impl ClauseArena {
    /// The clauses, keyed by their references.
    pub closed spec fn clauses(&self) -> Map<int, ArenaClause> {
        self.cls@
    }

    /// Number of words in the buffer.
    pub closed spec fn words(&self) -> int {
        self.buf@.len() as int
    }

    /// Number of words occupied by deleted clauses.
    pub closed spec fn wasted_words(&self) -> int {
        self.wasted as int
    }

    /// `cr` refers to a stored clause.
    pub open spec fn valid(&self, cr: CRef) -> bool {
        self.clauses().dom().contains(cr as int)
    }

    /// The literals of clause `cr`.
    pub open spec fn lits_of(&self, cr: CRef) -> Seq<i32> {
        self.clauses()[cr as int].lits
    }

    pub closed spec fn wf(&self) -> bool {
        let order = self.order@;
        let cls = self.cls@;
        &&& self.buf@.len() < u32::MAX
        &&& tiled(self.buf@, order, cls)
        &&& forall|c: int| cls.dom().contains(c) ==> exists|i: int|
            0 <= i < order.len() && #[trigger] order[i] == c
        &&& self.buf@.len() == prefix_words(order, cls, order.len() as int)
        &&& self.wasted == prefix_wasted(order, cls, order.len() as int)
    }

    /// Consequences of the layout invariant used by the accessors.
    pub proof fn lemma_wf(&self)
        requires
            self.wf(),
        ensures
            0 <= self.wasted_words() <= self.words() < u32::MAX,
            forall|cr: int| #[trigger]
                self.clauses().dom().contains(cr) ==> 0 <= cr && cr + footprint(self.clauses()[cr])
                    <= self.words() && self.clauses()[cr].lits.len() <= LEN_MASK,
            forall|cr: int| #[trigger]
                self.clauses().dom().contains(cr) ==> (!self.clauses()[cr].learnt ==> self.clauses()[cr].lbd
                    == 0 && self.clauses()[cr].act == 0),
    {
        lemma_prefix_bounds(self.order@, self.cls@, self.order@.len() as int);
        assert forall|cr: int| #[trigger] self.clauses().dom().contains(cr) implies 0 <= cr && cr
            + footprint(self.clauses()[cr]) <= self.words() && self.clauses()[cr].lits.len() <= LEN_MASK by {
            let i = choose|i: int| 0 <= i < self.order@.len() && #[trigger] self.order@[i] == cr;
            assert(stored_at(self.buf@, self.order@[i], self.cls@[self.order@[i]]));
        }
        assert forall|cr: int| #[trigger] self.clauses().dom().contains(cr) implies (
        !self.clauses()[cr].learnt ==> self.clauses()[cr].lbd == 0 && self.clauses()[cr].act == 0) by {
            let i = choose|i: int| 0 <= i < self.order@.len() && #[trigger] self.order@[i] == cr;
            assert(stored_at(self.buf@, self.order@[i], self.cls@[self.order@[i]]));
        }
    }

    proof fn lemma_index_of(&self, cr: int) -> (i: int)
        requires
            self.wf(),
            self.cls@.dom().contains(cr),
        ensures
            0 <= i < self.order@.len(),
            self.order@[i] == cr,
            stored_at(self.buf@, cr, self.cls@[cr]),
    {
        let i = choose|i: int| 0 <= i < self.order@.len() && #[trigger] self.order@[i] == cr;
        assert(stored_at(self.buf@, self.order@[i], self.cls@[self.order@[i]]));
        i
    }

    /// Distinct clauses occupy disjoint word ranges.
    proof fn lemma_disjoint(&self, i: int, j: int)
        requires
            self.wf(),
            0 <= i < j < self.order@.len(),
        ensures
            self.order@[i] + footprint(self.cls@[self.order@[i]]) <= self.order@[j],
    {
        lemma_tiled_disjoint(self.buf@, self.order@, self.cls@, i, j);
    }

    /// Creates a new, empty arena.
    pub fn new() -> (a: Self)
        ensures
            a.wf(),
            a.clauses() == Map::<int, ArenaClause>::empty(),
            a.words() == 0,
            a.wasted_words() == 0,
    {
        ClauseArena {
            buf: Vec::new(),
            wasted: 0,
            order: Ghost(Seq::empty()),
            cls: Ghost(Map::empty()),
        }
    }

    /// Creates an empty arena with room for `cap` words.
    pub fn with_capacity(cap: usize) -> (a: Self)
        ensures
            a.wf(),
            a.clauses() == Map::<int, ArenaClause>::empty(),
            a.words() == 0,
            a.wasted_words() == 0,
    {
        ClauseArena {
            buf: Vec::with_capacity(cap),
            wasted: 0,
            order: Ghost(Seq::empty()),
            cls: Ghost(Map::empty()),
        }
    }

    /// Allocates a new clause at the end of the buffer and returns its
    /// reference (the old buffer length).  `lbd` is stored only for learned
    /// clauses; the activity word of a learned clause starts at 0.
    pub fn alloc_clause(&mut self, lits: &[i32], learnt: bool, lbd: u32) -> (cr: CRef)
        requires
            old(self).wf(),
            lits@.len() <= LEN_MASK,
            old(self).words() + 1 + (if learnt { 2int } else { 0int }) + lits@.len() < u32::MAX,
        ensures
            final(self).wf(),
            cr == old(self).words(),
            !old(self).valid(cr),
            final(self).clauses() == old(self).clauses().insert(
                cr as int,
                ArenaClause {
                    lits: lits@,
                    learnt,
                    deleted: false,
                    lbd: if learnt { lbd } else { 0 },
                    act: 0,
                },
            ),
            final(self).words() == old(self).words() + 1 + (if learnt { 2int } else { 0int })
                + lits@.len(),
            final(self).wasted_words() == old(self).wasted_words(),
    {
        let len = lits.len();
        let cr = self.buf.len() as CRef;
        let ghost c = ArenaClause {
            lits: lits@,
            learnt,
            deleted: false,
            lbd: if learnt { lbd } else { 0 },
            act: 0,
        };
        let ghost old_buf = self.buf@;
        proof {
            lemma_header_bits(len as u32, learnt, false);
            self.lemma_wf();
            if self.cls@.dom().contains(cr as int) {
                lemma_footprint_pos(self.cls@[cr as int]);
            }
            assert(!self.cls@.dom().contains(cr as int));
        }
        let mut header: u32 = len as u32;
        if learnt {
            header = header | LEARNT_BIT;
        }
        proof {
            if learnt {
                assert(header == header_word(len as u32, learnt, false)) by (bit_vector)
                    requires
                        header == (len as u32) | 0x4000_0000u32,
                        learnt,
                ;
            } else {
                assert((len as u32) | 0u32 | 0u32 == len as u32) by (bit_vector);
            }
        }
        self.buf.push(header);
        if learnt {
            self.buf.push(lbd);
            self.buf.push(0);
        }
        let off: usize = if learnt {
            3
        } else {
            1
        };
        let mut i: usize = 0;
        while i < len
            invariant
                i <= len,
                len == lits@.len(),
                off == lits_off(learnt),
                self.buf@.len() == old_buf.len() + off + i,
                forall|k: int| 0 <= k < old_buf.len() ==> self.buf@[k] == old_buf[k],
                self.buf@[old_buf.len() as int] == header_word(len as u32, learnt, false),
                learnt ==> self.buf@[old_buf.len() as int + 1] == lbd && self.buf@[old_buf.len() as int + 2]
                    == 0,
                forall|k: int|
                    0 <= k < i ==> (#[trigger] self.buf@[old_buf.len() + off + k]) as i32
                        == lits@[k],
                self.order == old(self).order,
                self.cls == old(self).cls,
                self.wasted == old(self).wasted,
                old(self).wf(),
                old_buf == old(self).buf@,
                cr == old_buf.len(),
                !old(self).cls@.dom().contains(cr as int),
            decreases len - i,
        {
            let w = lits[i] as u32;
            proof {
                lemma_i32_u32_roundtrip(lits@[i as int]);
            }
            self.buf.push(w);
            i = i + 1;
        }
        proof {
            let order0 = self.order@;
            let cls0 = self.cls@;
            let n = order0.len() as int;
            let order1 = order0.push(cr as int);
            let cls1 = cls0.insert(cr as int, c);
            assert forall|j: int| 0 <= j < n implies #[trigger] cls0[order1[j]] == cls1[order1[j]] by {
                assert(order1[j] == order0[j]);
                assert(cls0.dom().contains(order0[j]));
            }
            lemma_prefix_frame(order1, cls0, cls1, n);
            assert forall|j: int| 0 <= j < n implies #[trigger] cls0[order0[j]] == cls0[order1[j]] by {}
            lemma_prefix_frame_order(order0, order1, cls0, n);
            self.order@ = order1;
            self.cls@ = cls1;
            assert(prefix_words(order1, cls1, n + 1) == prefix_words(order1, cls1, n) + footprint(c));
            assert(prefix_wasted(order1, cls1, n + 1) == prefix_wasted(order1, cls1, n));
            assert forall|j: int| 0 <= j < order1.len() implies cls1.dom().contains(#[trigger] order1[j]) by {}
            assert forall|x: int| cls1.dom().contains(x) implies exists|j: int|
                0 <= j < order1.len() && #[trigger] order1[j] == x by {
                if x == cr as int {
                    assert(order1[n] == x);
                } else {
                    let j = choose|j: int| 0 <= j < order0.len() && #[trigger] order0[j] == x;
                    assert(order1[j] == x);
                }
            }
            assert forall|j: int| 0 <= j < order1.len() implies #[trigger] order1[j] == prefix_words(
                order1,
                cls1,
                j,
            ) by {
                if j < n {
                    assert(order0[j] == prefix_words(order0, cls0, j));
                    lemma_prefix_frame(order1, cls0, cls1, j);
                    lemma_prefix_frame_order(order0, order1, cls0, j);
                }
            }
            assert forall|j: int| 0 <= j < order1.len() implies stored_at(
                self.buf@,
                #[trigger] order1[j],
                cls1[order1[j]],
            ) by {
                if j < n {
                    assert(stored_at(old_buf, order0[j], cls0[order0[j]]));
                    assert(cls1[order1[j]] == cls0[order0[j]]);
                    let s = order0[j];
                    let cc = cls0[s];
                    assert forall|k: int| 0 <= k < cc.lits.len() implies (
                    #[trigger] self.buf@[s + lits_off(cc.learnt) + k]) as i32 == cc.lits[k] by {
                        assert(old_buf[s + lits_off(cc.learnt) + k] as i32 == cc.lits[k]);
                    }
                } else {
                    assert forall|k: int| 0 <= k < c.lits.len() implies (
                    #[trigger] self.buf@[(cr as int) + lits_off(c.learnt) + k]) as i32
                        == c.lits[k] by {
                        assert(self.buf@[old_buf.len() + off + k] as i32 == lits@[k]);
                    }
                }
            }
        }
        cr
    }

    /// Returns the number of literals of clause `cr`.
    pub fn len(&self, cr: CRef) -> (n: usize)
        requires
            self.wf(),
            self.valid(cr),
        ensures
            n == self.lits_of(cr).len(),
    {
        proof {
            let i = self.lemma_index_of(cr as int);
            let c = self.cls@[cr as int];
            lemma_header_bits(c.lits.len() as u32, c.learnt, c.deleted);
        }
        (self.buf[cr as usize] & LEN_MASK) as usize
    }

    /// Returns `true` if clause `cr` is a learned clause.
    pub fn is_learnt(&self, cr: CRef) -> (b: bool)
        requires
            self.wf(),
            self.valid(cr),
        ensures
            b == self.clauses()[cr as int].learnt,
    {
        proof {
            let i = self.lemma_index_of(cr as int);
            let c = self.cls@[cr as int];
            lemma_header_bits(c.lits.len() as u32, c.learnt, c.deleted);
        }
        self.buf[cr as usize] & LEARNT_BIT != 0
    }

    /// Returns `true` if clause `cr` has been marked as deleted.
    pub fn is_deleted(&self, cr: CRef) -> (b: bool)
        requires
            self.wf(),
            self.valid(cr),
        ensures
            b == self.clauses()[cr as int].deleted,
    {
        proof {
            let i = self.lemma_index_of(cr as int);
            let c = self.cls@[cr as int];
            lemma_header_bits(c.lits.len() as u32, c.learnt, c.deleted);
        }
        self.buf[cr as usize] & DELETED_BIT != 0
    }

    /// Marks clause `cr` as deleted.  The first deletion adds the clause's
    /// footprint (header, LBD and activity words when learned, literals) to
    /// the wasted count; deleting again changes nothing.
    pub fn set_deleted(&mut self, cr: CRef)
        requires
            old(self).wf(),
            old(self).valid(cr),
        ensures
            final(self).wf(),
            ({
                let c = old(self).clauses()[cr as int];
                &&& final(self).clauses() == old(self).clauses().insert(
                    cr as int,
                    ArenaClause { deleted: true, ..c },
                )
                &&& final(self).wasted_words() == old(self).wasted_words() + (if c.deleted {
                    0
                } else {
                    footprint(c)
                })
            }),
            final(self).words() == old(self).words(),
    {
        let ghost j = self.lemma_index_of(cr as int);
        let ghost c = self.cls@[cr as int];
        proof {
            lemma_header_bits(c.lits.len() as u32, c.learnt, c.deleted);
            lemma_header_bits(c.lits.len() as u32, c.learnt, true);
        }
        let header = self.buf[cr as usize];
        if header & DELETED_BIT != 0 {
            proof {
                assert(ArenaClause { deleted: true, ..c } == c);
                assert(self.cls@.insert(cr as int, c) =~= self.cls@);
            }
            return;
        }
        let learnt = header & LEARNT_BIT != 0;
        let lit_count = (header & LEN_MASK) as usize;
        let ghost old_buf = self.buf@;
        let new_header = header | DELETED_BIT;
        self.buf.set(cr as usize, new_header);
        let ghost c2 = ArenaClause { deleted: true, ..c };
        proof {
            let order = self.order@;
            assert forall|k: int| 0 <= k < c2.lits.len() implies (#[trigger] self.buf@[(cr as int)
                + lits_off(c2.learnt) + k]) as i32 == c2.lits[k] by {
                assert(old_buf[(cr as int) + lits_off(c.learnt) + k] as i32 == c.lits[k]);
            }
            assert(stored_at(self.buf@, order[j], c2));
            lemma_tiled_update(old_buf, self.buf@, order, self.cls@, j, c2);
            lemma_prefix_bounds(order, self.cls@.insert(order[j], c2), order.len() as int);
        }
        self.wasted = self.wasted + 1 + if learnt {
            2
        } else {
            0
        } + lit_count;
        proof {
            let order = self.order@;
            let cls0 = self.cls@;
            let cls1 = cls0.insert(cr as int, c2);
            self.cls@ = cls1;
            assert forall|x: int| cls1.dom().contains(x) implies exists|i: int|
                0 <= i < order.len() && #[trigger] order[i] == x by {
                assert(cls0.dom().contains(x));
            }
        }
    }

    /// Returns the LBD of learned clause `cr`.
    pub fn lbd(&self, cr: CRef) -> (l: u32)
        requires
            self.wf(),
            self.valid(cr),
            self.clauses()[cr as int].learnt,
        ensures
            l == self.clauses()[cr as int].lbd,
    {
        proof {
            let i = self.lemma_index_of(cr as int);
        }
        self.buf[cr as usize + 1]
    }

    /// Sets the LBD of learned clause `cr`.
    pub fn set_lbd(&mut self, cr: CRef, lbd: u32)
        requires
            old(self).wf(),
            old(self).valid(cr),
            old(self).clauses()[cr as int].learnt,
        ensures
            final(self).wf(),
            final(self).clauses() == old(self).clauses().insert(
                cr as int,
                ArenaClause { lbd, ..old(self).clauses()[cr as int] },
            ),
            final(self).words() == old(self).words(),
            final(self).wasted_words() == old(self).wasted_words(),
    {
        let ghost c = self.cls@[cr as int];
        self.set_word_checked(cr, 1, lbd, Ghost(ArenaClause { lbd, ..c }));
    }

    /// Returns the activity word of learned clause `cr`.
    pub fn activity(&self, cr: CRef) -> (a: u32)
        requires
            self.wf(),
            self.valid(cr),
            self.clauses()[cr as int].learnt,
        ensures
            a == self.clauses()[cr as int].act,
    {
        proof {
            let i = self.lemma_index_of(cr as int);
        }
        self.buf[cr as usize + 2]
    }

    /// Sets the activity word of learned clause `cr`.
    pub fn set_activity(&mut self, cr: CRef, act: u32)
        requires
            old(self).wf(),
            old(self).valid(cr),
            old(self).clauses()[cr as int].learnt,
        ensures
            final(self).wf(),
            final(self).clauses() == old(self).clauses().insert(
                cr as int,
                ArenaClause { act, ..old(self).clauses()[cr as int] },
            ),
            final(self).words() == old(self).words(),
            final(self).wasted_words() == old(self).wasted_words(),
    {
        let ghost c = self.cls@[cr as int];
        self.set_word_checked(cr, 2, act, Ghost(ArenaClause { act, ..c }));
    }

    /// Raises the activity of learned clause `cr` by `inc` (staying at the
    /// largest value once it is reached).
    pub fn bump_activity(&mut self, cr: CRef, inc: u32)
        requires
            old(self).wf(),
            old(self).valid(cr),
            old(self).clauses()[cr as int].learnt,
        ensures
            final(self).wf(),
            final(self).clauses() == old(self).clauses().insert(
                cr as int,
                ArenaClause {
                    act: if old(self).clauses()[cr as int].act + inc > u32::MAX {
                        u32::MAX
                    } else {
                        (old(self).clauses()[cr as int].act + inc) as u32
                    },
                    ..old(self).clauses()[cr as int]
                },
            ),
            final(self).words() == old(self).words(),
            final(self).wasted_words() == old(self).wasted_words(),
    {
        let a = self.activity(cr);
        let b = if a > u32::MAX - inc { u32::MAX } else { a + inc };
        self.set_activity(cr, b);
    }

    /// Overwrites word `cr + off` of clause `cr`, whose new content is `c2`.
    #[verifier::rlimit(50)]
    fn set_word_checked(&mut self, cr: CRef, off: usize, w: u32, c2: Ghost<ArenaClause>)
        requires
            old(self).wf(),
            old(self).valid(cr),
            ({
                let c = old(self).clauses()[cr as int];
                &&& 1 <= off < footprint(c)
                &&& c2@.lits.len() == c.lits.len()
                &&& c2@.learnt == c.learnt
                &&& c2@.deleted == c.deleted
                &&& (c.learnt && off == 1 ==> c2@.lbd == w && c2@.act == c.act && c2@.lits == c.lits)
                &&& (c.learnt && off == 2 ==> c2@.act == w && c2@.lbd == c.lbd && c2@.lits == c.lits)
                &&& (off >= lits_off(c.learnt) ==> c2@.lbd == c.lbd && c2@.act == c.act && c2@.lits
                    == c.lits.update(off - lits_off(c.learnt), w as i32))
            }),
        ensures
            final(self).wf(),
            final(self).clauses() == old(self).clauses().insert(cr as int, c2@),
            final(self).words() == old(self).words(),
            final(self).wasted_words() == old(self).wasted_words(),
    {
        let ghost j = self.lemma_index_of(cr as int);
        let ghost c = self.cls@[cr as int];
        let ghost old_buf = self.buf@;
        proof {
            assert(stored_at(old_buf, cr as int, c));
        }
        self.buf.set(cr as usize + off, w);
        proof {
            let order = self.order@;
            lemma_store_word(old_buf, cr as int, off as int, w, c, c2@);
            assert(self.buf@ == old_buf.update(cr as int + off as int, w));
            lemma_tiled_update(old_buf, self.buf@, order, self.cls@, j, c2@);
            let cls0 = self.cls@;
            let cls1 = cls0.insert(cr as int, c2@);
            self.cls@ = cls1;
            assert forall|x: int| cls1.dom().contains(x) implies exists|i: int|
                0 <= i < order.len() && #[trigger] order[i] == x by {
                assert(cls0.dom().contains(x));
            }
        }
    }

    /// Returns the number of words occupied by deleted clauses.
    pub fn wasted(&self) -> (w: usize)
        ensures
            w == self.wasted_words(),
    {
        self.wasted
    }

    /// Returns the total number of words in the buffer.
    pub fn total_words(&self) -> (n: usize)
        ensures
            n == self.words(),
    {
        self.buf.len()
    }

    /// Index in the buffer of the first literal of clause `cr`.
    fn lits_offset(&self, cr: CRef) -> (o: usize)
        requires
            self.wf(),
            self.valid(cr),
        ensures
            o == cr + lits_off(self.clauses()[cr as int].learnt),
            o + self.lits_of(cr).len() <= self.words(),
    {
        proof {
            let i = self.lemma_index_of(cr as int);
            let c = self.cls@[cr as int];
            lemma_header_bits(c.lits.len() as u32, c.learnt, c.deleted);
        }
        let i = cr as usize;
        if self.buf[i] & LEARNT_BIT != 0 {
            i + 3
        } else {
            i + 1
        }
    }

    /// Returns literal `k` of clause `cr`.
    pub fn lit(&self, cr: CRef, k: usize) -> (l: i32)
        requires
            self.wf(),
            self.valid(cr),
            k < self.lits_of(cr).len(),
        ensures
            l == self.lits_of(cr)[k as int],
    {
        proof {
            let i = self.lemma_index_of(cr as int);
        }
        let o = self.lits_offset(cr);
        self.buf[o + k] as i32
    }

    /// Returns a copy of the literals of clause `cr`.
    pub fn lits(&self, cr: CRef) -> (v: Vec<i32>)
        requires
            self.wf(),
            self.valid(cr),
        ensures
            v@ == self.lits_of(cr),
    {
        proof {
            let i = self.lemma_index_of(cr as int);
        }
        let o = self.lits_offset(cr);
        let n = self.len(cr);
        let mut v: Vec<i32> = Vec::with_capacity(n);
        let mut k: usize = 0;
        while k < n
            invariant
                k <= n,
                n == self.lits_of(cr).len(),
                o == cr + lits_off(self.clauses()[cr as int].learnt),
                o + n <= self.words(),
                self.wf(),
                stored_at(self.buf@, cr as int, self.cls@[cr as int]),
                v@ == self.lits_of(cr).subrange(0, k as int),
            decreases n - k,
        {
            v.push(self.buf[o + k] as i32);
            k = k + 1;
            proof {
                assert(v@ =~= self.lits_of(cr).subrange(0, k as int));
            }
        }
        proof {
            assert(v@ =~= self.lits_of(cr));
        }
        v
    }

    /// Overwrites literal `k` of clause `cr`.
    pub fn set_lit(&mut self, cr: CRef, k: usize, lit: i32)
        requires
            old(self).wf(),
            old(self).valid(cr),
            k < old(self).lits_of(cr).len(),
        ensures
            final(self).wf(),
            final(self).clauses() == old(self).clauses().insert(
                cr as int,
                ArenaClause {
                    lits: old(self).lits_of(cr).update(k as int, lit),
                    ..old(self).clauses()[cr as int]
                },
            ),
            final(self).words() == old(self).words(),
            final(self).wasted_words() == old(self).wasted_words(),
    {
        proof {
            let i = self.lemma_index_of(cr as int);
            lemma_i32_u32_roundtrip(lit);
        }
        let o = self.lits_offset(cr);
        let ghost c = self.cls@[cr as int];
        let off = o - cr as usize + k;
        self.set_word_checked(
            cr,
            off,
            lit as u32,
            Ghost(ArenaClause { lits: c.lits.update(k as int, lit), ..c }),
        );
    }

    /// Swaps literals `i` and `j` of clause `cr`.
    pub fn swap_lits(&mut self, cr: CRef, i: usize, j: usize)
        requires
            old(self).wf(),
            old(self).valid(cr),
            i < old(self).lits_of(cr).len(),
            j < old(self).lits_of(cr).len(),
        ensures
            final(self).wf(),
            ({
                let l = old(self).lits_of(cr);
                final(self).clauses() == old(self).clauses().insert(
                    cr as int,
                    ArenaClause { lits: l.update(i as int, l[j as int]).update(j as int, l[i as int]), ..old(self).clauses()[cr as int] },
                )
            }),
            final(self).words() == old(self).words(),
            final(self).wasted_words() == old(self).wasted_words(),
    {
        let a = self.lit(cr, i);
        let b = self.lit(cr, j);
        self.set_lit(cr, i, b);
        self.set_lit(cr, j, a);
        proof {
            let l = old(self).lits_of(cr);
            assert(self.clauses() =~= old(self).clauses().insert(
                cr as int,
                ArenaClause { lits: l.update(i as int, l[j as int]).update(j as int, l[i as int]), ..old(self).clauses()[cr as int] },
            ));
        }
    }
}

proof fn lemma_footprint_pos(c: ArenaClause)
    ensures
        footprint(c) >= 1,
{
}

proof fn lemma_prefix_frame_order(order0: Seq<int>, order1: Seq<int>, cls: Map<int, ArenaClause>, n: int)
    requires
        n <= order0.len(),
        n <= order1.len(),
        forall|i: int| 0 <= i < n ==> #[trigger] order0[i] == order1[i],
    ensures
        prefix_words(order0, cls, n) == prefix_words(order1, cls, n),
        prefix_wasted(order0, cls, n) == prefix_wasted(order1, cls, n),
    decreases n,
{
    if n > 0 {
        lemma_prefix_frame_order(order0, order1, cls, n - 1);
        assert(order0[n - 1] == order1[n - 1]);
    }
}

impl Default for ClauseArena {
    fn default() -> (a: Self)
        ensures
            a.wf(),
            a.clauses() == Map::<int, ArenaClause>::empty(),
            a.words() == 0,
            a.wasted_words() == 0,
    {
        Self::new()
    }
}

} // verus!
