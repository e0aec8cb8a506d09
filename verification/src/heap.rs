//! Position-indexed binary heap for VSIDS variable ordering (MiniSAT style).
//!
//! Supports O(log n) re-positioning after an activity change and O(1)
//! membership tests.  Activities are unsigned integers; the variable with the
//! highest activity (ties: the lowest number) is at the top.
use vstd::prelude::*;

verus! {

/// Position-indexed binary max-heap of variables keyed by activity.
pub struct VarHeap {
    /// heap[i] = variable at position i
    heap: Vec<i32>,
    /// indices[var] = position in heap, or -1
    indices: Vec<i32>,
    /// Activity scores, indexed by variable.
    pub activity: Vec<u64>,
}

/// `a` comes before `b`: higher activity, ties broken by lower number.
pub open spec fn before(act: Seq<u64>, a: int, b: int) -> bool {
    act[a] > act[b] || (act[a] == act[b] && a < b)
}

pub open spec fn parent(i: int) -> int {
    (i - 1) / 2
}

impl VarHeap {
    /// The variables currently in the heap.
    pub closed spec fn members(&self) -> Set<int> {
        Set::new(|v: int| 0 <= v < self.indices@.len() && self.indices@[v] >= 0)
    }

    /// The activity of each variable slot.
    pub closed spec fn act(&self) -> Seq<u64> {
        self.activity@
    }

    /// Number of variable slots (largest insertable variable + 1 without
    /// growing).
    pub closed spec fn slots(&self) -> int {
        self.indices@.len() as int
    }

    /// Position/index consistency and the heap order.
    pub closed spec fn inv(&self) -> bool {
        &&& self.inv_positions()
        &&& forall|p: int| 0 < p < self.heap@.len() ==> #[trigger] self.edge_ok(p)
    }

    /// The element at `p` does not come before its parent.
    pub closed spec fn edge_ok(&self, p: int) -> bool {
        !before(self.act(), self.heap@[p] as int, self.heap@[parent(p)] as int)
    }

    /// Number of variables in the heap.
    pub closed spec fn size(&self) -> int {
        self.heap@.len() as int
    }

    pub proof fn lemma_members_size(&self)
        requires
            self.inv(),
        ensures
            self.members().finite(),
            self.members().len() == self.size(),
            self.size() == 0 <==> self.members() == Set::<int>::empty(),
    {
        let h = self.heap@;
        let hm = h.map_values(|x: i32| x as int);
        let hs = hm.to_set();
        assert(self.members() =~= hs) by {
            assert forall|v: int| self.members().contains(v) implies hs.contains(v) by {
                let p = self.indices@[v] as int;
                assert(hm[p] == v);
            }
            assert forall|v: int| hs.contains(v) implies self.members().contains(v) by {
                let p = choose|p: int| 0 <= p < hm.len() && #[trigger] hm[p] == v;
                assert(0 <= h[p] < self.indices@.len());
            }
        }
        assert(hm.no_duplicates()) by {
            assert forall|p: int, q: int| 0 <= p < hm.len() && 0 <= q < hm.len() && p != q implies hm[p] != hm[q] by {
                assert(self.indices@[h[p] as int] == p);
                assert(self.indices@[h[q] as int] == q);
            }
        }
        hm.unique_seq_to_set();
        if self.size() == 0 {
            assert(self.members() =~= Set::<int>::empty());
        }
        if self.members() == Set::<int>::empty() {
            assert(self.members().len() == 0);
        }
    }

    /// Creates an empty heap with slots for variables `0 ..= num_vars`.
    pub fn new(num_vars: usize) -> (h: Self)
        requires
            num_vars + 1 < i32::MAX,
        ensures
            h.inv(),
            h.members() == Set::<int>::empty(),
            h.slots() == num_vars + 1,
            h.act() == Seq::new((num_vars + 1) as nat, |i: int| 0u64),
    {
        let mut indices: Vec<i32> = Vec::new();
        let mut activity: Vec<u64> = Vec::new();
        let n = num_vars + 1;
        let mut i: usize = 0;
        while i < n
            invariant
                n == num_vars + 1,
                i <= num_vars + 1,
                indices@.len() == i,
                activity@.len() == i,
                forall|k: int| 0 <= k < i ==> indices@[k] == -1,
                forall|k: int| 0 <= k < i ==> activity@[k] == 0,
            decreases num_vars + 1 - i,
        {
            indices.push(-1);
            activity.push(0);
            i = i + 1;
        }
        let h = VarHeap { heap: Vec::new(), indices, activity };
        proof {
            assert(h.members() =~= Set::<int>::empty());
            assert(h.act() =~= Seq::new((num_vars + 1) as nat, |i: int| 0u64));
        }
        h
    }

    /// Replaces the activity array and restores the heap order.
    pub fn set_activity(&mut self, activity: &[u64])
        requires
            old(self).inv(),
            activity@.len() == old(self).slots(),
        ensures
            final(self).inv(),
            final(self).act() == activity@,
            final(self).members() == old(self).members(),
            final(self).slots() == old(self).slots(),
    {
        let mut i: usize = 0;
        let ghost h0 = self.heap@;
        while i < activity.len()
            invariant
                i <= activity@.len(),
                activity@.len() == self.act().len(),
                self.act().len() == self.indices@.len(),
                forall|k: int| 0 <= k < i ==> self.act()[k] == activity@[k],
                self.heap == old(self).heap,
                self.indices == old(self).indices,
                old(self).inv(),
            decreases activity@.len() - i,
        {
            self.activity.set(i, activity[i]);
            i = i + 1;
        }
        proof {
            assert(self.act() =~= activity@);
        }
        self.build_heap();
    }

    /// Sets the activity of `var` and restores its position.
    pub fn update_activity(&mut self, var: i32, new_activity: u64)
        requires
            old(self).inv(),
            0 <= var < old(self).slots(),
        ensures
            final(self).inv(),
            final(self).act() == old(self).act().update(var as int, new_activity),
            final(self).members() == old(self).members(),
            final(self).slots() == old(self).slots(),
    {
        self.activity.set(var as usize, new_activity);
        self.build_heap();
    }

    /// Replaces the activity array and rebuilds the heap order.
    pub fn sync_activity(&mut self, activity: &[u64])
        requires
            old(self).inv(),
            activity@.len() == old(self).slots(),
        ensures
            final(self).inv(),
            final(self).act() == activity@,
            final(self).members() == old(self).members(),
            final(self).slots() == old(self).slots(),
    {
        self.set_activity(activity);
    }

    pub proof fn lemma_members_range(&self)
        ensures
            forall|v: int| #[trigger] self.members().contains(v) ==> 0 <= v < self.slots(),
    {
    }

    pub proof fn lemma_act_len(&self)
        requires
            self.inv(),
        ensures
            self.act().len() == self.slots(),
    {
    }

    /// The activity of `var`.
    pub fn activity_of(&self, var: usize) -> (a: u64)
        requires
            var < self.act().len(),
        ensures
            a == self.act()[var as int],
    {
        self.activity[var]
    }

    /// Whether `var` is in the heap.
    pub fn in_heap(&self, var: i32) -> (b: bool)
        requires
            self.inv(),
            var >= 0,
        ensures
            b == self.members().contains(var as int),
    {
        let v = var as usize;
        v < self.indices.len() && self.indices[v] >= 0
    }

    /// Whether the heap is empty.
    pub fn is_empty(&self) -> (b: bool)
        requires
            self.inv(),
        ensures
            b == (self.members() == Set::<int>::empty()),
    {
        proof {
            self.lemma_members_size();
        }
        self.heap.len() == 0
    }

    fn lt(&self, a: i32, b: i32) -> (r: bool)
        requires
            0 <= a < self.act().len(),
            0 <= b < self.act().len(),
        ensures
            r == before(self.act(), a as int, b as int),
    {
        let aa = self.activity[a as usize];
        let ab = self.activity[b as usize];
        aa > ab || (aa == ab && a < b)
    }

    /// Adds empty slots (activity 0, not in the heap) up to variable `v`.
    fn grow_to(&mut self, v: usize)
        requires
            old(self).inv(),
            v < 0x7fff_fff0,
        ensures
            final(self).inv(),
            final(self).members() == old(self).members(),
            final(self).slots() == if v < old(self).slots() { old(self).slots() } else { v + 1 },
            final(self).act() == old(self).act() + Seq::new(
                (final(self).slots() - old(self).slots()) as nat,
                |i: int| 0u64,
            ),
    {
        let ghost s0 = *self;
        while self.indices.len() <= v
            invariant
                self.inv(),
                v < 0x7fff_fff0,
                self.heap == s0.heap,
                self.indices@.len() >= s0.indices@.len(),
                self.indices@.len() <= if v < s0.indices@.len() { s0.indices@.len() as int } else { v + 1 },
                forall|i: int| 0 <= i < s0.indices@.len() ==> self.indices@[i] == s0.indices@[i],
                forall|i: int| s0.indices@.len() <= i < self.indices@.len() ==> self.indices@[i] == -1,
                self.act() == s0.act() + Seq::new(
                    (self.indices@.len() - s0.indices@.len()) as nat,
                    |i: int| 0u64,
                ),
            decreases v + 1 - self.indices@.len(),
        {
            let ghost pre = *self;
            self.indices.push(-1);
            self.activity.push(0);
            proof {
                assert(self.act() =~= s0.act() + Seq::new(
                    (self.indices@.len() - s0.indices@.len()) as nat,
                    |i: int| 0u64,
                ));
                assert forall|p: int| 0 < p < self.heap@.len() implies #[trigger] self.edge_ok(p) by {
                    assert(pre.edge_ok(p));
                    assert(0 <= self.heap@[p] < pre.indices@.len());
                    assert(0 <= self.heap@[parent(p)] < pre.indices@.len());
                }
            }
        }
        proof {
            assert(self.members() =~= s0.members());
        }
    }

    /// Inserts `var` (no-op when present), first growing the tables when
    /// `var` is beyond them.
    pub fn insert(&mut self, var: i32)
        requires
            old(self).inv(),
            0 <= var < 0x7fff_fff0,
        ensures
            final(self).inv(),
            final(self).members() == old(self).members().insert(var as int),
            final(self).slots() == if var < old(self).slots() { old(self).slots() } else { var + 1 },
            final(self).act() == old(self).act() + Seq::new(
                (final(self).slots() - old(self).slots()) as nat,
                |i: int| 0u64,
            ),
    {
        let ghost s00 = *self;
        self.grow_to(var as usize);
        proof {
            assert(self.act() == s00.act() + Seq::new((self.slots() - s00.slots()) as nat, |i: int| 0u64));
        }
        let ghost s01 = *self;
        if self.in_heap(var) {
            proof {
                assert(self.members().insert(var as int) =~= self.members());
            }
            return;
        }
        let v = var as usize;
        let n = self.heap.len();
        proof {
            self.lemma_members_size();
            self.lemma_heap_room(var as int);
        }
        self.indices.set(v, n as i32);
        self.heap.push(var);
        proof {
            let s0 = s01;
            assert forall|p: int| 0 < p < self.heap@.len() && p != n implies #[trigger] self.edge_ok(p) by {
                assert(s0.edge_ok(p));
                assert(s0.heap@[p] == self.heap@[p]);
                assert(s0.heap@[parent(p)] == self.heap@[parent(p)]);
            }
            assert forall|v2: int| 0 <= v2 < self.indices@.len() && #[trigger] self.indices@[v2] >= 0 implies self.heap@[self.indices@[v2] as int] == v2 by {
                if v2 != var {
                    assert(s0.indices@[v2] == self.indices@[v2]);
                }
            }
            assert forall|q: int| 0 <= q < self.heap@.len() implies 0 <= #[trigger] self.heap@[q] < self.indices@.len() && self.indices@[self.heap@[q] as int] == q by {
                if q < n {
                    assert(self.heap@[q] == s0.heap@[q]);
                }
            }
            assert(self.inv_up(n as int));
        }
        self.percolate_up(n);
        proof {
            assert(self.members() =~= s01.members().insert(var as int));
        }
    }

    proof fn lemma_heap_room(&self, var: int)
        requires
            self.inv(),
            0 <= var < self.indices@.len(),
            self.indices@[var] < 0,
        ensures
            self.heap@.len() < self.indices@.len(),
    {
        self.lemma_members_size();
        let m = self.members();
        let all = Set::new(|v: int| 0 <= v < self.indices@.len());
        assert(m.subset_of(all.remove(var)));
        vstd::set_lib::lemma_int_range(0, self.indices@.len() as int);
        assert(all =~= vstd::set_lib::set_int_range(0, self.indices@.len() as int));
        vstd::set_lib::lemma_len_subset(m, all.remove(var));
    }

    /// Removes and returns the variable at the top: the one with the highest
    /// activity (ties: lowest number).  `None` when the heap is empty.
    pub fn remove_min(&mut self) -> (r: Option<i32>)
        requires
            old(self).inv(),
        ensures
            final(self).inv(),
            final(self).act() == old(self).act(),
            final(self).slots() == old(self).slots(),
            match r {
                None => old(self).members() == Set::<int>::empty() && final(self).members()
                    == old(self).members(),
                Some(x) => old(self).members().contains(x as int) && final(self).members()
                    == old(self).members().remove(x as int) && forall|u: int| #[trigger]
                    old(self).members().contains(u) ==> !before(old(self).act(), u, x as int),
            },
    {
        proof {
            self.lemma_members_size();
        }
        if self.heap.len() == 0 {
            return None;
        }
        let x = self.heap[0];
        proof {
            self.lemma_top_is_best();
        }
        let last = self.heap[self.heap.len() - 1];
        self.heap.set(0, last);
        self.indices.set(last as usize, 0);
        self.indices.set(x as usize, -1);
        self.heap.pop();
        proof {
            let s0 = *old(self);
            let h0 = s0.heap@;
            let h = self.heap@;
            let m = h0.len() - 1;
            assert forall|q: int| 0 <= q < h.len() implies 0 <= #[trigger] h[q] < self.indices@.len() && self.indices@[h[q] as int] == q by {
                if q > 0 {
                    assert(h[q] == h0[q]);
                    assert(h0[q] != x);
                    assert(h0[q] != last);
                } else {
                    assert(h[0] == last);
                    assert(last != x);
                }
            }
            assert forall|v: int| 0 <= v < self.indices@.len() && #[trigger] self.indices@[v] >= 0 implies h[self.indices@[v] as int] == v by {
                if v != x && v != last {
                    assert(s0.indices@[v] == self.indices@[v]);
                    assert(s0.indices@[v] != m);
                    assert(s0.indices@[v] != 0);
                }
            }
            assert forall|v: int| 0 <= v < self.indices@.len() implies #[trigger] self.indices@[v] < h.len() by {
                if v != x && v != last {
                    assert(s0.indices@[v] == self.indices@[v]);
                    if s0.indices@[v] >= 0 {
                        assert(s0.indices@[v] != m);
                    }
                }
            }
            assert forall|p: int| 0 < p < h.len() && parent(p) > 0 implies #[trigger] self.edge_ok(p) by {
                assert(s0.edge_ok(p));
            }
        }
        if self.heap.len() > 1 {
            self.percolate_down(0);
        } else {
            proof {
                assert forall|p: int| 0 < p < self.heap@.len() implies #[trigger] self.edge_ok(p) by {}
            }
        }
        proof {
            assert(self.members() =~= old(self).members().remove(x as int));
        }
        Some(x)
    }

    /// Restores the position of `var` after its activity increased.
    pub fn decrease(&mut self, var: i32)
        requires
            old(self).inv_except_up(var),
            var >= 0,
        ensures
            final(self).inv(),
            final(self).members() == old(self).members(),
            final(self).act() == old(self).act(),
            final(self).slots() == old(self).slots(),
    {
        if !((var as usize) < self.indices.len()) || self.indices[var as usize] < 0 {
            return;
        }
        let pos = self.indices[var as usize] as usize;
        self.percolate_up(pos);
    }

    /// Raises the activity of `var` to `act` and restores its position.
    pub fn raise_activity(&mut self, var: i32, act: u64)
        requires
            old(self).inv(),
            0 <= var < old(self).slots(),
            act >= old(self).act()[var as int],
        ensures
            final(self).inv(),
            final(self).members() == old(self).members(),
            final(self).act() == old(self).act().update(var as int, act),
            final(self).slots() == old(self).slots(),
    {
        let ghost before_self = *self;
        self.activity.set(var as usize, act);
        proof {
            before_self.lemma_raise(self, var);
        }
        self.decrease(var);
    }

    /// Rebuilds the heap order from scratch.
    pub fn build_heap(&mut self)
        requires
            old(self).inv_positions(),
        ensures
            final(self).inv(),
            final(self).members() == old(self).members(),
            final(self).act() == old(self).act(),
            final(self).slots() == old(self).slots(),
    {
        let n = self.heap.len();
        if n <= 1 {
            proof {
                assert forall|p: int| 0 < p < self.heap@.len() implies #[trigger] self.edge_ok(p) by {}
            }
            return;
        }
        let mut i = n / 2;
        while i > 0
            invariant
                0 <= i <= n / 2,
                n == self.heap@.len(),
                n >= 2,
                self.inv_positions(),
                self.members() == old(self).members(),
                self.act() == old(self).act(),
                self.slots() == old(self).slots(),
                forall|p: int| 0 < p < n && parent(p) >= i ==> #[trigger] self.edge_ok(p),
            decreases i,
        {
            i = i - 1;
            self.percolate_down(i);
        }
    }

    // -----------------------------------------------------------------
    // Internal structure
    // -----------------------------------------------------------------

    /// Positions and indices agree (the heap order may not hold).
    pub closed spec fn inv_positions(&self) -> bool {
        let h = self.heap@;
        let ix = self.indices@;
        &&& self.act().len() == ix.len()
        &&& ix.len() < i32::MAX
        &&& h.len() <= ix.len()
        &&& forall|p: int| 0 <= p < h.len() ==> 0 <= #[trigger] h[p] < ix.len() && ix[h[p] as int] == p
        &&& forall|v: int| 0 <= v < ix.len() ==> #[trigger] ix[v] < h.len()
        &&& forall|v: int| 0 <= v < ix.len() && #[trigger] ix[v] >= 0 ==> h[ix[v] as int] == v
    }

    /// The heap order holds except on the edge above position `i`, and the
    /// children of `i` do not come before the parent of `i`.
    pub closed spec fn inv_up(&self, i: int) -> bool {
        &&& self.inv_positions()
        &&& 0 <= i < self.heap@.len()
        &&& forall|p: int| 0 < p < self.heap@.len() && p != i ==> #[trigger] self.edge_ok(p)
        &&& forall|q: int| 0 < q < self.heap@.len() && parent(q) == i && i > 0 ==> !before(self.act(), #[trigger] self.heap@[q] as int, self.heap@[parent(i)] as int)
    }

    /// The heap order holds on every edge whose parent is in the subtree
    /// part `>= lo`, except on the edges below position `c`; the children of
    /// `c` do not come before the parent of `c` (when `c > lo`).
    pub closed spec fn inv_down(&self, lo: int, c: int) -> bool {
        &&& self.inv_positions()
        &&& lo <= c < self.heap@.len()
        &&& forall|p: int| 0 < p < self.heap@.len() && parent(p) >= lo && parent(p) != c ==> #[trigger] self.edge_ok(p)
        &&& forall|q: int| 0 < q < self.heap@.len() && parent(q) == c && c > lo ==> !before(self.act(), #[trigger] self.heap@[q] as int, self.heap@[parent(c)] as int)
    }

    /// The heap order holds except above `var`'s position.
    pub open spec fn inv_except_up(&self, var: i32) -> bool {
        if self.members().contains(var as int) {
            self.inv_up(self.index_of(var as int))
        } else {
            self.inv()
        }
    }

    pub closed spec fn index_of(&self, v: int) -> int {
        self.indices@[v] as int
    }

    /// Raising the activity of a variable only breaks the edge above it.
    proof fn lemma_raise(&self, other: &Self, var: i32)
        requires
            self.inv(),
            0 <= var < self.slots(),
            other.heap == self.heap,
            other.indices == self.indices,
            other.act() == self.act().update(var as int, other.act()[var as int]),
            other.act()[var as int] >= self.act()[var as int],
        ensures
            other.inv_except_up(var),
    {
        let a0 = self.act();
        let a1 = other.act();
        let h = self.heap@;
        if other.members().contains(var as int) {
            let i = other.index_of(var as int);
            assert(h[i] == var);
            assert forall|p: int| 0 < p < h.len() && p != i implies #[trigger] other.edge_ok(p) by {
                assert(self.edge_ok(p));
                assert(h[p] != var);
            }
            assert forall|q: int| 0 < q < h.len() && parent(q) == i && i > 0 implies !before(a1, #[trigger] h[q] as int, h[parent(i)] as int) by {
                assert(self.edge_ok(q));
                assert(self.edge_ok(i));
                assert(h[q] != var);
                assert(h[parent(i)] != var);
            }
        } else {
            assert forall|p: int| 0 < p < h.len() implies #[trigger] other.edge_ok(p) by {
                assert(self.edge_ok(p));
                assert(h[p] != var);
                assert(h[parent(p)] != var);
            }
        }
    }

    proof fn lemma_top_is_best(&self)
        requires
            self.inv(),
            self.heap@.len() > 0,
        ensures
            forall|u: int| #[trigger] self.members().contains(u) ==> !before(self.act(), u, self.heap@[0] as int),
    {
        assert forall|u: int| #[trigger] self.members().contains(u) implies !before(self.act(), u, self.heap@[0] as int) by {
            let p = self.indices@[u] as int;
            self.lemma_ancestor(p);
        }
    }

    proof fn lemma_ancestor(&self, p: int)
        requires
            self.inv(),
            0 <= p < self.heap@.len(),
        ensures
            !before(self.act(), self.heap@[p] as int, self.heap@[0] as int),
        decreases p,
    {
        if p > 0 {
            self.lemma_ancestor(parent(p));
            let a = self.act();
            let x = self.heap@[p] as int;
            let y = self.heap@[parent(p)] as int;
            let z = self.heap@[0] as int;
            assert(self.edge_ok(p));
        }
    }

    fn percolate_up(&mut self, i: usize)
        requires
            old(self).inv_up(i as int),
        ensures
            final(self).inv(),
            final(self).members() == old(self).members(),
            final(self).act() == old(self).act(),
            final(self).slots() == old(self).slots(),
    {
        let x = self.heap[i];
        let mut i = i;
        while i > 0
            invariant
                self.heap@.len() == old(self).heap@.len(),
                self.act() == old(self).act(),
                self.indices@.len() == old(self).indices@.len(),
                self.members() == old(self).members(),
                0 <= i < self.heap@.len(),
                self.heap@[i as int] == x,
                self.inv_up(i as int),
            decreases i,
        {
            let p = (i - 1) / 2;
            let hp = self.heap[p];
            if !self.lt(x, hp) {
                proof {
                    assert(self.edge_ok(i as int));
                    assert forall|q: int| 0 < q < self.heap@.len() implies #[trigger] self.edge_ok(q) by {}
                }
                return;
            }
            let ghost s0 = *self;
            self.heap.set(i, hp);
            self.indices.set(hp as usize, i as i32);
            self.heap.set(p, x);
            self.indices.set(x as usize, p as i32);
            proof {
                let h0 = s0.heap@;
                let h = self.heap@;
                let a = self.act();
                assert(hp != x);
                assert forall|v: int| 0 <= v < self.indices@.len() && #[trigger] self.indices@[v] >= 0 implies h[self.indices@[v] as int] == v by {
                    if v != x && v != hp {
                        assert(s0.indices@[v] == self.indices@[v]);
                    }
                }
                assert forall|q: int| 0 <= q < h.len() implies 0 <= #[trigger] h[q] < self.indices@.len() && self.indices@[h[q] as int] == q by {
                    if q != i && q != p {
                        assert(h[q] == h0[q]);
                    }
                }
                assert forall|q: int| 0 < q < h.len() && q != p implies #[trigger] self.edge_ok(q) by {
                    if q == i {
                    } else if parent(q) == i {
                        assert(s0.edge_ok(q) || true);
                    } else if parent(q) == p {
                        assert(s0.edge_ok(q));
                        assert(s0.edge_ok(i as int) || !s0.edge_ok(i as int));
                    } else {
                        assert(s0.edge_ok(q));
                        assert(h[q] == h0[q]);
                    }
                }
                assert forall|q: int| 0 < q < h.len() && parent(q) == p && p > 0 implies !before(a, #[trigger] h[q] as int, h[parent(p as int)] as int) by {
                    assert(s0.edge_ok(p as int));
                    if q != i {
                        assert(s0.edge_ok(q));
                    }
                }
            }
            i = p;
        }
        proof {
            assert forall|q: int| 0 < q < self.heap@.len() implies #[trigger] self.edge_ok(q) by {}
        }
    }

    /// Sifts the element at `i` down; afterwards every edge whose parent is
    /// at position `i` or beyond is in order.
    fn percolate_down(&mut self, lo: usize)
        requires
            old(self).inv_positions(),
            lo < old(self).heap@.len(),
            forall|p: int| 0 < p < old(self).heap@.len() && parent(p) > lo ==> #[trigger] old(self).edge_ok(p),
        ensures
            final(self).inv_positions(),
            final(self).members() == old(self).members(),
            final(self).act() == old(self).act(),
            final(self).slots() == old(self).slots(),
            final(self).heap@.len() == old(self).heap@.len(),
            forall|p: int| 0 < p < final(self).heap@.len() && parent(p) >= lo ==> #[trigger] final(self).edge_ok(p),
    {
        let x = self.heap[lo];
        let n = self.heap.len();
        let mut i = lo;
        proof {
            assert(self.inv_down(lo as int, i as int));
        }
        loop
            invariant
                lo <= i < n,
                n == self.heap@.len(),
                n == old(self).heap@.len(),
                self.act() == old(self).act(),
                self.indices@.len() == old(self).indices@.len(),
                self.members() == old(self).members(),
                self.heap@[i as int] == x,
                self.inv_down(lo as int, i as int),
            decreases n - i,
        {
            let left = i * 2 + 1;
            if left >= n {
                proof {
                    assert forall|p: int| 0 < p < n && parent(p) >= lo implies #[trigger] self.edge_ok(p) by {
                        assert(parent(p) != i);
                    }
                }
                return;
            }
            let right = left + 1;
            let child = if right < n && self.lt(self.heap[right], self.heap[left]) {
                right
            } else {
                left
            };
            let hc = self.heap[child];
            if !self.lt(hc, x) {
                proof {
                    assert forall|p: int| 0 < p < n && parent(p) >= lo implies #[trigger] self.edge_ok(p) by {
                        if parent(p) == i {
                            assert(p == left || p == right);
                        }
                    }
                }
                return;
            }
            let ghost s0 = *self;
            self.heap.set(i, hc);
            self.indices.set(hc as usize, i as i32);
            self.heap.set(child, x);
            self.indices.set(x as usize, child as i32);
            proof {
                let h0 = s0.heap@;
                let h = self.heap@;
                let a = self.act();
                assert(hc != x);
                assert forall|v: int| 0 <= v < self.indices@.len() && #[trigger] self.indices@[v] >= 0 implies h[self.indices@[v] as int] == v by {
                    if v != x && v != hc {
                        assert(s0.indices@[v] == self.indices@[v]);
                    }
                }
                assert forall|q: int| 0 <= q < h.len() implies 0 <= #[trigger] h[q] < self.indices@.len() && self.indices@[h[q] as int] == q by {
                    if q != i && q != child {
                        assert(h[q] == h0[q]);
                    }
                }
                assert forall|q: int| 0 < q < n && parent(q) >= lo && parent(q) != child implies #[trigger] self.edge_ok(q) by {
                    if q == child {
                    } else if parent(q) == i {
                        assert(q == left || q == right);
                    } else if q == i {
                        assert(i > lo);
                    } else if parent(q) == child {
                    } else {
                        assert(s0.edge_ok(q));
                        assert(h[q] == h0[q]);
                        assert(h[parent(q)] == h0[parent(q)]);
                    }
                }
                assert forall|q: int| 0 < q < n && parent(q) == child && child > lo implies !before(a, #[trigger] h[q] as int, h[parent(child as int)] as int) by {
                    assert(s0.edge_ok(q));
                }
            }
            i = child;
        }
    }
}

} // verus!
