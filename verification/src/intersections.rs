//! The active set of the edge-intersection sweep: vertical edges that the
//! sweep line currently crosses, kept in blocks of four lanes per bucket,
//! and the slot table that records where each edge lives.
use vstd::prelude::*;

verus! {

/// Position of an active entry: a block of its bucket and a lane of it.
#[derive(Clone, Copy, Debug, PartialEq, Eq, Structural)]
pub struct ActiveSlot {
    pub block: usize,
    pub lane: u8,
}

/// The slot at `block`, `lane`.
pub open spec fn slot_at(block: usize, lane: u8) -> ActiveSlot {
    ActiveSlot { block, lane }
}

/// Whether `lane` is set in the occupancy mask.
pub open spec fn lane_set(mask: u8, lane: u8) -> bool {
    mask & (1u8 << lane) != 0u8
}

/// `m` with the entries of block `from` moved, lane for lane, to block `to`
/// (where `m` has none).
pub open spec fn relocate<V>(m: Map<ActiveSlot, V>, from: usize, to: usize) -> Map<ActiveSlot, V> {
    Map::new(
        |s: ActiveSlot|
            if s.block == to {
                m.dom().contains(slot_at(from, s.lane))
            } else {
                s.block != from && m.dom().contains(s)
            },
        |s: ActiveSlot|
            if s.block == to {
                m[slot_at(from, s.lane)]
            } else {
                m[s]
            },
    )
}

pub open spec fn renamed_block(b: usize, from: usize, to: usize) -> usize {
    if b == from {
        to
    } else {
        b
    }
}

pub open spec fn renamed_slot(s: ActiveSlot, from: usize, to: usize) -> ActiveSlot {
    if s.block == from {
        slot_at(to, s.lane)
    } else {
        s
    }
}

/// Number of occupied lanes among the four of a mask.
pub open spec fn lane_count(mask: u8) -> nat {
    (if lane_set(mask, 0) { 1nat } else { 0nat }) + (if lane_set(mask, 1) { 1nat } else { 0nat }) + (if lane_set(mask, 2) {
        1nat
    } else {
        0nat
    }) + (if lane_set(mask, 3) { 1nat } else { 0nat })
}

/// Number of occupied lanes in the first `k` blocks.
pub open spec fn lanes_in_use<P>(blocks: Seq<AoSoABlock<P>>, k: int) -> nat
    decreases k,
{
    if k <= 0 {
        0
    } else {
        lanes_in_use(blocks, k - 1) + lane_count(blocks[k - 1].spec_mask())
    }
}

proof fn lemma_set_lane(m: u8, l: u8, j: u8)
    requires
        m < 16,
        l < 4,
        j < 4,
    ensures
        (m | (1u8 << l)) < 16,
        (m | (1u8 << l)) != 0,
        lane_set(m | (1u8 << l), j) == (j == l || lane_set(m, j)),
{
    assert((m | (1u8 << l)) != 0u8) by (bit_vector)
        requires
            l < 4,
    ;
    assert((m | (1u8 << l)) < 16) by (bit_vector)
        requires
            m < 16,
            l < 4,
    ;
    assert(((m | (1u8 << l)) & (1u8 << j) != 0u8) == (j == l || m & (1u8 << j) != 0u8)) by (bit_vector)
        requires
            l < 4,
            j < 4,
    ;
}

proof fn lemma_clear_lane(m: u8, l: u8, j: u8)
    requires
        m < 16,
        l < 8,
        j < 4,
    ensures
        (m & !(1u8 << l)) < 16,
        lane_set(m & !(1u8 << l), j) == (j != l && lane_set(m, j)),
{
    assert((m & !(1u8 << l)) < 16) by (bit_vector)
        requires
            m < 16,
    ;
    assert(((m & !(1u8 << l)) & (1u8 << j) != 0u8) == (j != l && m & (1u8 << j) != 0u8)) by (bit_vector)
        requires
            l < 8,
            j < 4,
    ;
}

proof fn lemma_high_lane_clear(m: u8, l: u8)
    requires
        m < 16,
        4 <= l < 8,
    ensures
        !lane_set(m, l),
{
    assert(m & (1u8 << l) == 0u8) by (bit_vector)
        requires
            m < 16,
            4 <= l < 8,
    ;
}

proof fn lemma_empty_mask(m: u8)
    requires
        m < 16,
    ensures
        (m == 0) == (!lane_set(m, 0) && !lane_set(m, 1) && !lane_set(m, 2) && !lane_set(m, 3)),
{
    assert((m == 0u8) == (m & (1u8 << 0u8) == 0u8 && m & (1u8 << 1u8) == 0u8 && m & (1u8 << 2u8) == 0u8
        && m & (1u8 << 3u8) == 0u8)) by (bit_vector)
        requires
            m < 16,
    ;
}

proof fn lemma_first_lane_only(j: u8)
    requires
        j < 4,
    ensures
        lane_set(1u8, j) == (j == 0),
{
    assert((1u8 & (1u8 << j) != 0u8) == (j == 0u8)) by (bit_vector)
        requires
            j < 4,
    ;
}

/// The slots of `s` outside block `block`, in order.
pub open spec fn slots_outside(s: Seq<ActiveSlot>, block: usize) -> Seq<ActiveSlot>
    decreases s.len(),
{
    if s.len() == 0 {
        Seq::empty()
    } else {
        slots_outside(s.drop_last(), block) + if s.last().block != block {
            seq![s.last()]
        } else {
            Seq::empty()
        }
    }
}

/// The slots of `free` outside block `block`, in order.
fn without_block(free: &Vec<ActiveSlot>, block: usize) -> (r: Vec<ActiveSlot>)
    ensures
        r@ == slots_outside(free@, block),
        forall|j: int| 0 <= j < r@.len() ==> #[trigger] free@.contains(r@[j]) && r@[j].block != block,
        (forall|i: int, j: int| 0 <= i < j < free@.len() ==> free@[i] != free@[j]) ==> forall|i: int, j: int|
            0 <= i < j < r@.len() ==> r@[i] != r@[j],
{
    let mut kept: Vec<ActiveSlot> = Vec::new();
    let ghost mut src: Seq<int> = Seq::empty();
    let mut i: usize = 0;
    while i < free.len()
        invariant
            i <= free@.len(),
            src.len() == kept@.len(),
            forall|j: int|
                0 <= j < kept@.len() ==> 0 <= #[trigger] src[j] < i && kept@[j] == free@[src[j]] && free@[src[j]].block
                    != block,
            forall|a: int, c: int| 0 <= a < c < src.len() ==> src[a] < src[c],
            kept@ == slots_outside(free@.take(i as int), block),
        decreases free@.len() - i,
    {
        let s = free[i];
        assert(free@.take(i + 1).drop_last() =~= free@.take(i as int));
        assert(free@.take(i + 1).last() == s);
        if s.block != block {
            kept.push(s);
            proof {
                src = src.push(i as int);
            }
        }
        i += 1;
    }
    proof {
        assert(free@.take(free@.len() as int) =~= free@);
        assert forall|j: int| 0 <= j < kept@.len() implies #[trigger] free@.contains(kept@[j]) && kept@[j].block != block by {
            assert(free@[src[j]] == kept@[j]);
        }
        if forall|a: int, c: int| 0 <= a < c < free@.len() ==> free@[a] != free@[c] {
            assert forall|a: int, c: int| 0 <= a < c < kept@.len() implies kept@[a] != kept@[c] by {
                assert(src[a] < src[c]);
                assert(kept@[a] == free@[src[a]]);
                assert(kept@[c] == free@[src[c]]);
            }
        }
    }
    kept
}

/// The position of `block` in `active`.
fn find_block(active: &Vec<usize>, block: usize) -> (pos: usize)
    requires
        active@.contains(block),
    ensures
        pos < active@.len(),
        active@[pos as int] == block,
{
    let mut pos: usize = 0;
    while pos < active.len() && active[pos] != block
        invariant
            pos <= active@.len(),
            active@.contains(block),
            forall|k: int| 0 <= k < pos ==> active@[k] != block,
        decreases active@.len() - pos,
    {
        pos += 1;
    }
    pos
}

/// Renames block `from` to `to` in a list of blocks.
fn rename_blocks(v: &mut Vec<usize>, from: usize, to: usize)
    ensures
        final(v)@.len() == old(v)@.len(),
        forall|k: int| 0 <= k < old(v)@.len() ==> #[trigger] final(v)@[k] == renamed_block(old(v)@[k], from, to),
{
    let mut i: usize = 0;
    while i < v.len()
        invariant
            i <= v@.len(),
            v@.len() == old(v)@.len(),
            forall|k: int| 0 <= k < i ==> #[trigger] v@[k] == renamed_block(old(v)@[k], from, to),
            forall|k: int| i <= k < v@.len() ==> #[trigger] v@[k] == old(v)@[k],
        decreases v@.len() - i,
    {
        if v[i] == from {
            v.set(i, to);
        }
        i += 1;
    }
}

/// Renames block `from` to `to` in a list of slots.
fn rename_slots(v: &mut Vec<ActiveSlot>, from: usize, to: usize)
    ensures
        final(v)@.len() == old(v)@.len(),
        forall|k: int| 0 <= k < old(v)@.len() ==> #[trigger] final(v)@[k] == renamed_slot(old(v)@[k], from, to),
{
    let mut i: usize = 0;
    while i < v.len()
        invariant
            i <= v@.len(),
            v@.len() == old(v)@.len(),
            forall|k: int| 0 <= k < i ==> #[trigger] v@[k] == renamed_slot(old(v)@[k], from, to),
            forall|k: int| i <= k < v@.len() ==> #[trigger] v@[k] == old(v)@[k],
        decreases v@.len() - i,
    {
        let s = v[i];
        if s.block == from {
            v.set(i, ActiveSlot { block: to, lane: s.lane });
        }
        i += 1;
    }
}

/// Four lanes of active entries: an edge index and a payload per lane, and
/// a mask of the occupied lanes.
#[derive(Clone, Debug)]
pub struct AoSoABlock<P> {
    payloads: Vec<P>,
    ids: Vec<usize>,
    mask: u8,
}

impl<P> AoSoABlock<P> {
    /// Four lanes, and a mask over them.
    pub closed spec fn wf(&self) -> bool {
        &&& self.payloads@.len() == 4
        &&& self.ids@.len() == 4
        &&& self.mask < 16
    }

    pub closed spec fn spec_mask(&self) -> u8 {
        self.mask
    }

    /// Whether `lane` holds an entry.
    pub open spec fn occupied(&self, lane: u8) -> bool {
        lane < 4 && lane_set(self.spec_mask(), lane)
    }

    /// The edge index and payload stored in `lane`.
    pub closed spec fn entry(&self, lane: u8) -> (usize, P) {
        (self.ids@[lane as int], self.payloads@[lane as int])
    }

    /// The occupancy mask: bit `l` is set when lane `l` holds an entry.
    pub fn mask(&self) -> (r: u8)
        ensures
            r == self.spec_mask(),
    {
        self.mask
    }

    /// The edge index stored in `lane`.
    pub fn id(&self, lane: usize) -> (r: usize)
        requires
            self.wf(),
            lane < 4,
        ensures
            r == self.entry(lane as u8).0,
    {
        self.ids[lane]
    }

    /// Stores an entry in `lane` and marks the lane occupied.
    fn occupy(&mut self, lane: u8, id: usize, payload: P)
        requires
            old(self).wf(),
            lane < 4,
        ensures
            final(self).wf(),
            final(self).entry(lane) == (id, payload),
            final(self).spec_mask() == old(self).spec_mask() | (1u8 << lane),
            forall|j: u8| j < 4 && j != lane ==> #[trigger] final(self).entry(j) == old(self).entry(j),
    {
        self.ids.set(lane as usize, id);
        self.payloads.set(lane as usize, payload);
        proof {
            lemma_set_lane(self.mask, lane, 0);
        }
        self.mask = self.mask | (1u8 << lane);
    }

    /// Clears the occupancy bit of `lane`.
    fn vacate(&mut self, lane: u8)
        requires
            old(self).wf(),
            lane < 8,
        ensures
            final(self).wf(),
            final(self).spec_mask() == old(self).spec_mask() & !(1u8 << lane),
            forall|j: u8| #[trigger] final(self).entry(j) == old(self).entry(j),
    {
        proof {
            lemma_clear_lane(self.mask, lane, 0);
        }
        self.mask = self.mask & !(1u8 << lane);
    }

    /// The payload stored in `lane`.
    pub fn payload(&self, lane: usize) -> (r: &P)
        requires
            self.wf(),
            lane < 4,
        ensures
            *r == self.entry(lane as u8).1,
    {
        &self.payloads[lane]
    }
}

/// The entries of one bucket of the sweep, in blocks of four lanes, with a
/// list of vacant lanes to reuse and the list of blocks in use.
#[derive(Clone, Debug)]
pub struct ActiveBucket<P> {
    blocks: Vec<AoSoABlock<P>>,
    free: Vec<ActiveSlot>,
    active_blocks: Vec<usize>,
}

impl<P: Copy> ActiveBucket<P> {
    /// Number of blocks.
    pub closed spec fn block_count(&self) -> nat {
        self.blocks@.len()
    }

    /// The block at `index`.
    pub closed spec fn spec_block(&self, index: int) -> AoSoABlock<P> {
        self.blocks@[index]
    }

    /// The vacant lanes kept for reuse, the most recently vacated last.
    pub closed spec fn spec_free(&self) -> Seq<ActiveSlot> {
        self.free@
    }

    /// The blocks in use, in the order a query visits them.
    pub closed spec fn spec_active_blocks(&self) -> Seq<usize> {
        self.active_blocks@
    }

    /// Whether `s` holds an entry.
    pub closed spec fn occupied(&self, s: ActiveSlot) -> bool {
        s.block < self.blocks@.len() && self.blocks@[s.block as int].occupied(s.lane)
    }

    /// The entries: each occupied slot with its edge index and payload.
    pub closed spec fn entries(&self) -> Map<ActiveSlot, (usize, P)> {
        Map::new(|s: ActiveSlot| self.occupied(s), |s: ActiveSlot| self.blocks@[s.block as int].entry(s.lane))
    }

    /// Every block has four lanes and at least one entry; the vacant-lane
    /// list holds vacant lanes of existing blocks, each once; the list of
    /// blocks in use names every block exactly once.
    pub closed spec fn wf(&self) -> bool {
        &&& forall|b: int|
            0 <= b < self.blocks@.len() ==> #[trigger] self.blocks@[b].wf() && self.blocks@[b].spec_mask() != 0
        &&& forall|i: int|
            0 <= i < self.free@.len() ==> {
                let s = #[trigger] self.free@[i];
                s.block < self.blocks@.len() && s.lane < 4 && !self.occupied(s)
            }
        &&& forall|i: int, j: int| 0 <= i < j < self.free@.len() ==> self.free@[i] != self.free@[j]
        &&& self.active_blocks@.len() == self.blocks@.len()
        &&& forall|i: int| 0 <= i < self.active_blocks@.len() ==> #[trigger] self.active_blocks@[i] < self.blocks@.len()
        &&& forall|i: int, j: int|
            0 <= i < j < self.active_blocks@.len() ==> self.active_blocks@[i] != self.active_blocks@[j]
        &&& forall|b: usize| b < self.blocks@.len() ==> #[trigger] self.active_blocks@.contains(b)
    }

    /// An empty bucket.
    pub fn new() -> (r: Self)
        ensures
            r.wf(),
            r.entries() == Map::<ActiveSlot, (usize, P)>::empty(),
            r.block_count() == 0,
    {
        let r = ActiveBucket { blocks: Vec::new(), free: Vec::new(), active_blocks: Vec::new() };
        assert(r.entries() =~= Map::<ActiveSlot, (usize, P)>::empty());
        r
    }

    /// Adds an entry in a vacant lane, reusing the most recently vacated lane
    /// and opening a new block when none is vacant; returns its slot.
    pub fn insert(&mut self, id: usize, payload: P) -> (slot: ActiveSlot)
        requires
            old(self).wf(),
        ensures
            final(self).wf(),
            slot.lane < 4,
            !old(self).entries().dom().contains(slot),
            final(self).entries() == old(self).entries().insert(slot, (id, payload)),
            slot.block + 1 == final(self).block_count() || !final(self).sole_entry(slot),
            old(self).spec_free().len() > 0 ==> {
                &&& slot == old(self).spec_free().last()
                &&& final(self).block_count() == old(self).block_count()
            },
            old(self).spec_free().len() == 0 ==> {
                &&& slot == slot_at(old(self).block_count() as usize, 0)
                &&& final(self).block_count() == old(self).block_count() + 1
            },
    {
        if let Some(slot) = self.free.pop() {
            let ghost old_blocks = self.blocks@;
            let ghost old_free = self.free@.push(slot);
            assert(old_free[old_free.len() - 1] == slot);
            let b = slot.block;
            assert(old_blocks[b as int].wf());
            let ghost m_before = old_blocks[b as int].spec_mask();
            assert(!old(self).occupied(slot));
            let was_empty = self.blocks[b].mask == 0;
            self.blocks[b].occupy(slot.lane, id, payload);
            proof {
                lemma_set_lane(old_blocks[b as int].spec_mask(), slot.lane, 0);
                assert(forall|c: int| 0 <= c < self.blocks@.len() && c != b ==> self.blocks@[c] == old_blocks[c]);
                assert forall|s: ActiveSlot| #![auto] s.block < self.blocks@.len() implies
                    self.occupied(s) == (s == slot || (s.block < old_blocks.len() && old_blocks[s.block as int].occupied(s.lane)))
                by {
                    if s.lane < 4 {
                        lemma_set_lane(old_blocks[b as int].spec_mask(), slot.lane, s.lane);
                    }
                }
            }
            if was_empty {
                self.active_blocks.push(b);
            }
            proof {
                assert forall|i: int| 0 <= i < self.free@.len() implies !self.occupied(#[trigger] self.free@[i]) by {
                    assert(old_free[i] == self.free@[i]);
                    assert(old_free[i] != slot);
                }
                assert forall|c: int| 0 <= c < self.blocks@.len() implies #[trigger] self.blocks@[c].wf()
                    && self.blocks@[c].spec_mask() != 0 by {
                    if c != b {
                        assert(old_blocks[c].wf());
                    }
                }
            }
            assert(self.entries() =~= old(self).entries().insert(slot, (id, payload)));
            proof {
                let l: u8 = if lane_set(m_before, 0) {
                    0
                } else if lane_set(m_before, 1) {
                    1
                } else if lane_set(m_before, 2) {
                    2
                } else {
                    3
                };
                lemma_empty_mask(m_before);
                assert(old(self).occupied(slot_at(b, l)));
                assert(self.occupied(slot_at(b, l)));
                assert(!self.sole_entry(slot));
            }
            return slot;
        }
        let block_idx = self.blocks.len();
        let mut ids: Vec<usize> = Vec::new();
        ids.push(id);
        ids.push(0);
        ids.push(0);
        ids.push(0);
        let mut payloads: Vec<P> = Vec::new();
        payloads.push(payload);
        payloads.push(payload);
        payloads.push(payload);
        payloads.push(payload);
        let block = AoSoABlock { payloads, ids, mask: 1 };
        let ghost old_blocks = self.blocks@;
        self.blocks.push(block);
        self.active_blocks.push(block_idx);
        let slot = ActiveSlot { block: block_idx, lane: 0 };
        proof {
            assert forall|j: u8| j < 4 implies #[trigger] lane_set(1u8, j) == (j == 0) by {
                lemma_first_lane_only(j);
            }
        }
        self.free.push(ActiveSlot { block: block_idx, lane: 3 });
        self.free.push(ActiveSlot { block: block_idx, lane: 2 });
        self.free.push(ActiveSlot { block: block_idx, lane: 1 });
        proof {
            let n = old(self).free@.len();
            assert(forall|c: int| 0 <= c < old_blocks.len() ==> self.blocks@[c] == old_blocks[c]);
            assert(self.blocks@[block_idx as int] == block);
            assert forall|i: int| 0 <= i < self.free@.len() implies {
                let s = #[trigger] self.free@[i];
                s.block < self.blocks@.len() && s.lane < 4 && !self.occupied(s)
            } by {
                if i < n {
                    assert(self.free@[i] == old(self).free@[i]);
                } else {
                    assert(self.free@[i].block == block_idx);
                }
            }
            assert forall|i: int, j: int| 0 <= i < j < self.free@.len() implies self.free@[i] != self.free@[j] by {
                if j < n {
                    assert(self.free@[i] == old(self).free@[i]);
                    assert(self.free@[j] == old(self).free@[j]);
                } else if i < n {
                    assert(self.free@[i] == old(self).free@[i]);
                }
            }
            assert forall|c: int| 0 <= c < self.blocks@.len() implies #[trigger] self.blocks@[c].wf()
                && self.blocks@[c].spec_mask() != 0 by {
                if c < old_blocks.len() {
                    assert(old_blocks[c].wf());
                }
            }
            assert forall|c: usize| c < self.blocks@.len() implies #[trigger] self.active_blocks@.contains(c) by {
                if c < old_blocks.len() {
                    assert(old(self).active_blocks@.contains(c));
                    let k = choose|k: int| 0 <= k < old(self).active_blocks@.len() && old(self).active_blocks@[k] == c;
                    assert(self.active_blocks@[k] == c);
                } else {
                    assert(self.active_blocks@[old_blocks.len() as int] == c);
                }
            }
        }
        assert(self.entries() =~= old(self).entries().insert(slot, (id, payload)));
        slot
    }

    /// The invariant, but for block `r`, which is empty.
    closed spec fn wf_but_empty(&self, r: usize) -> bool {
        &&& r < self.blocks@.len()
        &&& forall|b: int| 0 <= b < self.blocks@.len() ==> #[trigger] self.blocks@[b].wf()
        &&& forall|b: int| 0 <= b < self.blocks@.len() ==> (#[trigger] self.blocks@[b].spec_mask() == 0) == (b == r)
        &&& forall|i: int|
            0 <= i < self.free@.len() ==> {
                let s = #[trigger] self.free@[i];
                s.block < self.blocks@.len() && s.lane < 4 && !self.occupied(s)
            }
        &&& forall|i: int, j: int| 0 <= i < j < self.free@.len() ==> self.free@[i] != self.free@[j]
        &&& self.active_blocks@.len() == self.blocks@.len()
        &&& forall|i: int| 0 <= i < self.active_blocks@.len() ==> #[trigger] self.active_blocks@[i] < self.blocks@.len()
        &&& forall|i: int, j: int|
            0 <= i < j < self.active_blocks@.len() ==> self.active_blocks@[i] != self.active_blocks@[j]
        &&& forall|b: usize| b < self.blocks@.len() ==> #[trigger] self.active_blocks@.contains(b)
    }

    /// Drops the empty block `r`, moving the last block into its place.
    fn drop_block(&mut self, r: usize)
        requires
            old(self).wf_but_empty(r),
        ensures
            final(self).wf(),
            final(self).block_count() + 1 == old(self).block_count(),
            r + 1 == old(self).block_count() ==> final(self).entries() == old(self).entries(),
            r + 1 < old(self).block_count() ==> final(self).entries() == relocate(
                old(self).entries(),
                (old(self).block_count() - 1) as usize,
                r,
            ),
    {
        let ghost n = self.blocks@.len();
        let ghost b0 = self.blocks@;
        let ghost a0 = self.active_blocks@;
        let kept = without_block(&self.free, r);
        let ghost kept_v = kept@;
        self.free = kept;
        let pos = find_block(&self.active_blocks, r);
        self.active_blocks.swap_remove(pos);
        let ghost a1 = self.active_blocks@;
        proof {
            assert forall|k: int| 0 <= k < a1.len() implies #[trigger] a1[k] != r && a1[k] < n by {
                if k == pos {
                    assert(a0[a0.len() - 1] == a1[k]);
                } else {
                    assert(a0[k] == a1[k]);
                }
            }
            assert forall|c: usize| c < n && c != r implies #[trigger] a1.contains(c) by {
                assert(a0.contains(c));
                let k = choose|k: int| 0 <= k < a0.len() && a0[k] == c;
                if k == a0.len() - 1 {
                    assert(a1[pos as int] == c);
                } else {
                    assert(k != pos);
                    assert(a1[k] == c);
                }
            }
            assert forall|i: int, j: int| 0 <= i < j < a1.len() implies a1[i] != a1[j] by {
                let ii = if i == pos { a0.len() - 1 } else { i };
                let jj = if j == pos { a0.len() - 1 } else { j };
                assert(a1[i] == a0[ii]);
                assert(a1[j] == a0[jj]);
            }
        }
        let last_idx = self.blocks.len() - 1;
        if r == last_idx {
            self.blocks.pop();
            proof {
                assert forall|c: int| 0 <= c < self.blocks@.len() implies #[trigger] self.blocks@[c].wf()
                    && self.blocks@[c].spec_mask() != 0 by {
                    assert(self.blocks@[c] == b0[c]);
                    assert(b0[c].wf());
                }
                assert forall|i: int| 0 <= i < self.free@.len() implies {
                    let s = #[trigger] self.free@[i];
                    s.block < self.blocks@.len() && s.lane < 4 && !self.occupied(s)
                } by {
                    let s = self.free@[i];
                    assert(old(self).free@.contains(kept_v[i]));
                    let k = choose|k: int| 0 <= k < old(self).free@.len() && old(self).free@[k] == s;
                    assert(!old(self).occupied(old(self).free@[k]));
                }
                assert forall|c: usize| c < self.blocks@.len() implies #[trigger] self.active_blocks@.contains(c) by {
                    assert(a1.contains(c));
                }
                assert forall|s: ActiveSlot| #![auto] old(self).occupied(s) implies s.block != r by {
                    lemma_empty_mask(b0[r as int].spec_mask());
                }
                assert(self.entries() =~= old(self).entries());
            }
            return;
        }
        self.blocks.swap_remove(r);
        rename_blocks(&mut self.active_blocks, last_idx, r);
        rename_slots(&mut self.free, last_idx, r);
        proof {
            let b1 = self.blocks@;
            assert(b1[r as int] == b0[last_idx as int]);
            assert forall|c: int| 0 <= c < b1.len() && c != r implies b1[c] == b0[c] by {}
            assert forall|c: int| 0 <= c < b1.len() implies #[trigger] b1[c].wf() && b1[c].spec_mask() != 0 by {
                if c == r {
                    assert(b0[last_idx as int].wf());
                } else {
                    assert(b0[c].wf());
                }
            }
            assert forall|s: ActiveSlot| #![auto] s.block < b1.len() implies self.occupied(s) == old(self).occupied(
                renamed_slot(s, r, last_idx),
            ) by {}
            assert forall|i: int| 0 <= i < self.free@.len() implies {
                let s = #[trigger] self.free@[i];
                s.block < self.blocks@.len() && s.lane < 4 && !self.occupied(s)
            } by {
                let s = kept_v[i];
                assert(old(self).free@.contains(kept_v[i]));
                let k = choose|k: int| 0 <= k < old(self).free@.len() && old(self).free@[k] == s;
                assert(!old(self).occupied(old(self).free@[k]));
                assert(self.free@[i] == renamed_slot(s, last_idx, r));
            }
            assert forall|i: int, j: int| 0 <= i < j < self.free@.len() implies self.free@[i] != self.free@[j] by {
                assert(self.free@[i] == renamed_slot(kept_v[i], last_idx, r));
                assert(self.free@[j] == renamed_slot(kept_v[j], last_idx, r));
                assert(kept_v.len() == self.free@.len());
                assert(old(self).free@.contains(kept_v[i]));
                assert(kept_v[i].block != r);
                assert(old(self).free@.contains(kept_v[j]));
                assert(kept_v[j].block != r);
                assert(kept_v[i] != kept_v[j]);
            }
            assert forall|k: int| 0 <= k < self.active_blocks@.len() implies #[trigger] self.active_blocks@[k]
                < self.blocks@.len() by {
                assert(self.active_blocks@[k] == renamed_block(a1[k], last_idx, r));
            }
            assert forall|i: int, j: int| 0 <= i < j < self.active_blocks@.len() implies self.active_blocks@[i]
                != self.active_blocks@[j] by {
                assert(self.active_blocks@[i] == renamed_block(a1[i], last_idx, r));
                assert(self.active_blocks@[j] == renamed_block(a1[j], last_idx, r));
            }
            assert forall|c: usize| c < self.blocks@.len() implies #[trigger] self.active_blocks@.contains(c) by {
                let src = if c == r { last_idx } else { c };
                assert(a1.contains(src));
                let k = choose|k: int| 0 <= k < a1.len() && a1[k] == src;
                assert(self.active_blocks@[k] == renamed_block(a1[k], last_idx, r));
            }
            assert forall|s: ActiveSlot| #![auto] old(self).occupied(s) implies s.block != r by {
                lemma_empty_mask(b0[r as int].spec_mask());
            }
            assert(self.entries() =~= relocate(old(self).entries(), last_idx, r));
        }
    }

    /// Whether `slot` holds the only entry of its block.
    pub closed spec fn sole_entry(&self, slot: ActiveSlot) -> bool {
        &&& self.occupied(slot)
        &&& forall|l: u8| l < 4 && l != slot.lane ==> !#[trigger] self.occupied(slot_at(slot.block, l))
    }

    /// Removes the entry at `slot`. A lane that leaves its block non-empty
    /// becomes vacant for reuse. A block left empty is dropped: when it was
    /// not the last block, the last block moves into its place, and its
    /// index is returned so that callers can follow the moved entries.
    pub fn remove(&mut self, slot: ActiveSlot) -> (r: Option<usize>)
        requires
            old(self).wf(),
            slot.lane < 8,
        ensures
            final(self).wf(),
            !old(self).entries().dom().contains(slot) ==> {
                &&& r is None
                &&& final(self).entries() == old(self).entries()
                &&& final(self).block_count() == old(self).block_count()
            },
            old(self).entries().dom().contains(slot) && !old(self).sole_entry(slot) ==> {
                &&& r is None
                &&& final(self).entries() == old(self).entries().remove(slot)
                &&& final(self).block_count() == old(self).block_count()
                &&& final(self).spec_free() == old(self).spec_free().push(slot)
            },
            old(self).sole_entry(slot) && slot.block + 1 == old(self).block_count() ==> {
                &&& r is None
                &&& final(self).entries() == old(self).entries().remove(slot)
                &&& final(self).block_count() + 1 == old(self).block_count()
            },
            old(self).sole_entry(slot) && slot.block + 1 < old(self).block_count() ==> {
                &&& r == Some(slot.block)
                &&& final(self).entries() == relocate(
                    old(self).entries().remove(slot),
                    (old(self).block_count() - 1) as usize,
                    slot.block,
                )
                &&& final(self).block_count() + 1 == old(self).block_count()
            },
    {
        if slot.block >= self.blocks.len() {
            return None;
        }
        let b = slot.block;
        let bit = 1u8 << slot.lane;
        proof {
            assert(self.blocks@[b as int].wf());
            if slot.lane >= 4 {
                lemma_high_lane_clear(self.blocks@[b as int].spec_mask(), slot.lane);
            }
        }
        if self.blocks[b].mask & bit == 0 {
            assert(!old(self).occupied(slot));
            assert(!old(self).entries().dom().contains(slot));
            return None;
        }
        let ghost old_blocks = self.blocks@;
        let ghost m0 = old_blocks[b as int].spec_mask();
        self.blocks[b].vacate(slot.lane);
        proof {
            assert(forall|c: int| 0 <= c < self.blocks@.len() && c != b ==> self.blocks@[c] == old_blocks[c]);
            assert forall|s: ActiveSlot| #![auto] s.block < self.blocks@.len() implies
                self.occupied(s) == (s != slot && old(self).occupied(s))
            by {
                if s.lane < 4 {
                    lemma_clear_lane(m0, slot.lane, s.lane);
                }
            }
            lemma_empty_mask(self.blocks@[b as int].spec_mask());
            lemma_clear_lane(m0, slot.lane, 0);
            lemma_clear_lane(m0, slot.lane, 1);
            lemma_clear_lane(m0, slot.lane, 2);
            lemma_clear_lane(m0, slot.lane, 3);
            assert(self.entries() =~= old(self).entries().remove(slot));
        }
        if self.blocks[b].mask != 0 {
            proof {
                let l: u8 = if lane_set(self.blocks@[b as int].spec_mask(), 0) {
                    0
                } else if lane_set(self.blocks@[b as int].spec_mask(), 1) {
                    1
                } else if lane_set(self.blocks@[b as int].spec_mask(), 2) {
                    2
                } else {
                    3
                };
                assert(old(self).occupied(slot_at(b, l)));
                assert(!old(self).sole_entry(slot));
                assert forall|i: int| 0 <= i < self.free@.len() implies self.free@[i] != slot by {
                    assert(!old(self).occupied(old(self).free@[i]));
                }
            }
            self.free.push(slot);
            proof {
                assert forall|c: int| 0 <= c < self.blocks@.len() implies #[trigger] self.blocks@[c].wf()
                    && self.blocks@[c].spec_mask() != 0 by {
                    if c != b {
                        assert(old_blocks[c].wf());
                    }
                }
                assert forall|i: int| 0 <= i < self.free@.len() implies !self.occupied(#[trigger] self.free@[i]) by {
                    if i < old(self).free@.len() {
                        assert(self.free@[i] == old(self).free@[i]);
                    }
                }
            }
            return None;
        }
        proof {
            assert forall|l: u8| l < 4 && l != slot.lane implies !#[trigger] old(self).occupied(slot_at(b, l)) by {
                lemma_clear_lane(m0, slot.lane, l);
            }
            assert(old(self).sole_entry(slot));
            assert forall|c: int| 0 <= c < self.blocks@.len() implies #[trigger] self.blocks@[c].wf() by {
                if c != b {
                    assert(old_blocks[c].wf());
                }
            }
            assert forall|c: int| 0 <= c < self.blocks@.len() implies (#[trigger] self.blocks@[c].spec_mask() == 0)
                == (c == b) by {
                if c != b {
                    assert(old_blocks[c].wf());
                }
            }
            assert forall|i: int| 0 <= i < self.free@.len() implies {
                let s = #[trigger] self.free@[i];
                s.block < self.blocks@.len() && s.lane < 4 && !self.occupied(s)
            } by {
                assert(!old(self).occupied(old(self).free@[i]));
            }
            assert(self.wf_but_empty(b));
        }
        let last_idx = self.blocks.len() - 1;
        self.drop_block(b);
        if b == last_idx {
            None
        } else {
            Some(b)
        }
    }

    /// Number of entries: the occupied lanes of all blocks.
    pub closed spec fn entry_count(&self) -> nat {
        lanes_in_use(self.blocks@, self.blocks@.len() as int)
    }

    /// Number of entries.
    pub fn active_len(&self) -> (r: usize)
        requires
            self.block_count() * 4 <= usize::MAX,
        ensures
            r == self.entry_count(),
    {
        let mut total: usize = 0;
        let mut b: usize = 0;
        while b < self.blocks.len()
            invariant
                b <= self.blocks@.len(),
                self.blocks@.len() * 4 <= usize::MAX,
                total == lanes_in_use(self.blocks@, b as int),
                total <= 4 * b,
            decreases self.blocks@.len() - b,
        {
            let mask = self.blocks[b].mask;
            let mut lane: u8 = 0;
            let mut in_block: usize = 0;
            while lane < 4
                invariant
                    lane <= 4,
                    mask == self.blocks@[b as int].spec_mask(),
                    in_block <= lane,
                    in_block == (if lane > 0 && lane_set(mask, 0) { 1nat } else { 0nat }) + (if lane > 1 && lane_set(
                        mask,
                        1,
                    ) {
                        1nat
                    } else {
                        0nat
                    }) + (if lane > 2 && lane_set(mask, 2) { 1nat } else { 0nat }) + (if lane > 3 && lane_set(mask, 3) {
                        1nat
                    } else {
                        0nat
                    }),
                decreases 4 - lane,
            {
                if mask & (1u8 << lane) != 0 {
                    in_block += 1;
                }
                lane += 1;
            }
            total += in_block;
            b += 1;
        }
        total
    }

    /// Number of blocks.
    pub fn blocks_len(&self) -> (r: usize)
        ensures
            r == self.block_count(),
    {
        self.blocks.len()
    }

    /// The block at `index`.
    pub fn block(&self, index: usize) -> (r: &AoSoABlock<P>)
        requires
            index < self.block_count(),
        ensures
            *r == self.spec_block(index as int),
            self.wf() ==> r.wf(),
    {
        &self.blocks[index]
    }

    /// The blocks in use, each named once.
    pub fn active_blocks(&self) -> (r: &Vec<usize>)
        ensures
            r@ == self.spec_active_blocks(),
            self.wf() ==> r@.len() == self.block_count() && forall|b: usize|
                b < self.block_count() ==> #[trigger] r@.contains(b),
    {
        &self.active_blocks
    }

    /// The vacant lanes kept for reuse.
    pub fn free_slots(&self) -> (r: &Vec<ActiveSlot>)
        ensures
            r@ == self.spec_free(),
            self.wf() ==> forall|i: int|
                0 <= i < r@.len() ==> (#[trigger] r@[i]).block < self.block_count() && !self.entries().dom().contains(
                    r@[i],
                ),
    {
        &self.free
    }
}

impl<P: Copy> Default for ActiveBucket<P> {
    fn default() -> (r: Self)
        ensures
            r.wf(),
            r.entries() == Map::<ActiveSlot, (usize, P)>::empty(),
            r.block_count() == 0,
    {
        Self::new()
    }
}

/// Removing the slot that `insert` returned gives back the entries from
/// before the insert, and moves no block: the new entry is never the sole
/// entry of a block other than the last.
pub proof fn lemma_remove_undoes_insert<P: Copy>(
    before: ActiveBucket<P>,
    after: ActiveBucket<P>,
    slot: ActiveSlot,
    id: usize,
    payload: P,
)
    requires
        before.wf(),
        after.wf(),
        slot.lane < 4,
        !before.entries().dom().contains(slot),
        after.entries() == before.entries().insert(slot, (id, payload)),
        slot.block + 1 == after.block_count() || !after.sole_entry(slot),
    ensures
        after.entries().dom().contains(slot),
        after.entries().remove(slot) == before.entries(),
        !(after.sole_entry(slot) && slot.block + 1 < after.block_count()),
{
    assert(after.entries().remove(slot) =~= before.entries());
}

/// Where each vertical edge of the sweep lives: its bucket and its slot.
pub type SlotTable = Vec<Option<(usize, ActiveSlot)>>;

/// The buckets are well formed, and the slot table and the buckets agree:
/// an edge with a slot is stored there under its own index, and every
/// stored entry is recorded in the slot table at its index.
pub open spec fn slots_consistent<P: Copy>(
    active: Seq<ActiveBucket<P>>,
    slots: Seq<Option<(usize, ActiveSlot)>>,
) -> bool {
    &&& forall|b: int| 0 <= b < active.len() ==> #[trigger] active[b].wf()
    &&& forall|v: int|
        0 <= v < slots.len() && #[trigger] slots[v] is Some ==> {
            let (b, s) = slots[v]->0;
            &&& b < active.len()
            &&& active[b as int].entries().dom().contains(s)
            &&& active[b as int].entries()[s].0 == v
        }
    &&& forall|b: int, s: ActiveSlot|
        0 <= b < active.len() && #[trigger] active[b].entries().dom().contains(s) ==> {
            let v = active[b].entries()[s].0;
            &&& v < slots.len()
            &&& slots[v as int] == Some((b as usize, s))
        }
}

/// The active edges: each edge index with a slot, mapped to its bucket and
/// its payload.
pub open spec fn active_edges<P: Copy>(
    active: Seq<ActiveBucket<P>>,
    slots: Seq<Option<(usize, ActiveSlot)>>,
) -> Map<usize, (usize, P)> {
    Map::new(
        |v: usize| v < slots.len() && slots[v as int] is Some,
        |v: usize|
            {
                let (b, s) = slots[v as int]->0;
                (b, active[b as int].entries()[s].1)
            },
    )
}

/// A slot-table entry after the moved lanes below `lanes` of block `from`
/// of bucket `bucket` have been pointed at block `to`.
spec fn moved_slot(
    x: Option<(usize, ActiveSlot)>,
    bucket: usize,
    from: usize,
    to: usize,
    lanes: int,
) -> Option<(usize, ActiveSlot)> {
    match x {
        Some((b, s)) => if b == bucket && s.block == from && s.lane < lanes {
            Some((b, slot_at(to, s.lane)))
        } else {
            x
        },
        None => None,
    }
}

proof fn lemma_removed_entry<P: Copy>(
    a0: Seq<ActiveBucket<P>>,
    s0: Seq<Option<(usize, ActiveSlot)>>,
    a1: Seq<ActiveBucket<P>>,
    s1: Seq<Option<(usize, ActiveSlot)>>,
    bucket: usize,
    slot: ActiveSlot,
    v_idx: usize,
)
    requires
        slots_consistent(a0, s0),
        v_idx < s0.len(),
        a0.len() <= usize::MAX,
        s0[v_idx as int] == Some((bucket, slot)),
        s1 == s0.update(v_idx as int, None),
        a1.len() == a0.len(),
        bucket < a0.len(),
        forall|b: int| 0 <= b < a0.len() && b != bucket ==> a1[b] == a0[b],
        a1[bucket as int].wf(),
        a1[bucket as int].entries() == a0[bucket as int].entries().remove(slot),
    ensures
        slots_consistent(a1, s1),
        active_edges(a1, s1) == active_edges(a0, s0).remove(v_idx),
{
    assert forall|b: int| 0 <= b < a1.len() implies #[trigger] a1[b].wf() by {
        if b != bucket {
            assert(a0[b].wf());
        }
    }
    assert forall|v: int| 0 <= v < s1.len() && #[trigger] s1[v] is Some implies {
        let (b, s) = s1[v]->0;
        &&& b < a1.len()
        &&& a1[b as int].entries().dom().contains(s)
        &&& a1[b as int].entries()[s].0 == v
    } by {
        assert(s1[v] == s0[v]);
        assert(s0[v] is Some);
    }
    assert forall|b: int, s: ActiveSlot| 0 <= b < a1.len() && #[trigger] a1[b].entries().dom().contains(s) implies {
        let v = a1[b].entries()[s].0;
        &&& v < s1.len()
        &&& s1[v as int] == Some((b as usize, s))
    } by {
        if b == bucket {
            assert(s != slot);
            assert(a1[b].entries()[s] == a0[b].entries()[s]);
        }
        assert(a0[b].entries().dom().contains(s));
        let v = a0[b].entries()[s].0;
        assert(s0[v as int] == Some((b as usize, s)));
        assert(v != v_idx);
    }
    let m1 = active_edges(a1, s1);
    let m0 = active_edges(a0, s0).remove(v_idx);
    assert forall|v: usize| #[trigger] m1.dom().contains(v) implies m0.dom().contains(v) && m1[v] == m0[v] by {
        assert(s1[v as int] == s0[v as int]);
    }
    assert(m1 =~= m0);
}

proof fn lemma_moved_entries<P: Copy>(
    a0: Seq<ActiveBucket<P>>,
    s0: Seq<Option<(usize, ActiveSlot)>>,
    a1: Seq<ActiveBucket<P>>,
    s2: Seq<Option<(usize, ActiveSlot)>>,
    bucket: usize,
    slot: ActiveSlot,
    v_idx: usize,
    last: usize,
)
    requires
        slots_consistent(a0, s0),
        v_idx < s0.len(),
        a0.len() <= usize::MAX,
        s0[v_idx as int] == Some((bucket, slot)),
        s2.len() == s0.len(),
        forall|v: int|
            0 <= v < s0.len() ==> #[trigger] s2[v] == moved_slot(
                s0.update(v_idx as int, None)[v],
                bucket,
                last,
                slot.block,
                4,
            ),
        a1.len() == a0.len(),
        bucket < a0.len(),
        forall|b: int| 0 <= b < a0.len() && b != bucket ==> a1[b] == a0[b],
        a1[bucket as int].wf(),
        a0[bucket as int].sole_entry(slot),
        slot.block != last,
        a1[bucket as int].entries() == relocate(a0[bucket as int].entries().remove(slot), last, slot.block),
    ensures
        slots_consistent(a1, s2),
        active_edges(a1, s2) == active_edges(a0, s0).remove(v_idx),
{
    let e0 = a0[bucket as int].entries();
    let e1 = a1[bucket as int].entries();
    let to = slot.block;
    assert(a0[bucket as int].wf());
    assert forall|s: ActiveSlot| #[trigger] e0.dom().contains(s) && s.block == to implies s == slot by {
        if s != slot {
            assert(s.lane != slot.lane);
            assert(!a0[bucket as int].occupied(slot_at(to, s.lane)));
        }
    }
    assert forall|b: int| 0 <= b < a1.len() implies #[trigger] a1[b].wf() by {
        if b != bucket {
            assert(a0[b].wf());
        }
    }
    assert forall|v: int| 0 <= v < s2.len() && #[trigger] s2[v] is Some implies {
        let (b, s) = s2[v]->0;
        &&& b < a1.len()
        &&& a1[b as int].entries().dom().contains(s)
        &&& a1[b as int].entries()[s].0 == v
    } by {
        assert(v != v_idx);
        assert(s0[v] is Some);
        let (b, s) = s0[v]->0;
        if b == bucket {
            assert(e0.dom().contains(s));
            if s.block == last {
                assert(s != slot);
                assert(s == slot_at(last, s.lane));
            } else {
                assert(s != slot);
            }
        }
    }
    assert forall|b: int, s: ActiveSlot| 0 <= b < a1.len() && #[trigger] a1[b].entries().dom().contains(s) implies {
        let v = a1[b].entries()[s].0;
        &&& v < s2.len()
        &&& s2[v as int] == Some((b as usize, s))
    } by {
        if b != bucket {
            assert(a0[b].entries().dom().contains(s));
            let v = a0[b].entries()[s].0;
            assert(s0[v as int] == Some((b as usize, s)));
            assert(v != v_idx);
        } else if s.block == to {
            let src = slot_at(last, s.lane);
            assert(e0.dom().contains(src));
            assert(src != slot);
            assert(e1[s] == e0[src]);
            let v = e0[src].0;
            assert(s0[v as int] == Some((b as usize, src)));
            assert(v != v_idx);
            assert(s == slot_at(to, s.lane));
        } else {
            assert(e0.dom().contains(s));
            assert(s != slot);
            assert(e1[s] == e0[s]);
            let v = e0[s].0;
            assert(s0[v as int] == Some((b as usize, s)));
            assert(v != v_idx);
        }
    }
    let m2 = active_edges(a1, s2);
    let m0 = active_edges(a0, s0).remove(v_idx);
    assert forall|v: usize| #[trigger] m0.dom().contains(v) implies m2.dom().contains(v) && m2[v] == m0[v] by {
        let (b, s) = s0[v as int]->0;
        if b == bucket {
            assert(e0.dom().contains(s));
            if s.block == last {
                assert(s == slot_at(last, s.lane));
            }
        }
    }
    assert forall|v: usize| #[trigger] m2.dom().contains(v) implies m0.dom().contains(v) by {
        assert(s0[v as int] is Some);
    }
    assert(m2 =~= m0);
}

/// Makes edge `v_idx` active in bucket `bucket_idx` with `payload`, and
/// records its slot.
pub fn insert_active_entry<P: Copy>(
    active: &mut Vec<ActiveBucket<P>>,
    active_slots: &mut SlotTable,
    bucket_idx: usize,
    v_idx: usize,
    payload: P,
)
    requires
        slots_consistent(old(active)@, old(active_slots)@),
        bucket_idx < old(active)@.len(),
        v_idx < old(active_slots)@.len(),
        old(active_slots)@[v_idx as int] is None,
    ensures
        final(active)@.len() == old(active)@.len(),
        final(active_slots)@.len() == old(active_slots)@.len(),
        slots_consistent(final(active)@, final(active_slots)@),
        active_edges(final(active)@, final(active_slots)@) == active_edges(old(active)@, old(active_slots)@).insert(
            v_idx,
            (bucket_idx, payload),
        ),
{
    let ghost a0 = active@;
    let ghost s0 = active_slots@;
    assert(a0[bucket_idx as int].wf());
    let slot = active[bucket_idx].insert(v_idx, payload);
    active_slots.set(v_idx, Some((bucket_idx, slot)));
    proof {
        let a1 = active@;
        let s1 = active_slots@;
        assert forall|b: int| 0 <= b < a1.len() implies #[trigger] a1[b].wf() by {
            if b != bucket_idx {
                assert(a1[b] == a0[b]);
            }
        }
        assert forall|v: int| 0 <= v < s1.len() && #[trigger] s1[v] is Some implies {
            let (b, s) = s1[v]->0;
            &&& b < a1.len()
            &&& a1[b as int].entries().dom().contains(s)
            &&& a1[b as int].entries()[s].0 == v
        } by {
            if v != v_idx {
                assert(s1[v] == s0[v]);
                let (b, s) = s0[v]->0;
                if b == bucket_idx {
                    assert(s != slot);
                }
            }
        }
        assert forall|b: int, s: ActiveSlot| 0 <= b < a1.len() && #[trigger] a1[b].entries().dom().contains(s) implies {
            let v = a1[b].entries()[s].0;
            &&& v < s1.len()
            &&& s1[v as int] == Some((b as usize, s))
        } by {
            if b != bucket_idx || s != slot {
                assert(a0[b].entries().dom().contains(s));
                let v = a0[b].entries()[s].0;
                assert(s0[v as int] == Some((b as usize, s)));
            }
        }
        let m1 = active_edges(a1, s1);
        let m0 = active_edges(a0, s0).insert(v_idx, (bucket_idx, payload));
        assert forall|v: usize| #[trigger] m1.dom().contains(v) implies m0.dom().contains(v) && m1[v] == m0[v] by {
            if v != v_idx {
                assert(s1[v as int] == s0[v as int]);
                let (b, s) = s0[v as int]->0;
                if b == bucket_idx {
                    assert(s != slot);
                }
            }
        }
        assert(m1 =~= m0);
    }
}

/// Makes edge `v_idx` inactive: takes its slot out of the table, removes
/// its entry from its bucket, and, when that dropped a block and moved
/// the last block into its place, points the moved edges at their new
/// block.
pub fn remove_active_entry<P: Copy>(active: &mut Vec<ActiveBucket<P>>, active_slots: &mut SlotTable, v_idx: usize)
    requires
        slots_consistent(old(active)@, old(active_slots)@),
    ensures
        final(active)@.len() == old(active)@.len(),
        final(active_slots)@.len() == old(active_slots)@.len(),
        slots_consistent(final(active)@, final(active_slots)@),
        active_edges(final(active)@, final(active_slots)@) == active_edges(old(active)@, old(active_slots)@).remove(
            v_idx,
        ),
{
    let ghost a0 = active@;
    let ghost s0 = active_slots@;
    assert(a0.len() == active.len());
    if v_idx >= active_slots.len() {
        assert(active_edges(a0, s0) =~= active_edges(a0, s0).remove(v_idx));
        return;
    }
    let taken = active_slots[v_idx];
    active_slots.set(v_idx, None);
    let (bucket_idx, slot) = match taken {
        Some(entry) => entry,
        None => {
            assert(active_edges(active@, active_slots@) =~= active_edges(a0, s0).remove(v_idx));
            return;
        },
    };
    if bucket_idx >= active.len() {
        return;
    }
    assert(a0[bucket_idx as int].wf());
    let ghost e0 = a0[bucket_idx as int].entries();
    let ghost last = (a0[bucket_idx as int].block_count() - 1) as usize;
    let moved = active[bucket_idx].remove(slot);
    let ghost s1 = active_slots@;
    let to = match moved {
        Some(to) => to,
        None => {
            proof {
                lemma_removed_entry(a0, s0, active@, s1, bucket_idx, slot, v_idx);
            }
            return;
        },
    };
    let bucket = &active[bucket_idx];
    if to >= bucket.blocks_len() {
        return;
    }
    let block = bucket.block(to);
    let ghost a1 = active@;
    proof {
        assert(e0.dom().contains(slot));
        assert(to == slot.block && a0[bucket_idx as int].sole_entry(slot));
        assert(to != last);
        assert(block.wf());
        let e1 = a1[bucket_idx as int].entries();
        assert(e1 == relocate(e0.remove(slot), last, to));
        assert(block == a1[bucket_idx as int].spec_block(to as int));
        assert forall|l: u8| l < 4 implies #[trigger] block.occupied(l) == e0.dom().contains(slot_at(last, l))
            && (block.occupied(l) ==> block.entry(l) == e0[slot_at(last, l)]) by {
            assert(e1.dom().contains(slot_at(to, l)) == a1[bucket_idx as int].occupied(slot_at(to, l)));
            assert(a1[bucket_idx as int].occupied(slot_at(to, l)) == block.occupied(l));
            assert(slot_at(last, l) != slot);
            assert(e1.dom().contains(slot_at(to, l)) == e0.remove(slot).dom().contains(slot_at(last, l)));
            if block.occupied(l) {
                assert(e1[slot_at(to, l)] == block.entry(l));
                assert(e1[slot_at(to, l)] == e0[slot_at(last, l)]);
            }
        }
    }
    let mut lane: usize = 0;
    while lane < 4
        invariant
            lane <= 4,
            slots_consistent(a0, s0),
            bucket_idx < a0.len(),
            v_idx < s0.len(),
            s0[v_idx as int] == Some((bucket_idx, slot)),
            s1 == s0.update(v_idx as int, None),
            e0 == a0[bucket_idx as int].entries(),
            to == slot.block,
            to != last,
            block.wf(),
            forall|l: u8| l < 4 ==> #[trigger] block.occupied(l) == e0.dom().contains(slot_at(last, l)) && (
            block.occupied(l) ==> block.entry(l) == e0[slot_at(last, l)]),
            active_slots@.len() == s1.len(),
            forall|v: int|
                0 <= v < s1.len() ==> #[trigger] active_slots@[v] == moved_slot(s1[v], bucket_idx, last, to, lane as int),
        decreases 4 - lane,
    {
        let ghost cur = active_slots@;
        let ghost l = lane as u8;
        if block.mask() & (1u8 << lane as u8) != 0 {
            let moved_idx = block.id(lane);
            proof {
                assert(block.occupied(l));
                assert(e0.dom().contains(slot_at(last, l)));
                assert(s0[moved_idx as int] == Some((bucket_idx, slot_at(last, l))));
            }
            if moved_idx < active_slots.len() {
                if let Some((b, s)) = active_slots[moved_idx] {
                    active_slots.set(moved_idx, Some((b, ActiveSlot { block: to, lane: s.lane })));
                }
            }
            proof {
                assert forall|v: int| 0 <= v < s1.len() implies #[trigger] active_slots@[v] == moved_slot(
                    s1[v],
                    bucket_idx,
                    last,
                    to,
                    lane + 1,
                ) by {
                    if v != moved_idx && s1[v] is Some {
                        let (b, s) = s1[v]->0;
                        if b == bucket_idx && s.block == last && s.lane == l {
                            assert(s0[v] == s1[v]);
                            assert(e0.dom().contains(s));
                            assert(s == slot_at(last, l));
                        }
                    }
                }
            }
        } else {
            proof {
                assert forall|v: int| 0 <= v < s1.len() implies #[trigger] active_slots@[v] == moved_slot(
                    s1[v],
                    bucket_idx,
                    last,
                    to,
                    lane + 1,
                ) by {
                    if s1[v] is Some {
                        let (b, s) = s1[v]->0;
                        if b == bucket_idx && s.block == last && s.lane == l {
                            assert(s0[v] == s1[v]);
                            assert(e0.dom().contains(s));
                            assert(s == slot_at(last, l));
                            assert(block.occupied(l));
                        }
                    }
                }
            }
        }
        lane += 1;
    }
    proof {
        lemma_moved_entries(a0, s0, a1, active_slots@, bucket_idx, slot, v_idx, last);
    }
}
} // verus!
