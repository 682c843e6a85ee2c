//! First-fit free-list allocator over the shared heap region.
use vstd::prelude::*;

verus! {

/// One unoccupied byte range `[addr, addr + size)` of the heap.
#[derive(Debug, Clone, Copy, PartialEq, Eq, Structural)]
pub struct FreeBlock {
    pub addr: u32,
    pub size: u32,
}

/// The heap's free list.
pub struct HostHeap {
    pub free_blocks: Vec<FreeBlock>,
}

/// Exclusive end of a block.
pub open spec fn end_of(b: FreeBlock) -> int {
    b.addr + b.size
}

/// Whether address `a` lies inside block `b`.
pub open spec fn in_block(b: FreeBlock, a: int) -> bool {
    b.addr <= a < end_of(b)
}

/// Whether some block of `s` holds address `a`.
pub open spec fn covers(s: Seq<FreeBlock>, a: int) -> bool {
    exists|i: int| 0 <= i < s.len() && #[trigger] in_block(s[i], a)
}

/// The set of free addresses described by a list of blocks.
pub open spec fn free_set(s: Seq<FreeBlock>) -> Set<int> {
    Set::new(|a: int| covers(s, a))
}

/// The addresses `[addr, addr + size)`.
pub open spec fn range_set(addr: int, size: int) -> Set<int> {
    Set::new(|a: int| addr <= a < addr + size)
}

/// Whether two half-open ranges share no address.
pub open spec fn ranges_disjoint(a1: int, s1: int, a2: int, s2: int) -> bool {
    a1 + s1 <= a2 || a2 + s2 <= a1
}

/// Every block is non-empty and ends within the 32-bit address space.
pub open spec fn blocks_bounded(s: Seq<FreeBlock>) -> bool {
    forall|i: int| 0 <= i < s.len() ==> #[trigger] s[i].size > 0 && end_of(s[i]) <= u32::MAX
}

/// Blocks are non-empty and bounded, and no two of them overlap.
pub open spec fn pairwise_disjoint(s: Seq<FreeBlock>) -> bool {
    &&& blocks_bounded(s)
    &&& forall|i: int, j: int| 0 <= i < s.len() && 0 <= j < s.len() && i != j
        ==> ranges_disjoint((#[trigger] s[i]).addr as int, s[i].size as int, (#[trigger] s[j]).addr as int, s[j].size as int)
}

/// Blocks are ordered by address and do not overlap (they may touch).
pub open spec fn sorted_disjoint(s: Seq<FreeBlock>) -> bool {
    &&& blocks_bounded(s)
    &&& forall|i: int, j: int| 0 <= i < j < s.len() ==> end_of(#[trigger] s[i]) <= (#[trigger] s[j]).addr
}

/// Blocks are ordered by address, and between any two of them lies at least one used byte.
pub open spec fn sorted_separated(s: Seq<FreeBlock>) -> bool {
    &&& blocks_bounded(s)
    &&& forall|i: int, j: int| 0 <= i < j < s.len() ==> end_of(#[trigger] s[i]) < (#[trigger] s[j]).addr
}

/// No block ends exactly where another begins.
pub open spec fn maximally_coalesced(s: Seq<FreeBlock>) -> bool {
    forall|i: int, j: int|
        0 <= i < s.len() && 0 <= j < s.len() ==> end_of(#[trigger] s[i]) != (#[trigger] s[j]).addr
}

/// Index of the first block of `s` at least `size` bytes long: the first-fit choice.
pub open spec fn is_first_fit(s: Seq<FreeBlock>, size: int, i: int) -> bool {
    &&& 0 <= i < s.len()
    &&& s[i].size >= size
    &&& forall|j: int| 0 <= j < i ==> (#[trigger] s[j]).size < size
}

/// Whether some block of `s` is at least `size` bytes long.
pub open spec fn has_fit(s: Seq<FreeBlock>, size: int) -> bool {
    exists|i: int| 0 <= i < s.len() && (#[trigger] s[i]).size >= size
}

/// The free list after a first-fit allocation of `size` bytes from block `i`:
/// an exact fit removes the block, a larger one keeps its tail.
pub open spec fn take_from(s: Seq<FreeBlock>, i: int, size: int) -> Seq<FreeBlock> {
    if s[i].size == size {
        s.remove(i)
    } else {
        s.update(i, FreeBlock { addr: (s[i].addr + size) as u32, size: (s[i].size - size) as u32 })
    }
}

/// Whether the freed range `[addr, addr + size)` overlaps no free block.
pub open spec fn disjoint_from_blocks(s: Seq<FreeBlock>, addr: int, size: int) -> bool {
    forall|i: int| 0 <= i < s.len() ==> ranges_disjoint(addr, size, (#[trigger] s[i]).addr as int, s[i].size as int)
}

/// Every block starts and ends on an 8-byte boundary.
pub open spec fn blocks_aligned(s: Seq<FreeBlock>) -> bool {
    forall|i: int| 0 <= i < s.len() ==> (#[trigger] s[i]).addr % 8 == 0 && s[i].size % 8 == 0
}

/// Every block lies inside `[lo, hi)`.
pub open spec fn blocks_within(s: Seq<FreeBlock>, lo: int, hi: int) -> bool {
    forall|i: int| 0 <= i < s.len() ==> lo <= (#[trigger] s[i]).addr && end_of(s[i]) <= hi
}

impl HostHeap {
    /// The free list is ordered, gap-separated and bounded.
    pub open spec fn wf(&self) -> bool {
        sorted_separated(self.free_blocks@)
    }

    /// The free addresses of the heap.
    pub open spec fn free(&self) -> Set<int> {
        free_set(self.free_blocks@)
    }

    /// An empty heap: no address is free.
    pub fn new() -> (r: Self)
        ensures
            r.wf(),
            r.free_blocks@.len() == 0,
    {
        HostHeap { free_blocks: Vec::new() }
    }

    /// Orders the blocks by address and merges every pair of touching blocks,
    /// leaving the same free addresses.
    pub fn coalesce(&mut self)
        requires
            pairwise_disjoint(old(self).free_blocks@),
        ensures
            final(self).wf(),
            maximally_coalesced(final(self).free_blocks@),
            final(self).free() == old(self).free(),
            blocks_aligned(old(self).free_blocks@) ==> blocks_aligned(final(self).free_blocks@),
            forall|lo: int, hi: int| blocks_within(old(self).free_blocks@, lo, hi) ==> blocks_within(final(self).free_blocks@, lo, hi),
    {
        let ghost orig = self.free_blocks@;
        let mut sorted: Vec<FreeBlock> = Vec::new();
        let ghost mut from: Seq<int> = Seq::empty();
        let mut k: usize = 0;
        while k < self.free_blocks.len()
            invariant
                self.free_blocks@ == orig,
                orig == old(self).free_blocks@,
                pairwise_disjoint(orig),
                k <= orig.len(),
                sorted_disjoint(sorted@),
                from.len() == sorted@.len(),
                forall|i: int| 0 <= i < sorted@.len() ==> 0 <= #[trigger] from[i] < k && sorted@[i] == orig[from[i]],
                forall|a: int| covers(sorted@, a) == covers(orig.take(k as int), a),
            decreases orig.len() - k,
        {
            let b = self.free_blocks[k];
            let mut pos: usize = 0;
            while pos < sorted.len() && sorted[pos].addr < b.addr
                invariant
                    pos <= sorted@.len(),
                    forall|j: int| 0 <= j < pos ==> (#[trigger] sorted@[j]).addr < b.addr,
                decreases sorted@.len() - pos,
            {
                pos = pos + 1;
            }
            let ghost before = sorted@;
            proof {
                assert forall|i: int| 0 <= i < before.len() implies
                    ranges_disjoint(b.addr as int, b.size as int, (#[trigger] before[i]).addr as int, before[i].size as int) by {
                    assert(from[i] != k);
                    assert(ranges_disjoint(orig[k as int].addr as int, orig[k as int].size as int,
                        orig[from[i]].addr as int, orig[from[i]].size as int));
                }
                assert(end_of(orig[k as int]) <= u32::MAX && orig[k as int].size > 0);
                lemma_insert_sorted(before, pos as int, b);
                lemma_insert_covers(before, pos as int, b);
                assert(orig.take(k as int + 1) =~= orig.take(k as int).insert(k as int, b));
                lemma_insert_covers(orig.take(k as int), k as int, b);
            }
            sorted.insert(pos, b);
            proof {
                assert(sorted@ == before.insert(pos as int, b));
                assert forall|a: int| covers(sorted@, a) == covers(orig.take(k as int + 1), a) by {
                    assert(covers(sorted@, a) == (covers(before, a) || in_block(b, a)));
                    assert(covers(orig.take(k as int).insert(k as int, b), a) == (covers(orig.take(k as int), a) || in_block(b, a)));
                }
                from = from.insert(pos as int, k as int);
                assert forall|i: int| 0 <= i < sorted@.len() implies 0 <= #[trigger] from[i] < k + 1 && sorted@[i] == orig[from[i]] by {
                    if i < pos {
                        assert(from[i] == from.remove(pos as int)[i]);
                    } else if i > pos {
                        assert(sorted@[i] == before[i - 1]);
                    }
                }
            }
            k = k + 1;
        }
        proof {
            assert(orig.take(orig.len() as int) =~= orig);
            if blocks_aligned(orig) {
                assert forall|i: int| 0 <= i < sorted@.len() implies
                    (#[trigger] sorted@[i]).addr % 8 == 0 && sorted@[i].size % 8 == 0 by {
                    assert(sorted@[i] == orig[from[i]]);
                }
            }
            assert forall|lo: int, hi: int| blocks_within(orig, lo, hi) implies blocks_within(sorted@, lo, hi) by {
                assert forall|i: int| 0 <= i < sorted@.len() implies lo <= (#[trigger] sorted@[i]).addr && end_of(sorted@[i]) <= hi by {
                    assert(sorted@[i] == orig[from[i]]);
                }
            }
        }
        self.free_blocks = sorted;
        self.merge_touching();
        proof {
            assert(free_set(sorted@) =~= free_set(orig));
        }
    }

    /// Merges every pair of touching blocks of an address-ordered list,
    /// leaving the same free addresses.
    fn merge_touching(&mut self)
        requires
            sorted_disjoint(old(self).free_blocks@),
        ensures
            final(self).wf(),
            maximally_coalesced(final(self).free_blocks@),
            final(self).free() == old(self).free(),
            blocks_aligned(old(self).free_blocks@) ==> blocks_aligned(final(self).free_blocks@),
            forall|lo: int, hi: int| blocks_within(old(self).free_blocks@, lo, hi) ==> blocks_within(final(self).free_blocks@, lo, hi),
    {
        if self.free_blocks.len() == 0 {
            return;
        }
        let mut i: usize = 0;
        while i < self.free_blocks.len() - 1
            invariant
                self.free_blocks@.len() >= 1,
                i < self.free_blocks@.len(),
                sorted_disjoint(self.free_blocks@),
                forall|j: int, k: int|
                    0 <= j < k <= i ==> end_of(#[trigger] self.free_blocks@[j]) < (#[trigger] self.free_blocks@[k]).addr,
                forall|a: int| covers(self.free_blocks@, a) == covers(old(self).free_blocks@, a),
                blocks_aligned(old(self).free_blocks@) ==> blocks_aligned(self.free_blocks@),
                forall|lo: int, hi: int| blocks_within(old(self).free_blocks@, lo, hi) ==> blocks_within(self.free_blocks@, lo, hi),
            decreases self.free_blocks@.len() - i,
        {
            let current = self.free_blocks[i];
            let next = self.free_blocks[i + 1];
            if current.addr as u64 + current.size as u64 == next.addr as u64 {
                let ghost before = self.free_blocks@;
                proof {
                    assert(end_of(before[i as int + 1]) <= u32::MAX);
                }
                self.free_blocks[i] = FreeBlock { addr: current.addr, size: current.size + next.size };
                self.free_blocks.remove(i + 1);
                proof {
                    lemma_merge_keeps_order(before, i as int);
                    lemma_merge_covers(before, i as int);
                    lemma_merge_keeps_shape(before, i as int);
                }
            } else {
                proof {
                    let s = self.free_blocks@;
                    assert forall|j: int, k: int| 0 <= j < k <= i + 1 implies end_of(#[trigger] s[j]) < (#[trigger] s[k]).addr by {
                        if k == i + 1 && j < i {
                            assert(end_of(s[j]) < s[i as int].addr);
                        }
                    }
                }
                i = i + 1;
            }
        }
        proof {
            lemma_separated_coalesced(self.free_blocks@);
            assert(self.free() =~= old(self).free());
        }
    }

    /// First-fit allocation of `size` bytes: the address of the first block at least that long.
    pub fn allocate(&mut self, size: u32) -> (r: Option<u32>)
        requires
            old(self).wf(),
        ensures
            final(self).wf(),
            match r {
                None => !has_fit(old(self).free_blocks@, size as int) && final(self).free_blocks@ == old(self).free_blocks@,
                Some(addr) => exists|i: int| {
                    &&& is_first_fit(old(self).free_blocks@, size as int, i)
                    &&& addr == old(self).free_blocks@[i].addr
                    &&& final(self).free_blocks@ == take_from(old(self).free_blocks@, i, size as int)
                },
            },
            r is Some ==> range_set(r->0 as int, size as int).subset_of(old(self).free()),
            r is Some ==> final(self).free() == old(self).free().difference(range_set(r->0 as int, size as int)),
    {
        let mut pos: usize = 0;
        while pos < self.free_blocks.len() && self.free_blocks[pos].size < size
            invariant
                pos <= self.free_blocks@.len(),
                self.free_blocks@ == old(self).free_blocks@,
                forall|j: int| 0 <= j < pos ==> (#[trigger] self.free_blocks@[j]).size < size,
            decreases self.free_blocks@.len() - pos,
        {
            pos = pos + 1;
        }
        if pos == self.free_blocks.len() {
            return None;
        }
        let ghost before = self.free_blocks@;
        let block = self.free_blocks[pos];
        proof {
            assert(end_of(before[pos as int]) <= u32::MAX);
        }
        if block.size == size {
            self.free_blocks.remove(pos);
        } else {
            self.free_blocks[pos] = FreeBlock { addr: block.addr + size, size: block.size - size };
        }
        proof {
            assert(is_first_fit(before, size as int, pos as int));
            assert(self.free_blocks@ == take_from(before, pos as int, size as int));
            lemma_take_keeps_order(before, pos as int, size as int);
            lemma_take_frees(before, pos as int, size as int);
        }
        Some(block.addr)
    }

    /// Returns `[ptr, ptr + size)` to the free list and coalesces it with its neighbours.
    pub fn dealloc(&mut self, ptr: u32, size: u32)
        requires
            old(self).wf(),
            size > 0,
            ptr + size <= u32::MAX,
            disjoint_from_blocks(old(self).free_blocks@, ptr as int, size as int),
        ensures
            final(self).wf(),
            maximally_coalesced(final(self).free_blocks@),
            final(self).free() == old(self).free().union(range_set(ptr as int, size as int)),
            blocks_aligned(old(self).free_blocks@) && ptr % 8 == 0 && size % 8 == 0 ==> blocks_aligned(final(self).free_blocks@),
            forall|lo: int, hi: int| blocks_within(old(self).free_blocks@, lo, hi) && lo <= ptr && ptr + size <= hi
                ==> blocks_within(final(self).free_blocks@, lo, hi),
    {
        let mut pos: usize = 0;
        while pos < self.free_blocks.len() && self.free_blocks[pos].addr < ptr
            invariant
                pos <= self.free_blocks@.len(),
                self.free_blocks@ == old(self).free_blocks@,
                forall|j: int| 0 <= j < pos ==> (#[trigger] self.free_blocks@[j]).addr < ptr,
            decreases self.free_blocks@.len() - pos,
        {
            pos = pos + 1;
        }
        let ghost before = self.free_blocks@;
        let blk = FreeBlock { addr: ptr, size };
        self.free_blocks.insert(pos, blk);
        proof {
            let t = self.free_blocks@;
            assert forall|j: int| 0 <= j < t.len() implies t[j] == blk || (exists|k: int| 0 <= k < before.len() && #[trigger] before[k] == t[j]) by {
                if j < pos {
                    assert(before[j] == t[j]);
                } else if j > pos {
                    assert(before[j - 1] == t[j]);
                }
            }
            lemma_insert_sorted(before, pos as int, blk);
            lemma_insert_covers(before, pos as int, blk);
        }
        self.merge_touching();
        proof {
            assert(self.free() =~= old(self).free().union(range_set(ptr as int, size as int)));
        }
    }
}

proof fn lemma_merge_keeps_order(s: Seq<FreeBlock>, i: int)
    requires
        sorted_disjoint(s),
        0 <= i < s.len() - 1,
        end_of(s[i]) == s[i + 1].addr,
        forall|j: int, k: int| 0 <= j < k <= i ==> end_of(#[trigger] s[j]) < (#[trigger] s[k]).addr,
    ensures
        ({
            let t = s.update(i, FreeBlock { addr: s[i].addr, size: (s[i].size + s[i + 1].size) as u32 }).remove(i + 1);
            &&& sorted_disjoint(t)
            &&& forall|j: int, k: int| 0 <= j < k <= i ==> end_of(#[trigger] t[j]) < (#[trigger] t[k]).addr
        }),
{
    let t = s.update(i, FreeBlock { addr: s[i].addr, size: (s[i].size + s[i + 1].size) as u32 }).remove(i + 1);
    assert forall|j: int| 0 <= j < t.len() implies #[trigger] t[j].size > 0 && end_of(t[j]) <= u32::MAX by {
        if j > i {
            assert(t[j] == s[j + 1]);
        }
    }
    assert forall|j: int, k: int| 0 <= j < k < t.len() implies end_of(#[trigger] t[j]) <= (#[trigger] t[k]).addr by {
        if j == i {
            assert(t[k] == s[k + 1]);
            assert(end_of(s[i + 1]) <= s[k + 1].addr);
        } else if j < i {
            if k > i {
                assert(t[k] == s[k + 1]);
                assert(end_of(s[j]) <= s[i + 1].addr);
                assert(end_of(s[i + 1]) <= s[k + 1].addr);
            }
        } else {
            assert(t[j] == s[j + 1]);
            assert(t[k] == s[k + 1]);
        }
    }
}

proof fn lemma_merge_keeps_shape(s: Seq<FreeBlock>, i: int)
    requires
        sorted_disjoint(s),
        0 <= i < s.len() - 1,
        end_of(s[i]) == s[i + 1].addr,
    ensures
        ({
            let t = s.update(i, FreeBlock { addr: s[i].addr, size: (s[i].size + s[i + 1].size) as u32 }).remove(i + 1);
            &&& blocks_aligned(s) ==> blocks_aligned(t)
            &&& forall|lo: int, hi: int| blocks_within(s, lo, hi) ==> blocks_within(t, lo, hi)
        }),
{
    let t = s.update(i, FreeBlock { addr: s[i].addr, size: (s[i].size + s[i + 1].size) as u32 }).remove(i + 1);
    assert(end_of(s[i + 1]) <= u32::MAX);
    if blocks_aligned(s) {
        assert forall|j: int| 0 <= j < t.len() implies (#[trigger] t[j]).addr % 8 == 0 && t[j].size % 8 == 0 by {
            if j > i {
                assert(t[j] == s[j + 1]);
            } else if j == i {
                assert(s[i].size % 8 == 0 && s[i + 1].size % 8 == 0);
            }
        }
    }
    assert forall|lo: int, hi: int| blocks_within(s, lo, hi) implies blocks_within(t, lo, hi) by {
        assert forall|j: int| 0 <= j < t.len() implies lo <= (#[trigger] t[j]).addr && end_of(t[j]) <= hi by {
            if j > i {
                assert(t[j] == s[j + 1]);
            } else if j == i {
                assert(lo <= s[i].addr && end_of(s[i + 1]) <= hi);
            }
        }
    }
}

proof fn lemma_merge_covers(s: Seq<FreeBlock>, i: int)
    requires
        sorted_disjoint(s),
        0 <= i < s.len() - 1,
        end_of(s[i]) == s[i + 1].addr,
    ensures
        ({
            let t = s.update(i, FreeBlock { addr: s[i].addr, size: (s[i].size + s[i + 1].size) as u32 }).remove(i + 1);
            forall|a: int| covers(t, a) == covers(s, a)
        }),
{
    let t = s.update(i, FreeBlock { addr: s[i].addr, size: (s[i].size + s[i + 1].size) as u32 }).remove(i + 1);
    assert forall|a: int| covers(t, a) == covers(s, a) by {
        if covers(t, a) {
            let j = choose|j: int| 0 <= j < t.len() && #[trigger] in_block(t[j], a);
            if j < i {
                assert(in_block(s[j], a));
            } else if j == i {
                if a < end_of(s[i]) {
                    assert(in_block(s[i], a));
                } else {
                    assert(in_block(s[i + 1], a));
                }
            } else {
                assert(t[j] == s[j + 1]);
                assert(in_block(s[j + 1], a));
            }
        }
        if covers(s, a) {
            let j = choose|j: int| 0 <= j < s.len() && #[trigger] in_block(s[j], a);
            if j < i {
                assert(in_block(t[j], a));
            } else if j == i || j == i + 1 {
                assert(in_block(t[i], a));
            } else {
                assert(t[j - 1] == s[j]);
                assert(in_block(t[j - 1], a));
            }
        }
    }
}

proof fn lemma_separated_coalesced(s: Seq<FreeBlock>)
    requires
        sorted_separated(s),
    ensures
        maximally_coalesced(s),
{
    assert forall|i: int, j: int| 0 <= i < s.len() && 0 <= j < s.len() implies end_of(#[trigger] s[i]) != (#[trigger] s[j]).addr by {
        if i < j {
            assert(end_of(s[i]) < s[j].addr);
        } else if j < i {
            assert(end_of(s[j]) < s[i].addr);
            assert(s[i].size > 0);
        } else {
            assert(s[i].size > 0);
        }
    }
}

proof fn lemma_take_keeps_order(s: Seq<FreeBlock>, i: int, size: int)
    requires
        sorted_separated(s),
        0 <= i < s.len(),
        0 <= size <= s[i].size,
    ensures
        sorted_separated(take_from(s, i, size)),
{
    let t = take_from(s, i, size);
    if s[i].size == size {
        assert forall|j: int| 0 <= j < t.len() implies #[trigger] t[j].size > 0 && end_of(t[j]) <= u32::MAX by {
            if j >= i {
                assert(t[j] == s[j + 1]);
            }
        }
        assert forall|j: int, k: int| 0 <= j < k < t.len() implies end_of(#[trigger] t[j]) < (#[trigger] t[k]).addr by {
            if j >= i {
                assert(t[j] == s[j + 1]);
            }
            if k >= i {
                assert(t[k] == s[k + 1]);
            }
        }
    } else {
        assert forall|j: int| 0 <= j < t.len() implies #[trigger] t[j].size > 0 && end_of(t[j]) <= u32::MAX by {
            if j != i {
                assert(t[j] == s[j]);
            }
        }
        assert forall|j: int, k: int| 0 <= j < k < t.len() implies end_of(#[trigger] t[j]) < (#[trigger] t[k]).addr by {
            assert(end_of(s[j]) < s[k].addr);
        }
    }
}

proof fn lemma_take_frees(s: Seq<FreeBlock>, i: int, size: int)
    requires
        sorted_separated(s),
        0 <= i < s.len(),
        0 <= size <= s[i].size,
    ensures
        range_set(s[i].addr as int, size).subset_of(free_set(s)),
        free_set(take_from(s, i, size)) == free_set(s).difference(range_set(s[i].addr as int, size)),
{
    let t = take_from(s, i, size);
    let r = range_set(s[i].addr as int, size);
    assert forall|a: int| r.contains(a) implies free_set(s).contains(a) by {
        assert(in_block(s[i], a));
    }
    assert forall|a: int| free_set(t).contains(a) == free_set(s).difference(r).contains(a) by {
        if covers(t, a) {
            let j = choose|j: int| 0 <= j < t.len() && #[trigger] in_block(t[j], a);
            if s[i].size == size {
                if j >= i {
                    assert(t[j] == s[j + 1]);
                    assert(in_block(s[j + 1], a));
                    assert(end_of(s[i]) < s[j + 1].addr);
                } else {
                    assert(in_block(s[j], a));
                    assert(end_of(s[j]) < s[i].addr);
                }
            } else if j == i {
                assert(in_block(s[i], a));
            } else {
                assert(in_block(s[j], a));
                if j < i {
                    assert(end_of(s[j]) < s[i].addr);
                } else {
                    assert(end_of(s[i]) < s[j].addr);
                }
            }
        }
        if free_set(s).difference(r).contains(a) {
            let j = choose|j: int| 0 <= j < s.len() && #[trigger] in_block(s[j], a);
            if s[i].size == size {
                if j < i {
                    assert(in_block(t[j], a));
                } else {
                    assert(j != i);
                    assert(t[j - 1] == s[j]);
                    assert(in_block(t[j - 1], a));
                }
            } else {
                assert(in_block(t[j], a));
            }
        }
    }
    assert(free_set(t) =~= free_set(s).difference(r));
}

proof fn lemma_insert_sorted(s: Seq<FreeBlock>, pos: int, b: FreeBlock)
    requires
        sorted_disjoint(s),
        0 <= pos <= s.len(),
        b.size > 0,
        end_of(b) <= u32::MAX,
        forall|j: int| 0 <= j < pos ==> (#[trigger] s[j]).addr < b.addr,
        pos < s.len() ==> s[pos].addr >= b.addr,
        disjoint_from_blocks(s, b.addr as int, b.size as int),
    ensures
        sorted_disjoint(s.insert(pos, b)),
{
    let t = s.insert(pos, b);
    assert forall|j: int| 0 <= j < t.len() implies #[trigger] t[j].size > 0 && end_of(t[j]) <= u32::MAX by {
        if j > pos {
            assert(t[j] == s[j - 1]);
        }
    }
    assert forall|j: int, k: int| 0 <= j < k < t.len() implies end_of(#[trigger] t[j]) <= (#[trigger] t[k]).addr by {
        if j < pos && k < pos {
        } else if j < pos && k == pos {
            assert(ranges_disjoint(b.addr as int, b.size as int, s[j].addr as int, s[j].size as int));
        } else if j < pos {
            assert(t[k] == s[k - 1]);
        } else if j == pos {
            assert(t[k] == s[k - 1]);
            assert(ranges_disjoint(b.addr as int, b.size as int, s[pos].addr as int, s[pos].size as int));
            assert(s[pos].addr <= s[k - 1].addr);
        } else {
            assert(t[j] == s[j - 1]);
            assert(t[k] == s[k - 1]);
        }
    }
}

proof fn lemma_insert_covers(s: Seq<FreeBlock>, pos: int, b: FreeBlock)
    requires
        0 <= pos <= s.len(),
    ensures
        forall|a: int| covers(s.insert(pos, b), a) == (covers(s, a) || in_block(b, a)),
{
    let t = s.insert(pos, b);
    assert forall|a: int| covers(t, a) == (covers(s, a) || in_block(b, a)) by {
        if covers(t, a) {
            let j = choose|j: int| 0 <= j < t.len() && #[trigger] in_block(t[j], a);
            if j < pos {
                assert(in_block(s[j], a));
            } else if j > pos {
                assert(t[j] == s[j - 1]);
                assert(in_block(s[j - 1], a));
            }
        }
        if covers(s, a) {
            let j = choose|j: int| 0 <= j < s.len() && #[trigger] in_block(s[j], a);
            if j < pos {
                assert(in_block(t[j], a));
            } else {
                assert(t[j + 1] == s[j]);
                assert(in_block(t[j + 1], a));
            }
        }
        if in_block(b, a) {
            assert(in_block(t[pos], a));
        }
    }
}

} // verus!
