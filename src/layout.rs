//! Partition of the shared linear memory into per-module slots and the heap above them.
use vstd::prelude::*;
use crate::error::HostError;

verus! {

/// Size of one WebAssembly page in bytes.
pub const PAGE_SIZE: u32 = 65536;

/// Largest number of pages the shared memory may ever hold (1 GiB).
pub const MAX_PAGES: u64 = 16384;

/// Granularity of a module slot.
pub const SLOT_ALIGN: u32 = 4096;

/// Distance from the end of a slot to its initial stack pointer.
pub const STACK_TOP_GAP: u32 = 16;

/// Pages committed beyond the heap start when the memory is created, for the
/// guests' own allocators to take at startup.
pub const SAFETY_BUFFER_PAGES: u32 = 256;

/// Smallest multiple of `m` that is at least `n`.
pub open spec fn ceil_to(n: int, m: int) -> int {
    (n + m - 1) / m * m
}

/// How many modules the host takes, and how much memory each one gets.
pub struct BlindHostConfig {
    pub max_plugins: u32,
    pub data_allowance: i32,
    pub stack_size: i32,
}

impl BlindHostConfig {
    /// Sizes for which the layout fits in a 32-bit address space.
    pub open spec fn valid(&self) -> bool {
        &&& self.data_allowance >= 0
        &&& self.stack_size >= 0
        &&& self.max_plugins >= 1
        &&& ceil_to(self.data_allowance + self.stack_size, SLOT_ALIGN as int) > STACK_TOP_GAP
        &&& ceil_to(ceil_to(self.data_allowance + self.stack_size, SLOT_ALIGN as int) * self.max_plugins,
            PAGE_SIZE as int) + SAFETY_BUFFER_PAGES * PAGE_SIZE <= MAX_PAGES * PAGE_SIZE
    }

    /// Size of one slot: the data allowance plus the stack, rounded up to 4096.
    pub open spec fn spec_slot_size(&self) -> int {
        ceil_to(self.data_allowance + self.stack_size, SLOT_ALIGN as int)
    }

    /// First address of the heap: all slots, rounded up to a whole page.
    pub open spec fn spec_heap_start(&self) -> int {
        ceil_to(self.spec_slot_size() * self.max_plugins, PAGE_SIZE as int)
    }

    /// Whether the layout of this configuration fits the memory.
    pub fn is_valid(&self) -> (r: bool)
        ensures
            r == self.valid(),
    {
        if self.data_allowance < 0 || self.stack_size < 0 || self.max_plugins < 1 {
            return false;
        }
        let sum = self.data_allowance as u64 + self.stack_size as u64;
        let slot = (sum + 4095) / 4096 * 4096;
        if slot <= STACK_TOP_GAP as u64 {
            return false;
        }
        proof {
            assert(slot as int * self.max_plugins as int <= 0x2_0000_0000 * 0x1_0000_0000) by (nonlinear_arith)
                requires
                    slot <= 0x2_0000_0000,
                    self.max_plugins <= 0x1_0000_0000,
                    slot >= 0,
            ;
        }
        let total = slot as u128 * self.max_plugins as u128;
        let heap = (total + 65535) / 65536 * 65536;
        heap + SAFETY_BUFFER_PAGES as u128 * 65536 <= MAX_PAGES as u128 * 65536
    }

    /// Sixteen modules with 128 KiB of data and 1 MiB of stack each.
    pub fn default() -> (r: Self)
        ensures
            r.max_plugins == 16,
            r.data_allowance == 128 * 1024,
            r.stack_size == 1024 * 1024,
            r.valid(),
    {
        let r = BlindHostConfig { max_plugins: 16, data_allowance: 128 * 1024, stack_size: 1024 * 1024 };
        assert(r.spec_slot_size() == 1179648);
        assert(r.spec_heap_start() == 18874368);
        r
    }

    /// Size of one slot, page-aligned to 4096 bytes.
    pub fn slot_size(&self) -> (r: i32)
        requires
            self.data_allowance >= 0,
            self.stack_size >= 0,
            self.data_allowance + self.stack_size + 4095 <= i32::MAX,
        ensures
            r == self.spec_slot_size(),
            r % 4096 == 0,
            r >= self.data_allowance + self.stack_size,
    {
        proof {
            lemma_ceil_props(self.data_allowance + self.stack_size, SLOT_ALIGN as int);
        }
        let sum = self.data_allowance as i64 + self.stack_size as i64;
        ((sum + 4095) / 4096 * 4096) as i32
    }

    /// First address of the heap region.
    pub fn heap_start(&self) -> (r: u32)
        requires
            self.valid(),
        ensures
            r == self.spec_heap_start(),
            r % PAGE_SIZE == 0,
            r >= self.spec_slot_size() * self.max_plugins,
    {
        proof {
            lemma_slot_fits(self);
            lemma_ceil_props(self.data_allowance + self.stack_size, SLOT_ALIGN as int);
        }
        let slot = self.slot_size() as u64;
        let total = slot * self.max_plugins as u64;
        proof {
            lemma_ceil_props(total as int, PAGE_SIZE as int);
            lemma_slot_fits(self);
        }
        ((total + 65535) / 65536 * 65536) as u32
    }

    /// Pages committed when the memory is created: the heap start in pages
    /// plus the safety buffer.
    pub fn initial_pages(&self) -> (r: u32)
        requires
            self.valid(),
        ensures
            r == self.spec_heap_start() / (PAGE_SIZE as int) + SAFETY_BUFFER_PAGES,
            r * PAGE_SIZE == self.spec_heap_start() + SAFETY_BUFFER_PAGES * PAGE_SIZE,
            r <= MAX_PAGES,
    {
        let hs = self.heap_start();
        hs / 65536 + 256
    }
}

proof fn lemma_ceil_props(n: int, m: int)
    requires
        n >= 0,
        m > 0,
    ensures
        ceil_to(n, m) >= n,
        ceil_to(n, m) % m == 0,
        ceil_to(n, m) < n + m,
        ceil_to(n, m) >= 0,
{
    let q = (n + m - 1) / m;
    assert(ceil_to(n, m) == q * m);
    assert((n + m - 1) == q * m + (n + m - 1) % m) by (nonlinear_arith)
        requires
            m > 0,
            q == (n + m - 1) / m,
    ;
    assert((q * m) % m == 0) by (nonlinear_arith)
        requires
            m > 0,
    ;
    assert(q >= 0) by (nonlinear_arith)
        requires
            m > 0,
            n >= 0,
            q == (n + m - 1) / m,
    ;
    assert(q * m >= 0) by (nonlinear_arith)
        requires
            m > 0,
            q >= 0,
    ;
}

/// Rounding up never goes below the value.
pub proof fn lemma_ceil_at_least(n: int, m: int)
    requires
        n >= 0,
        m > 0,
    ensures
        ceil_to(n, m) >= n,
{
    lemma_ceil_props(n, m);
}

proof fn lemma_slot_fits(c: &BlindHostConfig)
    requires
        c.valid(),
    ensures
        c.spec_slot_size() <= c.spec_slot_size() * c.max_plugins,
        c.spec_slot_size() * c.max_plugins <= c.spec_heap_start(),
        c.spec_heap_start() + SAFETY_BUFFER_PAGES * PAGE_SIZE <= MAX_PAGES * PAGE_SIZE,
        c.spec_heap_start() % (PAGE_SIZE as int) == 0,
        c.spec_slot_size() > STACK_TOP_GAP,
{
    let s = c.spec_slot_size();
    lemma_ceil_props(c.data_allowance + c.stack_size, SLOT_ALIGN as int);
    assert(s * c.max_plugins >= s) by (nonlinear_arith)
        requires
            s >= 0,
            c.max_plugins >= 1,
    ;
    lemma_ceil_props(s * c.max_plugins, PAGE_SIZE as int);
}

/// A module's private partition: its data starts at `data_base`, its stack
/// grows down from `stack_top`.
#[derive(Debug, Clone, Copy, PartialEq, Eq, Structural)]
pub struct ModuleSlot {
    pub data_base: u32,
    pub stack_top: u32,
}

/// The `k`-th slot handed out for slots of `slot_size` bytes.
pub open spec fn nth_slot(slot_size: int, k: int) -> ModuleSlot {
    ModuleSlot {
        data_base: (k * slot_size) as u32,
        stack_top: (k * slot_size + slot_size - STACK_TOP_GAP) as u32,
    }
}

/// A monotonic cursor over the slots below the heap. Slot `k` starts at
/// `k * slot_size`; the heap starts above `max_plugins` slots.
pub struct SlotLayout {
    pub slot_size: u32,
    pub heap_start: u32,
    pub max_plugins: u32,
    pub next_base: u32,
    pub reserved: u32,
}

impl SlotLayout {
    /// The cursor stands after `reserved` slots, all below the heap start,
    /// and `max_plugins` slots fit below the heap start.
    pub open spec fn wf(&self) -> bool {
        &&& self.slot_size > STACK_TOP_GAP
        &&& self.max_plugins >= 1
        &&& self.heap_start >= self.slot_size
        &&& self.slot_size * self.max_plugins <= self.heap_start
        &&& self.next_base == self.reserved * self.slot_size
        &&& self.next_base <= self.heap_start + self.slot_size
        &&& self.heap_start + self.slot_size <= u32::MAX
    }

    /// Whether one more slot fits below the heap.
    pub open spec fn has_room(&self) -> bool {
        self.next_base + self.slot_size <= self.heap_start
    }

    /// The layout of a configuration, with no slot reserved yet.
    pub fn new(config: &BlindHostConfig) -> (r: Self)
        requires
            config.valid(),
        ensures
            r.wf(),
            r.slot_size == config.spec_slot_size(),
            r.heap_start == config.spec_heap_start(),
            r.max_plugins == config.max_plugins,
            r.reserved == 0,
    {
        proof {
            lemma_slot_fits(config);
            lemma_ceil_props(config.data_allowance + config.stack_size, SLOT_ALIGN as int);
        }
        let slot = config.slot_size();
        let heap_start = config.heap_start();
        proof {
            lemma_slot_fits(config);
        }
        SlotLayout { slot_size: slot as u32, heap_start, max_plugins: config.max_plugins, next_base: 0, reserved: 0 }
    }

    /// Hands out the next slot, or `SlotExhausted` when it would reach into
    /// the heap. The first `max_plugins` reservations always succeed.
    pub fn reserve_slot(&mut self) -> (r: Result<ModuleSlot, HostError>)
        requires
            old(self).wf(),
        ensures
            final(self).wf(),
            final(self).slot_size == old(self).slot_size,
            final(self).heap_start == old(self).heap_start,
            final(self).max_plugins == old(self).max_plugins,
            old(self).reserved < old(self).max_plugins ==> r is Ok,
            old(self).has_room() ==> r == Ok::<ModuleSlot, HostError>(nth_slot(old(self).slot_size as int, old(self).reserved as int))
                && final(self).reserved == old(self).reserved + 1
                && final(self).next_base == old(self).next_base + old(self).slot_size,
            !old(self).has_room() ==> r == Err::<ModuleSlot, HostError>(HostError::SlotExhausted)
                && *final(self) == *old(self),
    {
        proof {
            if self.reserved < self.max_plugins {
                assert((self.reserved + 1) * self.slot_size <= self.max_plugins * self.slot_size) by (nonlinear_arith)
                    requires
                        self.reserved + 1 <= self.max_plugins,
                ;
                assert(self.reserved * self.slot_size + self.slot_size == (self.reserved + 1) * self.slot_size)
                    by (nonlinear_arith);
            }
        }
        if self.next_base as u64 + self.slot_size as u64 > self.heap_start as u64 {
            return Err(HostError::SlotExhausted);
        }
        let base = self.next_base;
        proof {
            assert(self.reserved * self.slot_size <= u32::MAX);
            assert(self.reserved < u32::MAX) by (nonlinear_arith)
                requires
                    self.reserved * self.slot_size <= u32::MAX,
                    self.slot_size > STACK_TOP_GAP,
            ;
        }
        let slot = ModuleSlot { data_base: base, stack_top: base + self.slot_size - STACK_TOP_GAP };
        self.next_base = base + self.slot_size;
        self.reserved = self.reserved + 1;
        proof {
            assert(self.next_base == self.reserved * self.slot_size) by (nonlinear_arith)
                requires
                    self.next_base == base + self.slot_size,
                    base == (self.reserved - 1) * self.slot_size,
            ;
        }
        Ok(slot)
    }
}

/// Slots handed out in turn occupy pairwise disjoint ranges at strictly
/// increasing addresses: slot `j` ends at or before slot `k` begins when `j < k`.
pub proof fn lemma_slots_disjoint_increasing(slot_size: int, j: int, k: int)
    requires
        slot_size > STACK_TOP_GAP,
        0 <= j < k,
        (k + 1) * slot_size <= u32::MAX,
    ensures
        nth_slot(slot_size, j).data_base < nth_slot(slot_size, k).data_base,
        nth_slot(slot_size, j).data_base + slot_size <= nth_slot(slot_size, k).data_base,
        nth_slot(slot_size, j).stack_top < nth_slot(slot_size, k).data_base,
        nth_slot(slot_size, k).data_base < nth_slot(slot_size, k).stack_top,
{
    assert(j * slot_size + slot_size <= k * slot_size) by (nonlinear_arith)
        requires
            j < k,
            slot_size >= 0,
    ;
    assert(0 <= j * slot_size) by (nonlinear_arith)
        requires
            0 <= j,
            slot_size >= 0,
    ;
    assert(k * slot_size + slot_size == (k + 1) * slot_size) by (nonlinear_arith);
}

} // verus!
