//! The host's one state value: layout, heap, shared memory and module registry,
//! with the operations behind the host calls that every module imports.
use vstd::prelude::*;
use crate::error::HostError;
use crate::growth::{align8, growth_pages, growth_start, spec_growth_pages, spec_growth_start};
use crate::heap::{
    blocks_aligned, blocks_within, covers, end_of, free_set, has_fit, in_block, is_first_fit, range_set,
    sorted_separated, take_from, FreeBlock, HostHeap,
};
use crate::layout::{ceil_to, BlindHostConfig, ModuleSlot, SlotLayout, MAX_PAGES, PAGE_SIZE};
use crate::memory::{in_bounds, MemoryView};
use crate::registry::{resolution_ok, resolves_to, table_size, FuncRef, Registry};

verus! {

/// Bytes of the largest memory.
pub open spec fn max_bytes() -> int {
    MAX_PAGES * PAGE_SIZE
}

/// A zeroed byte sequence of length `n`.
pub open spec fn zeros(n: int) -> Seq<u8> {
    Seq::new(n as nat, |i: int| 0u8)
}

/// Size that a request of `size` bytes takes from the heap.
pub open spec fn request_size(size: i32) -> int {
    ceil_to(size as int, 8)
}

/// Process-wide host state, owned by the embedder and passed to every operation.
pub struct HostState {
    pub layout: SlotLayout,
    pub heap: HostHeap,
    pub memory: MemoryView,
    pub registry: Registry,
}

/// A module that has a slot and a call table but is not yet published.
#[derive(Debug, Clone, Copy, PartialEq, Eq, Structural)]
pub struct PendingModule {
    pub slot: ModuleSlot,
    pub table: usize,
}

impl HostState {
    /// All parts are well formed; the heap's free blocks are 8-byte aligned and
    /// lie between the heap start and the top of committed memory.
    pub open spec fn wf(&self) -> bool {
        &&& self.layout.wf()
        &&& self.heap.wf()
        &&& self.memory.wf()
        &&& self.registry.wf()
        &&& self.layout.heap_start <= self.memory@.len()
        &&& blocks_aligned(self.heap.free_blocks@)
        &&& blocks_within(self.heap.free_blocks@, self.layout.heap_start as int, self.memory@.len() as int)
    }

    /// A fresh host for `config`: memory of the heap start plus the safety
    /// buffer, an empty free list, no module.
    pub fn new(config: &BlindHostConfig) -> (r: Self)
        requires
            config.valid(),
        ensures
            r.wf(),
            r.layout.slot_size == config.spec_slot_size(),
            r.layout.heap_start == config.spec_heap_start(),
            r.layout.reserved == 0,
            r.memory@.len() == (config.spec_heap_start() / (PAGE_SIZE as int) + 256) * PAGE_SIZE,
            r.heap.free_blocks@.len() == 0,
            r.registry.modules@.len() == 0,
            r.registry.tables@.len() == 0,
    {
        let layout = SlotLayout::new(config);
        let pages = config.initial_pages();
        let memory = MemoryView::new(pages);
        HostState { layout, heap: HostHeap::new(), memory, registry: Registry::new() }
    }

    /// Serves `size` bytes from the heap, growing memory once when no free
    /// block is large enough. Returns the address, or 0 when `size` is not
    /// positive or memory cannot grow.
    pub fn host_alloc(&mut self, size: i32) -> (r: i32)
        requires
            old(self).wf(),
        ensures
            final(self).wf(),
            final(self).layout == old(self).layout,
            final(self).registry == old(self).registry,
            size <= 0 ==> r == 0 && *final(self) == *old(self),
            size > 0 && has_fit(old(self).heap.free_blocks@, request_size(size)) ==> exists|i: int| {
                &&& is_first_fit(old(self).heap.free_blocks@, request_size(size), i)
                &&& r == old(self).heap.free_blocks@[i].addr
                &&& final(self).heap.free_blocks@ == take_from(old(self).heap.free_blocks@, i, request_size(size))
                &&& final(self).memory == old(self).memory
            },
            size > 0 && !has_fit(old(self).heap.free_blocks@, request_size(size))
                && old(self).memory@.len() + spec_growth_pages(request_size(size)) * PAGE_SIZE > max_bytes()
                ==> r == 0 && final(self).heap.free_blocks@ == old(self).heap.free_blocks@
                    && final(self).memory@ == old(self).memory@,
            size > 0 && !has_fit(old(self).heap.free_blocks@, request_size(size))
                && old(self).memory@.len() + spec_growth_pages(request_size(size)) * PAGE_SIZE <= max_bytes() ==> {
                &&& final(self).memory@ == old(self).memory@ + zeros(spec_growth_pages(request_size(size)) * PAGE_SIZE)
                &&& exists|mid: Seq<FreeBlock>, i: int| {
                    &&& sorted_separated(mid)
                    &&& free_set(mid) == free_set(old(self).heap.free_blocks@).union(
                        range_set(old(self).memory@.len() as int, spec_growth_pages(request_size(size)) * PAGE_SIZE))
                    &&& is_first_fit(mid, request_size(size), i)
                    &&& r == mid[i].addr
                    &&& #[trigger] take_from(mid, i, request_size(size)) == final(self).heap.free_blocks@
                }
                &&& (forall|j: int| 0 <= j < old(self).heap.free_blocks@.len()
                    ==> end_of(#[trigger] old(self).heap.free_blocks@[j]) != old(self).memory@.len())
                    ==> old(self).memory@.len() <= r
                        && r + request_size(size) <= old(self).memory@.len() + spec_growth_pages(request_size(size)) * PAGE_SIZE
            },
            r != 0 ==> {
                &&& r > 0
                &&& r % 8 == 0
                &&& r + request_size(size) <= final(self).memory@.len()
                &&& !final(self).heap.free().contains(r as int)
                &&& range_set(r as int, request_size(size)).subset_of(
                    old(self).heap.free().union(range_set(old(self).memory@.len() as int, final(self).memory@.len() - old(self).memory@.len())))
                &&& final(self).heap.free() == old(self).heap.free().union(
                    range_set(old(self).memory@.len() as int, final(self).memory@.len() - old(self).memory@.len()))
                    .difference(range_set(r as int, request_size(size)))
            },
    {
        let step = alloc_begin(&mut self.heap, self.layout.heap_start, self.memory.size(), size);
        match step {
            AllocStep::Done(addr) => addr,
            AllocStep::Grow { start, pages, need } => {
                match self.memory.grow(pages) {
                    None => 0,
                    Some(_) => alloc_after_growth(&mut self.heap, self.layout.heap_start, start, pages, need),
                }
            },
        }
    }

    /// Returns `[ptr, ptr + size)` (the size rounded up to 8) to the heap. A
    /// null, unaligned or non-positive request, one outside the heap, or one
    /// that overlaps free memory changes nothing and returns `false`.
    pub fn host_dealloc(&mut self, ptr: i32, size: i32) -> (r: bool)
        requires
            old(self).wf(),
        ensures
            final(self).wf(),
            final(self).layout == old(self).layout,
            final(self).registry == old(self).registry,
            final(self).memory == old(self).memory,
            r == (ptr > 0 && size > 0 && ptr % 8 == 0 && old(self).layout.heap_start <= ptr
                && ptr + request_size(size) <= old(self).memory@.len()
                && crate::heap::disjoint_from_blocks(old(self).heap.free_blocks@, ptr as int, request_size(size))),
            r ==> final(self).heap.free() == old(self).heap.free().union(range_set(ptr as int, request_size(size))),
            r ==> crate::heap::maximally_coalesced(final(self).heap.free_blocks@),
            !r ==> *final(self) == *old(self),
    {
        dealloc_checked(&mut self.heap, self.layout.heap_start, self.memory.size(), ptr, size)
    }

    /// Copies `len` bytes at `ptr` out of shared memory.
    pub fn read_mem(&self, ptr: i32, len: i32) -> (r: Result<Vec<u8>, HostError>)
        ensures
            in_bounds(ptr as int, len as int, self.memory@.len() as int) ==> r is Ok
                && r->Ok_0@ == self.memory@.subrange(ptr as int, ptr + len),
            !in_bounds(ptr as int, len as int, self.memory@.len() as int) ==> r == Err::<Vec<u8>, HostError>(HostError::OutOfBounds),
    {
        if ptr < 0 || len < 0 {
            return Err(HostError::OutOfBounds);
        }
        self.memory.read(ptr as u32, len as u32)
    }

    /// Writes `data` at `ptr` into shared memory.
    pub fn write_mem(&mut self, ptr: i32, data: &[u8]) -> (r: Result<(), HostError>)
        requires
            old(self).wf(),
        ensures
            final(self).wf(),
            final(self).layout == old(self).layout,
            final(self).heap == old(self).heap,
            final(self).registry == old(self).registry,
            in_bounds(ptr as int, data@.len() as int, old(self).memory@.len() as int) ==> r is Ok
                && final(self).memory@ == crate::memory::overwrite(old(self).memory@, ptr as int, data@),
            !in_bounds(ptr as int, data@.len() as int, old(self).memory@.len() as int)
                ==> r == Err::<(), HostError>(HostError::OutOfBounds) && final(self).memory@ == old(self).memory@,
    {
        if ptr < 0 {
            return Err(HostError::OutOfBounds);
        }
        self.memory.write(ptr as u32, data)
    }

    /// The bytes a module asks to print, or `None` when the range is out of bounds.
    pub fn host_print(&self, ptr: i32, len: i32) -> (r: Option<Vec<u8>>)
        ensures
            in_bounds(ptr as int, len as int, self.memory@.len() as int) ==> r is Some
                && r->0@ == self.memory@.subrange(ptr as int, ptr + len),
            !in_bounds(ptr as int, len as int, self.memory@.len() as int) ==> r is None,
    {
        match self.read_mem(ptr, len) {
            Ok(bytes) => Some(bytes),
            Err(_) => None,
        }
    }

    /// First loading step: reserves the module's slot and creates its private
    /// call table, sized as the module asks or by default.
    pub fn prepare_env(&mut self, requested_table: Option<u32>) -> (r: Result<PendingModule, HostError>)
        requires
            old(self).wf(),
        ensures
            final(self).wf(),
            final(self).heap == old(self).heap,
            final(self).memory == old(self).memory,
            final(self).registry.modules@ == old(self).registry.modules@,
            final(self).layout.slot_size == old(self).layout.slot_size,
            final(self).layout.heap_start == old(self).layout.heap_start,
            final(self).layout.max_plugins == old(self).layout.max_plugins,
            forall|t: int| 0 <= t < old(self).registry.tables@.len()
                ==> #[trigger] final(self).registry.tables@[t] == old(self).registry.tables@[t],
            old(self).layout.reserved < old(self).layout.max_plugins ==> r is Ok,
            old(self).layout.has_room() ==> {
                &&& r is Ok
                &&& final(self).layout.next_base == old(self).layout.next_base + old(self).layout.slot_size
                &&& r->Ok_0.slot == crate::layout::nth_slot(old(self).layout.slot_size as int, old(self).layout.reserved as int)
                &&& r->Ok_0.table == old(self).registry.tables@.len()
                &&& final(self).layout.reserved == old(self).layout.reserved + 1
                &&& final(self).registry.tables@.len() == old(self).registry.tables@.len() + 1
                &&& final(self).registry.tables@[r->Ok_0.table as int].entries@.len() == match requested_table {
                    Some(n) => n,
                    None => crate::registry::DEFAULT_TABLE_SIZE,
                }
            },
            !old(self).layout.has_room() ==> r == Err::<PendingModule, HostError>(HostError::SlotExhausted)
                && *final(self) == *old(self),
    {
        let slot = match self.layout.reserve_slot() {
            Ok(s) => s,
            Err(e) => return Err(e),
        };
        let size = table_size(requested_table);
        let table = self.registry.create_table(size);
        Ok(PendingModule { slot, table })
    }

    /// Last loading step, after the module's constructors and `init` ran:
    /// publishes it under `name` with its exports for later lookups.
    pub fn finish_load(&mut self, name: Vec<u8>, exports: Vec<Vec<u8>>, pending: PendingModule)
        requires
            old(self).wf(),
            pending.table < old(self).registry.tables@.len(),
        ensures
            final(self).wf(),
            final(self).heap == old(self).heap,
            final(self).memory == old(self).memory,
            final(self).layout == old(self).layout,
            final(self).registry.tables@ == old(self).registry.tables@,
            final(self).registry.modules@.len() == old(self).registry.modules@.len() + 1,
            forall|i: int| 0 <= i < old(self).registry.modules@.len()
                ==> #[trigger] final(self).registry.modules@[i] == old(self).registry.modules@[i],
            final(self).registry.modules@.last().name@ == name@,
            final(self).registry.modules@.last().exports@ == exports@,
            final(self).registry.modules@.last().slot == pending.slot,
            final(self).registry.modules@.last().table == pending.table,
    {
        self.registry.register(name, exports, pending.slot, pending.table);
    }

    /// Reads a (module, export) name pair out of shared memory and resolves it,
    /// as `call` and `fire_and_forget` do before invoking the export.
    pub fn resolve_call(&self, mod_ptr: i32, mod_len: i32, fn_ptr: i32, fn_len: i32) -> (r: Result<FuncRef, HostError>)
        ensures
            !in_bounds(mod_ptr as int, mod_len as int, self.memory@.len() as int)
                || !in_bounds(fn_ptr as int, fn_len as int, self.memory@.len() as int)
                ==> r == Err::<FuncRef, HostError>(HostError::OutOfBounds),
            in_bounds(mod_ptr as int, mod_len as int, self.memory@.len() as int)
                && in_bounds(fn_ptr as int, fn_len as int, self.memory@.len() as int)
                ==> resolution_ok(self.registry.modules@,
                    self.memory@.subrange(mod_ptr as int, mod_ptr + mod_len),
                    self.memory@.subrange(fn_ptr as int, fn_ptr + fn_len), r),
    {
        let module = match self.read_mem(mod_ptr, mod_len) {
            Ok(b) => b,
            Err(e) => return Err(e),
        };
        let export = match self.read_mem(fn_ptr, fn_len) {
            Ok(b) => b,
            Err(e) => return Err(e),
        };
        self.registry.get_func(module.as_slice(), export.as_slice())
    }

    /// `host_link_call` for the module that owns call table `caller`: reads the
    /// target module and export names out of shared memory, resolves them, and
    /// appends the export to the caller's own table. Returns the new index.
    pub fn host_link_call(&mut self, caller: usize, mod_ptr: i32, mod_len: i32, fn_ptr: i32, fn_len: i32) -> (r: Result<u32, HostError>)
        requires
            old(self).wf(),
            caller < old(self).registry.tables@.len(),
        ensures
            final(self).wf(),
            final(self).heap == old(self).heap,
            final(self).memory == old(self).memory,
            final(self).layout == old(self).layout,
            final(self).registry.modules@ == old(self).registry.modules@,
            final(self).registry.tables@.len() == old(self).registry.tables@.len(),
            forall|t: int| 0 <= t < old(self).registry.tables@.len() && t != caller
                ==> #[trigger] final(self).registry.tables@[t] == old(self).registry.tables@[t],
            !in_bounds(mod_ptr as int, mod_len as int, old(self).memory@.len() as int)
                || !in_bounds(fn_ptr as int, fn_len as int, old(self).memory@.len() as int)
                ==> r == Err::<u32, HostError>(HostError::OutOfBounds) && final(self).registry.tables@ == old(self).registry.tables@,
            in_bounds(mod_ptr as int, mod_len as int, old(self).memory@.len() as int)
                && in_bounds(fn_ptr as int, fn_len as int, old(self).memory@.len() as int) ==> ({
                let module = old(self).memory@.subrange(mod_ptr as int, mod_ptr + mod_len);
                let export = old(self).memory@.subrange(fn_ptr as int, fn_ptr + fn_len);
                let before = old(self).registry.tables@[caller as int].entries@;
                match r {
                    Ok(k) => {
                        &&& k == before.len()
                        &&& exists|f: FuncRef| {
                            &&& resolves_to(old(self).registry.modules@, module, export, f)
                            &&& #[trigger] final(self).registry.tables@[caller as int].entries@ == before.push(Some(crate::registry::Callee::Export(f)))
                        }
                    },
                    Err(HostError::TableFull) => before.len() >= u32::MAX
                        && (exists|f: FuncRef| resolves_to(old(self).registry.modules@, module, export, f))
                        && final(self).registry.tables@ == old(self).registry.tables@,
                    Err(e) => resolution_ok(old(self).registry.modules@, module, export, Err(e))
                        && final(self).registry.tables@ == old(self).registry.tables@,
                }
            }),
    {
        let module = match self.read_mem(mod_ptr, mod_len) {
            Ok(b) => b,
            Err(e) => return Err(e),
        };
        let export = match self.read_mem(fn_ptr, fn_len) {
            Ok(b) => b,
            Err(e) => return Err(e),
        };
        self.registry.host_link_call(caller, module.as_slice(), export.as_slice())
    }
}

/// What the first step of an allocation decided.
#[derive(Debug, Clone, Copy, PartialEq, Eq, Structural)]
pub enum AllocStep {
    /// The request is answered: an address, or 0 for a non-positive size.
    Done(i32),
    /// No free block fits `need` bytes: memory must grow by `pages` pages,
    /// and the new region, starting at `start`, goes to `alloc_after_growth`.
    Grow { start: u32, pages: u64, need: u32 },
}

/// The free list is well formed, 8-byte aligned, and inside `[heap_start, top)`.
pub open spec fn heap_ok(heap: HostHeap, heap_start: int, top: int) -> bool {
    &&& heap.wf()
    &&& blocks_aligned(heap.free_blocks@)
    &&& blocks_within(heap.free_blocks@, heap_start, top)
}

/// `host_dealloc` on a memory of `committed` bytes: returns
/// `[ptr, ptr + size)` (the size rounded up to 8) to the free list. A null,
/// unaligned or non-positive request, one outside the heap, or one that
/// overlaps free memory changes nothing and returns `false`.
pub fn dealloc_checked(heap: &mut HostHeap, heap_start: u32, committed: u64, ptr: i32, size: i32) -> (r: bool)
    requires
        heap_ok(*old(heap), heap_start as int, committed as int),
    ensures
        heap_ok(*final(heap), heap_start as int, committed as int),
        r == (ptr > 0 && size > 0 && ptr % 8 == 0 && heap_start <= ptr && ptr + request_size(size) <= committed
            && crate::heap::disjoint_from_blocks(old(heap).free_blocks@, ptr as int, request_size(size))),
        r ==> final(heap).free() == old(heap).free().union(range_set(ptr as int, request_size(size))),
        r ==> crate::heap::maximally_coalesced(final(heap).free_blocks@),
        !r ==> *final(heap) == *old(heap),
{
    if ptr <= 0 || size <= 0 || ptr % 8 != 0 {
        return false;
    }
    let need = align8(size as u32);
    let p = ptr as u32;
    if p < heap_start || p as u64 + need as u64 > committed {
        return false;
    }
    if !range_is_unused(heap, p, need) {
        return false;
    }
    heap.dealloc(p, need);
    true
}

/// Whether `[ptr, ptr + size)` overlaps no free block.
fn range_is_unused(heap: &HostHeap, ptr: u32, size: u32) -> (r: bool)
    ensures
        r == crate::heap::disjoint_from_blocks(heap.free_blocks@, ptr as int, size as int),
{
    let mut i: usize = 0;
    while i < heap.free_blocks.len()
        invariant
            i <= heap.free_blocks@.len(),
            forall|j: int| 0 <= j < i ==> crate::heap::ranges_disjoint(ptr as int, size as int,
                (#[trigger] heap.free_blocks@[j]).addr as int, heap.free_blocks@[j].size as int),
        decreases heap.free_blocks@.len() - i,
    {
        let b = heap.free_blocks[i];
        if !(ptr as u64 + size as u64 <= b.addr as u64 || b.addr as u64 + b.size as u64 <= ptr as u64) {
            return false;
        }
        i = i + 1;
    }
    true
}

/// First step of `host_alloc` on a memory of `committed` bytes: serve the
/// request first-fit from the free list, or say how memory must grow.
pub fn alloc_begin(heap: &mut HostHeap, heap_start: u32, committed: u64, size: i32) -> (r: AllocStep)
    requires
        heap_ok(*old(heap), heap_start as int, committed as int),
        heap_start <= committed <= max_bytes(),
    ensures
        heap_ok(*final(heap), heap_start as int, committed as int),
        size <= 0 ==> r == AllocStep::Done(0) && *final(heap) == *old(heap),
        size > 0 && has_fit(old(heap).free_blocks@, request_size(size)) ==> exists|i: int| {
            &&& is_first_fit(old(heap).free_blocks@, request_size(size), i)
            &&& r == AllocStep::Done(old(heap).free_blocks@[i].addr as i32)
            &&& final(heap).free_blocks@ == take_from(old(heap).free_blocks@, i, request_size(size))
        },
        size > 0 && !has_fit(old(heap).free_blocks@, request_size(size)) ==> {
            &&& r == AllocStep::Grow {
                start: spec_growth_start(old(heap).free_blocks@.len() == 0, committed as int, heap_start as int) as u32,
                pages: spec_growth_pages(request_size(size)) as u64,
                need: request_size(size) as u32,
            }
            &&& final(heap).free_blocks@ == old(heap).free_blocks@
        },
        match r {
            AllocStep::Done(a) => a != 0 ==> {
            &&& a > 0
            &&& a % 8 == 0
            &&& a + request_size(size) <= committed
            &&& !final(heap).free().contains(a as int)
            &&& range_set(a as int, request_size(size)).subset_of(old(heap).free())
            &&& final(heap).free() == old(heap).free().difference(range_set(a as int, request_size(size)))
            },
            AllocStep::Grow { start, pages, need } => {
            &&& start == committed
            &&& need == request_size(size)
            &&& 0 < need <= pages * PAGE_SIZE
            &&& need % 8 == 0
            },
        },
{
    if size <= 0 {
        return AllocStep::Done(0);
    }
    let need = align8(size as u32);
    let ghost old_blocks = heap.free_blocks@;
    match heap.allocate(need) {
        Some(addr) => {
            proof {
                let i = choose|i: int| {
                    &&& is_first_fit(old_blocks, need as int, i)
                    &&& addr == old_blocks[i].addr
                    &&& heap.free_blocks@ == take_from(old_blocks, i, need as int)
                };
                lemma_take_shape(old_blocks, i, need as int, heap_start as int, committed as int);
                lemma_first_fit_exists(old_blocks, need as int, i);
                assert(in_block(old_blocks[i], addr as int));
                assert(!heap.free().contains(addr as int));
            }
            AllocStep::Done(addr as i32)
        },
        None => {
            let start = growth_start(heap.free_blocks.len() == 0, committed, heap_start);
            let pages = growth_pages(need);
            AllocStep::Grow { start: start as u32, pages, need }
        },
    }
}

/// Second step of `host_alloc`, once memory grew by `pages` pages from its old
/// top `start`: registers the new region as free and serves `need` bytes.
pub fn alloc_after_growth(heap: &mut HostHeap, heap_start: u32, start: u32, pages: u64, need: u32) -> (r: i32)
    requires
        heap_ok(*old(heap), heap_start as int, start as int),
        0 < heap_start <= start,
        start % 8 == 0,
        start + pages * PAGE_SIZE <= max_bytes(),
        0 < need <= pages * PAGE_SIZE,
        need % 8 == 0,
    ensures
        heap_ok(*final(heap), heap_start as int, start + pages * PAGE_SIZE),
        r > 0,
        r % 8 == 0,
        r + need <= start + pages * PAGE_SIZE,
        !final(heap).free().contains(r as int),
        exists|mid: Seq<FreeBlock>, i: int| {
            &&& sorted_separated(mid)
            &&& free_set(mid) == free_set(old(heap).free_blocks@).union(range_set(start as int, pages * PAGE_SIZE))
            &&& is_first_fit(mid, need as int, i)
            &&& r == mid[i].addr
            &&& #[trigger] take_from(mid, i, need as int) == final(heap).free_blocks@
        },
        range_set(r as int, need as int).subset_of(old(heap).free().union(range_set(start as int, pages * PAGE_SIZE))),
        final(heap).free() == old(heap).free().union(range_set(start as int, pages * PAGE_SIZE)).difference(range_set(r as int, need as int)),
        !has_fit(old(heap).free_blocks@, need as int)
            && (forall|j: int| 0 <= j < old(heap).free_blocks@.len() ==> end_of(#[trigger] old(heap).free_blocks@[j]) != start)
            ==> start <= r && r + need <= start + pages * PAGE_SIZE,
{
    let ghost old_blocks = heap.free_blocks@;
    let block = (pages * 65536) as u32;
    proof {
        assert forall|j: int| 0 <= j < old_blocks.len() implies
            crate::heap::ranges_disjoint(start as int, block as int, (#[trigger] old_blocks[j]).addr as int, old_blocks[j].size as int) by {
        }
        assert(blocks_within(old_blocks, heap_start as int, start + pages * PAGE_SIZE));
    }
    heap.dealloc(start, block);
    let ghost mid = heap.free_blocks@;
    proof {
        assert(range_set(start as int, need as int).subset_of(free_set(mid)));
        lemma_contiguous_fit(mid, start as int, need as int);
    }
    match heap.allocate(need) {
        Some(addr) => {
            proof {
                let i = choose|i: int| {
                    &&& is_first_fit(mid, need as int, i)
                    &&& addr == mid[i].addr
                    &&& heap.free_blocks@ == take_from(mid, i, need as int)
                };
                lemma_take_shape(mid, i, need as int, heap_start as int, start + pages * PAGE_SIZE);
                assert(in_block(mid[i], addr as int));
                assert(!heap.free().contains(addr as int));
                if !has_fit(old_blocks, need as int) && forall|j: int| 0 <= j < old_blocks.len() ==> end_of(#[trigger] old_blocks[j]) != start {
                    assert(blocks_within(old_blocks, 0, start as int));
                    lemma_growth_grant_inside(old_blocks, start as int, block as int, need as int, addr as int);
                }
            }
            addr as i32
        },
        None => {
            0
        },
    }
}

proof fn lemma_take_shape(s: Seq<FreeBlock>, i: int, size: int, lo: int, hi: int)
    requires
        sorted_separated(s),
        is_first_fit(s, size, i),
        size > 0,
        size % 8 == 0,
        blocks_aligned(s),
        blocks_within(s, lo, hi),
    ensures
        blocks_aligned(take_from(s, i, size)),
        blocks_within(take_from(s, i, size), lo, hi),
        s[i].addr % 8 == 0,
        lo <= s[i].addr,
        s[i].addr + size <= hi,
{
    let t = take_from(s, i, size);
    assert(end_of(s[i]) <= u32::MAX);
    if s[i].size == size {
        assert forall|j: int| 0 <= j < t.len() implies (#[trigger] t[j]).addr % 8 == 0 && t[j].size % 8 == 0 by {
            if j >= i {
                assert(t[j] == s[j + 1]);
            }
        }
        assert forall|j: int| 0 <= j < t.len() implies lo <= (#[trigger] t[j]).addr && end_of(t[j]) <= hi by {
            if j >= i {
                assert(t[j] == s[j + 1]);
            }
        }
    } else {
        assert forall|j: int| 0 <= j < t.len() implies (#[trigger] t[j]).addr % 8 == 0 && t[j].size % 8 == 0 by {
            if j != i {
                assert(t[j] == s[j]);
            }
        }
        assert forall|j: int| 0 <= j < t.len() implies lo <= (#[trigger] t[j]).addr && end_of(t[j]) <= hi by {
            if j != i {
                assert(t[j] == s[j]);
            }
        }
    }
}

proof fn lemma_first_fit_exists(s: Seq<FreeBlock>, size: int, i: int)
    requires
        is_first_fit(s, size, i),
    ensures
        has_fit(s, size),
{
    assert(s[i].size >= size);
}

/// The end of a block of a separated list is not free.
proof fn lemma_end_not_free(s: Seq<FreeBlock>, i: int)
    requires
        sorted_separated(s),
        0 <= i < s.len(),
    ensures
        !covers(s, end_of(s[i])),
{
    if covers(s, end_of(s[i])) {
        let k = choose|k: int| 0 <= k < s.len() && #[trigger] in_block(s[k], end_of(s[i]));
        if k < i {
            assert(end_of(s[k]) < s[i].addr);
        } else if k > i {
            assert(end_of(s[i]) < s[k].addr);
        }
    }
}

/// A free range of `n` bytes in a separated list lies inside one block, which
/// is then at least `n` bytes long.
proof fn lemma_contiguous_fit(s: Seq<FreeBlock>, x: int, n: int)
    requires
        sorted_separated(s),
        n > 0,
        range_set(x, n).subset_of(free_set(s)),
    ensures
        has_fit(s, n),
{
    assert(range_set(x, n).contains(x));
    let j = choose|j: int| 0 <= j < s.len() && #[trigger] in_block(s[j], x);
    if end_of(s[j]) < x + n {
        assert(range_set(x, n).contains(end_of(s[j])));
        lemma_end_not_free(s, j);
    }
    assert(s[j].size >= n);
}

/// When a request is served right after growth, and no free block reached the
/// old top of memory, the whole grant lies inside the grown region.
pub proof fn lemma_growth_grant_inside(old_blocks: Seq<FreeBlock>, top: int, grown: int, size: int, r: int)
    requires
        sorted_separated(old_blocks),
        blocks_within(old_blocks, 0, top),
        !has_fit(old_blocks, size),
        forall|j: int| 0 <= j < old_blocks.len() ==> end_of(#[trigger] old_blocks[j]) != top,
        size > 0,
        range_set(r, size).subset_of(free_set(old_blocks).union(range_set(top, grown))),
    ensures
        top <= r,
        r + size <= top + grown,
{
    assert(range_set(r, size).contains(r));
    if r < top {
        assert(covers(old_blocks, r));
        let b = choose|b: int| 0 <= b < old_blocks.len() && #[trigger] in_block(old_blocks[b], r);
        let e = end_of(old_blocks[b]);
        if r + size <= e {
            assert(old_blocks[b].size >= size);
        } else {
            assert(range_set(r, size).contains(e));
            lemma_end_not_free(old_blocks, b);
            assert(!free_set(old_blocks).contains(e));
        }
    }
    assert(range_set(r, size).contains(r + size - 1));
    if r + size - 1 >= top + grown {
        if covers(old_blocks, r + size - 1) {
            let b = choose|b: int| 0 <= b < old_blocks.len() && #[trigger] in_block(old_blocks[b], r + size - 1);
        }
    }
}

/// Live allocations `(addr, size)` overlap neither each other nor any free address.
pub open spec fn live_disjoint(live: Seq<(int, int)>, free: Set<int>) -> bool {
    &&& forall|i: int| 0 <= i < live.len() ==> (#[trigger] live[i]).1 > 0
    &&& forall|i: int, j: int| 0 <= i < j < live.len()
        ==> crate::heap::ranges_disjoint((#[trigger] live[i]).0, live[i].1, (#[trigger] live[j]).0, live[j].1)
    &&& forall|i: int, a: int| 0 <= i < live.len() && #[trigger] range_set(live[i].0, live[i].1).contains(a)
        ==> !free.contains(a)
}

/// Serving a request keeps live allocations apart: the grant came out of free
/// memory (the old free addresses plus any fresh region that no live allocation
/// touches) and leaves it, so it overlaps no earlier live allocation.
pub proof fn lemma_alloc_keeps_live_disjoint(
    live: Seq<(int, int)>,
    free_before: Set<int>,
    fresh: Set<int>,
    free_after: Set<int>,
    r: int,
    n: int,
)
    requires
        live_disjoint(live, free_before),
        forall|i: int, a: int| 0 <= i < live.len() && #[trigger] range_set(live[i].0, live[i].1).contains(a)
            ==> !fresh.contains(a),
        range_set(r, n).subset_of(free_before.union(fresh)),
        free_after == free_before.union(fresh).difference(range_set(r, n)),
        n > 0,
    ensures
        live_disjoint(live.push((r, n)), free_after),
{
    let l2 = live.push((r, n));
    assert forall|i: int| 0 <= i < l2.len() implies (#[trigger] l2[i]).1 > 0 by {
        if i < live.len() {
            assert(l2[i] == live[i]);
        }
    }
    assert forall|i: int, j: int| 0 <= i < j < l2.len()
        implies crate::heap::ranges_disjoint((#[trigger] l2[i]).0, l2[i].1, (#[trigger] l2[j]).0, l2[j].1) by {
        if j == live.len() {
            assert(l2[i] == live[i]);
            if !crate::heap::ranges_disjoint(live[i].0, live[i].1, r, n) {
                let a = if live[i].0 <= r { r } else { live[i].0 };
                assert(range_set(live[i].0, live[i].1).contains(a));
                assert(range_set(r, n).contains(a));
            }
        } else {
            assert(l2[i] == live[i] && l2[j] == live[j]);
        }
    }
    assert forall|i: int, a: int| 0 <= i < l2.len() && #[trigger] range_set(l2[i].0, l2[i].1).contains(a)
        implies !free_after.contains(a) by {
        if i < live.len() {
            assert(l2[i] == live[i]);
        }
    }
}

/// Returning a live allocation to the heap keeps the remaining live
/// allocations apart from each other and from the free addresses.
pub proof fn lemma_dealloc_keeps_live_disjoint(live: Seq<(int, int)>, free_before: Set<int>, free_after: Set<int>, k: int)
    requires
        live_disjoint(live, free_before),
        0 <= k < live.len(),
        free_after == free_before.union(range_set(live[k].0, live[k].1)),
    ensures
        live_disjoint(live.remove(k), free_after),
{
    let l2 = live.remove(k);
    assert forall|i: int| 0 <= i < l2.len() implies (#[trigger] l2[i]).1 > 0 by {
        let oi = if i < k { i } else { i + 1 };
        assert(l2[i] == live[oi]);
    }
    assert forall|i: int, j: int| 0 <= i < j < l2.len()
        implies crate::heap::ranges_disjoint((#[trigger] l2[i]).0, l2[i].1, (#[trigger] l2[j]).0, l2[j].1) by {
        let oi = if i < k { i } else { i + 1 };
        let oj = if j < k { j } else { j + 1 };
        assert(l2[i] == live[oi] && l2[j] == live[oj]);
    }
    assert forall|i: int, a: int| 0 <= i < l2.len() && #[trigger] range_set(l2[i].0, l2[i].1).contains(a)
        implies !free_after.contains(a) by {
        let oi = if i < k { i } else { i + 1 };
        assert(l2[i] == live[oi]);
        assert(range_set(live[oi].0, live[oi].1).contains(a));
        if range_set(live[k].0, live[k].1).contains(a) {
            let (x, y) = if oi < k { (oi, k) } else { (k, oi) };
            assert(crate::heap::ranges_disjoint(live[x].0, live[x].1, live[y].0, live[y].1));
        }
    }
}

/// Bytes written at an address that `host_alloc(n)` returned, `n` of them,
/// fit in committed memory and read back unchanged.
pub proof fn lemma_alloc_write_read(mem: Seq<u8>, r: int, n: i32, data: Seq<u8>)
    requires
        r > 0,
        n > 0,
        r + request_size(n) <= mem.len(),
        data.len() == n,
    ensures
        in_bounds(r, n as int, mem.len() as int),
        crate::memory::overwrite(mem, r, data).subrange(r, r + n) == data,
        crate::memory::overwrite(mem, r, data).len() == mem.len(),
{
    crate::layout::lemma_ceil_at_least(n as int, 8);
    crate::memory::lemma_write_read_round_trip(mem, r, data);
}

/// One step of a run of the heap, from live allocations `live0`, free
/// addresses `free0` and top of memory `top0` to `live1`, `free1`, `top1`:
/// either a grant of `[addr, addr + size)` taken from free memory or from the
/// region that growth added, or the return of live allocation `index`. These
/// are the relations that `host_alloc` and `host_dealloc` guarantee.
pub open spec fn heap_step(
    live0: Seq<(int, int)>,
    free0: Set<int>,
    top0: int,
    live1: Seq<(int, int)>,
    free1: Set<int>,
    top1: int,
    is_alloc: bool,
    addr: int,
    size: int,
    index: int,
) -> bool {
    if is_alloc {
        &&& size > 0
        &&& top0 <= top1
        &&& addr + size <= top1
        &&& range_set(addr, size).subset_of(free0.union(range_set(top0, top1 - top0)))
        &&& free1 == free0.union(range_set(top0, top1 - top0)).difference(range_set(addr, size))
        &&& live1 == live0.push((addr, size))
    } else {
        &&& 0 <= index < live0.len()
        &&& top1 == top0
        &&& free1 == free0.union(range_set(live0[index].0, live0[index].1))
        &&& live1 == live0.remove(index)
    }
}

/// Live allocations are apart from each other and from free memory, and
/// everything lies below the top of memory.
pub open spec fn heap_run_ok(live: Seq<(int, int)>, free: Set<int>, top: int) -> bool {
    &&& live_disjoint(live, free)
    &&& forall|a: int| #[trigger] free.contains(a) ==> a < top
    &&& forall|i: int| 0 <= i < live.len() ==> (#[trigger] live[i]).0 + live[i].1 <= top
}

proof fn lemma_heap_step_ok(
    live0: Seq<(int, int)>,
    free0: Set<int>,
    top0: int,
    live1: Seq<(int, int)>,
    free1: Set<int>,
    top1: int,
    is_alloc: bool,
    addr: int,
    size: int,
    index: int,
)
    requires
        heap_run_ok(live0, free0, top0),
        heap_step(live0, free0, top0, live1, free1, top1, is_alloc, addr, size, index),
    ensures
        heap_run_ok(live1, free1, top1),
{
    if is_alloc {
        let fresh = range_set(top0, top1 - top0);
        assert forall|i: int, a: int| 0 <= i < live0.len() && #[trigger] range_set(live0[i].0, live0[i].1).contains(a)
            implies !fresh.contains(a) by {
            assert(live0[i].0 + live0[i].1 <= top0);
        }
        lemma_alloc_keeps_live_disjoint(live0, free0, fresh, free1, addr, size);
        assert forall|i: int| 0 <= i < live1.len() implies (#[trigger] live1[i]).0 + live1[i].1 <= top1 by {
            if i < live0.len() {
                assert(live1[i] == live0[i]);
            }
        }
    } else {
        lemma_dealloc_keeps_live_disjoint(live0, free0, free1, index);
        assert forall|a: int| #[trigger] free1.contains(a) implies a < top1 by {
            if !free0.contains(a) {
                assert(range_set(live0[index].0, live0[index].1).contains(a));
            }
        }
        assert forall|i: int| 0 <= i < live1.len() implies (#[trigger] live1[i]).0 + live1[i].1 <= top1 by {
            let oi = if i < index { i } else { i + 1 };
            assert(live1[i] == live0[oi]);
        }
    }
}

/// For any interleaving of grants and returns, no two live allocations ever
/// overlap, and none overlaps free memory: step `i` of the run takes state `i`
/// to state `i + 1`, and every state of the run keeps its allocations apart.
pub proof fn lemma_heap_run_live_disjoint(
    lives: Seq<Seq<(int, int)>>,
    frees: Seq<Set<int>>,
    tops: Seq<int>,
    is_alloc: Seq<bool>,
    addrs: Seq<int>,
    sizes: Seq<int>,
    indices: Seq<int>,
)
    requires
        lives.len() == frees.len() == tops.len() == is_alloc.len() + 1,
        addrs.len() == sizes.len() == indices.len() == is_alloc.len(),
        heap_run_ok(lives[0], frees[0], tops[0]),
        forall|i: int| 0 <= i < is_alloc.len() ==> #[trigger] heap_step(
            lives[i], frees[i], tops[i], lives[i + 1], frees[i + 1], tops[i + 1],
            is_alloc[i], addrs[i], sizes[i], indices[i]),
    ensures
        forall|i: int| 0 <= i < lives.len() ==> #[trigger] live_disjoint(lives[i], frees[i]),
    decreases is_alloc.len(),
{
    let n = is_alloc.len() as int;
    if n > 0 {
        lemma_heap_run_live_disjoint(
            lives.drop_last(), frees.drop_last(), tops.drop_last(),
            is_alloc.drop_last(), addrs.drop_last(), sizes.drop_last(), indices.drop_last());
        lemma_heap_run_prefix_ok(lives, frees, tops, is_alloc, addrs, sizes, indices, n - 1);
        lemma_heap_step_ok(lives[n - 1], frees[n - 1], tops[n - 1], lives[n], frees[n], tops[n],
            is_alloc[n - 1], addrs[n - 1], sizes[n - 1], indices[n - 1]);
        assert forall|i: int| 0 <= i < lives.len() implies #[trigger] live_disjoint(lives[i], frees[i]) by {
            if i < n {
                assert(lives.drop_last()[i] == lives[i]);
                assert(frees.drop_last()[i] == frees[i]);
            }
        }
    }
}

proof fn lemma_heap_run_prefix_ok(
    lives: Seq<Seq<(int, int)>>,
    frees: Seq<Set<int>>,
    tops: Seq<int>,
    is_alloc: Seq<bool>,
    addrs: Seq<int>,
    sizes: Seq<int>,
    indices: Seq<int>,
    k: int,
)
    requires
        lives.len() == frees.len() == tops.len() == is_alloc.len() + 1,
        addrs.len() == sizes.len() == indices.len() == is_alloc.len(),
        heap_run_ok(lives[0], frees[0], tops[0]),
        forall|i: int| 0 <= i < is_alloc.len() ==> #[trigger] heap_step(
            lives[i], frees[i], tops[i], lives[i + 1], frees[i + 1], tops[i + 1],
            is_alloc[i], addrs[i], sizes[i], indices[i]),
        0 <= k <= is_alloc.len(),
    ensures
        heap_run_ok(lives[k], frees[k], tops[k]),
    decreases k,
{
    if k > 0 {
        lemma_heap_run_prefix_ok(lives, frees, tops, is_alloc, addrs, sizes, indices, k - 1);
        let j = k - 1;
        assert(heap_step(lives[j], frees[j], tops[j], lives[j + 1], frees[j + 1], tops[j + 1],
            is_alloc[j], addrs[j], sizes[j], indices[j]));
        lemma_heap_step_ok(lives[k - 1], frees[k - 1], tops[k - 1], lives[k], frees[k], tops[k],
            is_alloc[k - 1], addrs[k - 1], sizes[k - 1], indices[k - 1]);
    }
}

} // verus!
