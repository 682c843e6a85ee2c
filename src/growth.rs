//! Sizing rules of the heap: request rounding and memory growth.
use vstd::prelude::*;
use crate::layout::{ceil_to, PAGE_SIZE};

verus! {

/// Least number of pages the heap grows by at a time.
pub const GROWTH_CHUNK_PAGES: u64 = 80;

/// `size` rounded up to a multiple of eight.
pub fn align8(size: u32) -> (r: u32)
    requires
        size <= u32::MAX - 7,
    ensures
        r == ceil_to(size as int, 8),
        r % 8 == 0,
        size <= r < size + 8,
{
    (size + 7) / 8 * 8
}

/// Pages to grow by for a request of `size` bytes.
pub open spec fn spec_growth_pages(size: int) -> int {
    if GROWTH_CHUNK_PAGES >= ceil_to(size, PAGE_SIZE as int) / (PAGE_SIZE as int) {
        GROWTH_CHUNK_PAGES as int
    } else {
        ceil_to(size, PAGE_SIZE as int) / (PAGE_SIZE as int)
    }
}

/// Where a new heap region starts: at the heap start while the free list is
/// empty and memory ends below it, otherwise at the top of memory.
pub open spec fn spec_growth_start(free_empty: bool, committed: int, heap_start: int) -> int {
    if free_empty && committed < heap_start {
        heap_start
    } else {
        committed
    }
}

/// The larger of the growth chunk and the pages `size` bytes need.
pub fn growth_pages(size: u32) -> (r: u64)
    ensures
        r == spec_growth_pages(size as int),
        r >= GROWTH_CHUNK_PAGES,
        r * PAGE_SIZE >= size,
{
    let need = (size as u64 + 65535) / 65536;
    if GROWTH_CHUNK_PAGES >= need {
        GROWTH_CHUNK_PAGES
    } else {
        need
    }
}

/// First address of the region that a growth adds to the heap.
pub fn growth_start(free_empty: bool, committed: u64, heap_start: u32) -> (r: u64)
    ensures
        r == spec_growth_start(free_empty, committed as int, heap_start as int),
{
    if free_empty && committed < heap_start as u64 {
        heap_start as u64
    } else {
        committed
    }
}

} // verus!
