//! A bounds-checked view of the committed shared linear memory.
use vstd::prelude::*;
use crate::error::HostError;
use crate::layout::{MAX_PAGES, PAGE_SIZE};

verus! {

/// The committed bytes of the shared memory. Every access names an offset and
/// a length and is checked against the committed size before it touches a byte.
pub struct MemoryView {
    bytes: Vec<u8>,
}

/// Whether `[offset, offset + len)` lies inside `size` committed bytes.
pub open spec fn in_bounds(offset: int, len: int, size: int) -> bool {
    0 <= offset && 0 <= len && offset + len <= size
}

/// `mem` with the bytes from `offset` on replaced by `data`.
pub open spec fn overwrite(mem: Seq<u8>, offset: int, data: Seq<u8>) -> Seq<u8> {
    mem.subrange(0, offset) + data + mem.subrange(offset + data.len(), mem.len() as int)
}

/// Whether `[offset, offset + len)` lies inside `size` committed bytes.
pub fn range_in_bounds(offset: i32, len: i32, size: u64) -> (r: bool)
    ensures
        r == in_bounds(offset as int, len as int, size as int),
{
    offset >= 0 && len >= 0 && offset as u64 + len as u64 <= size
}

impl MemoryView {
    /// The committed bytes.
    pub closed spec fn view(&self) -> Seq<u8> {
        self.bytes@
    }

    /// A whole number of pages, never more than the maximum.
    pub open spec fn wf(&self) -> bool {
        &&& self@.len() as int % (PAGE_SIZE as int) == 0
        &&& self@.len() <= MAX_PAGES * PAGE_SIZE
    }

    /// A memory of `pages` zeroed pages.
    pub fn new(pages: u32) -> (r: Self)
        requires
            pages <= MAX_PAGES,
        ensures
            r.wf(),
            r@ == Seq::new((pages * PAGE_SIZE) as nat, |i: int| 0u8),
    {
        let total: usize = pages as usize * 65536;
        let mut bytes: Vec<u8> = Vec::new();
        while bytes.len() < total
            invariant
                bytes@.len() <= total,
                total == pages * PAGE_SIZE,
                forall|i: int| 0 <= i < bytes@.len() ==> bytes@[i] == 0u8,
            decreases total - bytes@.len(),
        {
            bytes.push(0u8);
        }
        let r = MemoryView { bytes };
        assert(r@ =~= Seq::new((pages * PAGE_SIZE) as nat, |i: int| 0u8));
        r
    }

    /// Committed size in bytes.
    pub fn size(&self) -> (r: u64)
        ensures
            r == self@.len(),
    {
        self.bytes.len() as u64
    }

    /// Committed size in pages.
    pub fn pages(&self) -> (r: u64)
        requires
            self.wf(),
        ensures
            r * PAGE_SIZE == self@.len(),
    {
        self.bytes.len() as u64 / 65536
    }

    /// Commits `delta` more zeroed pages and returns the previous size in pages,
    /// or fails, changing nothing, when the maximum would be passed.
    pub fn grow(&mut self, delta: u64) -> (r: Option<u64>)
        requires
            old(self).wf(),
        ensures
            final(self).wf(),
            old(self)@.len() + delta * PAGE_SIZE <= MAX_PAGES * PAGE_SIZE ==> r == Some((old(self)@.len() as int / PAGE_SIZE as int) as u64)
                && final(self)@ == old(self)@ + Seq::new((delta * PAGE_SIZE) as nat, |i: int| 0u8),
            old(self)@.len() + delta * PAGE_SIZE > MAX_PAGES * PAGE_SIZE ==> r is None && final(self)@ == old(self)@,
    {
        let prev = self.bytes.len() as u64 / 65536;
        if delta > MAX_PAGES - prev {
            return None;
        }
        let target: usize = self.bytes.len() + delta as usize * 65536;
        let ghost before = self.bytes@;
        while self.bytes.len() < target
            invariant
                before.len() <= self.bytes@.len() <= target,
                target == before.len() + delta * PAGE_SIZE,
                target <= MAX_PAGES * PAGE_SIZE,
                forall|i: int| 0 <= i < before.len() ==> self.bytes@[i] == before[i],
                forall|i: int| before.len() <= i < self.bytes@.len() ==> self.bytes@[i] == 0u8,
            decreases target - self.bytes@.len(),
        {
            self.bytes.push(0u8);
        }
        assert(self@ =~= before + Seq::new((delta * PAGE_SIZE) as nat, |i: int| 0u8));
        Some(prev)
    }

    /// Copies `len` bytes starting at `offset`.
    pub fn read(&self, offset: u32, len: u32) -> (r: Result<Vec<u8>, HostError>)
        ensures
            in_bounds(offset as int, len as int, self@.len() as int) ==> r is Ok
                && r->Ok_0@ == self@.subrange(offset as int, offset + len),
            !in_bounds(offset as int, len as int, self@.len() as int) ==> r == Err::<Vec<u8>, HostError>(HostError::OutOfBounds),
    {
        if offset as u64 + len as u64 > self.bytes.len() as u64 {
            return Err(HostError::OutOfBounds);
        }
        let mut out: Vec<u8> = Vec::new();
        let mut i: usize = offset as usize;
        let end: usize = offset as usize + len as usize;
        while i < end
            invariant
                offset <= i <= end,
                end == offset + len,
                end <= self.bytes@.len(),
                out@ == self.bytes@.subrange(offset as int, i as int),
            decreases end - i,
        {
            out.push(self.bytes[i]);
            i = i + 1;
            assert(out@ =~= self.bytes@.subrange(offset as int, i as int));
        }
        Ok(out)
    }

    /// Overwrites the bytes starting at `offset` with `data`.
    pub fn write(&mut self, offset: u32, data: &[u8]) -> (r: Result<(), HostError>)
        ensures
            final(self)@.len() == old(self)@.len(),
            in_bounds(offset as int, data@.len() as int, old(self)@.len() as int) ==> r is Ok
                && final(self)@ == overwrite(old(self)@, offset as int, data@),
            !in_bounds(offset as int, data@.len() as int, old(self)@.len() as int) ==> r == Err::<(), HostError>(HostError::OutOfBounds) && final(self)@ == old(self)@,
    {
        let size: usize = self.bytes.len();
        if data.len() > size || offset as usize > size - data.len() {
            return Err(HostError::OutOfBounds);
        }
        let mut j: usize = 0;
        let ghost before = self.bytes@;
        while j < data.len()
            invariant
                size == before.len(),
                offset + data@.len() <= before.len(),
                self.bytes@.len() == before.len(),
                j <= data@.len(),
                forall|i: int| 0 <= i < offset ==> self.bytes@[i] == before[i],
                forall|i: int| 0 <= i < j ==> self.bytes@[offset + i] == data@[i],
                forall|i: int| offset + j <= i < before.len() ==> self.bytes@[i] == before[i],
            decreases data@.len() - j,
        {
            self.bytes.set(offset as usize + j, data[j]);
            j = j + 1;
        }
        assert(self@ =~= overwrite(before, offset as int, data@));
        Ok(())
    }
}

/// Bytes written inside the committed memory read back unchanged, and the
/// write leaves the memory's size as it was.
pub proof fn lemma_write_read_round_trip(mem: Seq<u8>, offset: int, data: Seq<u8>)
    requires
        in_bounds(offset, data.len() as int, mem.len() as int),
    ensures
        overwrite(mem, offset, data).len() == mem.len(),
        overwrite(mem, offset, data).subrange(offset, offset + data.len()) == data,
{
    assert(overwrite(mem, offset, data).subrange(offset, offset + data.len()) =~= data);
}

} // verus!
