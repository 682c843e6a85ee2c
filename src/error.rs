//! Failures that the host reports to the embedder or to a calling module.
use vstd::prelude::*;

verus! {

/// Why a host operation failed.
#[derive(Debug, Clone, Copy, PartialEq, Eq, Structural)]
pub enum HostError {
    /// No module slot is left below the heap.
    SlotExhausted,
    /// No loaded module has the requested name.
    ModuleNotFound,
    /// The module has no export of the requested name.
    ExportNotFound,
    /// A byte range reaches past the committed memory.
    OutOfBounds,
    /// A call table cannot take another entry.
    TableFull,
}

} // verus!
