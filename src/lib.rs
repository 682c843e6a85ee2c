//! Host runtime for several WebAssembly modules sharing one linear memory.
//!
//! The memory is split into one slot per module (`layout`) and a heap above
//! the slots, served first-fit from a coalesced free list (`heap`) that grows
//! with memory (`growth`). Loaded modules are kept by name with a private call
//! table each (`registry`); a module asks the host to resolve another module's
//! export at run time and gets an index into its own table.
//!
//! `runtime` holds the host-call operations in two forms. `alloc_begin`,
//! `alloc_after_growth` and `dealloc_checked` work on the free list alone and
//! leave committing memory to the caller: an embedder runs them against the
//! engine's own shared memory. `HostState` is a self-contained host that runs
//! the same steps against a `MemoryView` (`memory`), a bounds-checked byte
//! buffer standing for the shared memory. `abi` packs (offset, length) pairs
//! into one 64-bit value.
//!
//! The remaining modules hold what the guests that run on this host share
//! with it or with each other: plain message types (`protocol`, `todoapp`),
//! a guest's system registry (`app`), the task store of the task application
//! (`tasks`), and the board logic of the minesweeper guest (`game`).
pub mod abi;
pub mod app;
pub mod error;
pub mod game;
pub mod growth;
pub mod heap;
pub mod layout;
pub mod memory;
pub mod protocol;
pub mod registry;
pub mod runtime;
pub mod tasks;
pub mod todoapp;
