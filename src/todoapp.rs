//! Fixed-size task records of the todo application.
use vstd::prelude::*;

verus! {

/// A title of at most 100 bytes.
pub struct VarChar100(pub [u8; 100]);

/// How urgent a task is.
#[derive(Debug, Clone, Copy, PartialEq, Eq, Structural)]
pub enum Priority {
    Low,
    Regular,
    Urgent,
}

/// A task record of fixed size.
pub struct Task {
    pub title: VarChar100,
    pub id: u32,
    pub pending: bool,
    pub priority: Priority,
}

} // verus!
