//! A guest's systems, registered per schedule.
use vstd::prelude::*;

verus! {

/// When a system runs: once at startup, or on every update.
#[derive(Debug, Clone, Copy, PartialEq, Eq, Structural)]
pub enum Schedule {
    Startup,
    Update,
}

/// The systems of a guest, in registration order. A system is any value of
/// type `F`; a guest uses plain functions, `App<fn()>`.
pub struct App<F> {
    pub startup: Vec<F>,
    pub update: Vec<F>,
}

impl<F> App<F> {
    /// No system yet.
    pub fn new() -> (r: Self)
        ensures
            r.startup@.len() == 0,
            r.update@.len() == 0,
    {
        App { startup: Vec::new(), update: Vec::new() }
    }

    /// Appends `f` to the systems of schedule `s`.
    pub fn add_systems(&mut self, s: Schedule, f: F)
        ensures
            s == Schedule::Startup ==> final(self).startup@ == old(self).startup@.push(f)
                && final(self).update@ == old(self).update@,
            s == Schedule::Update ==> final(self).update@ == old(self).update@.push(f)
                && final(self).startup@ == old(self).startup@,
    {
        match s {
            Schedule::Startup => self.startup.push(f),
            Schedule::Update => self.update.push(f),
        }
    }
}

} // verus!
