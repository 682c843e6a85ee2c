//! Loaded modules, their private call tables, and dynamic call injection.
use vstd::prelude::*;
use crate::error::HostError;
use crate::layout::ModuleSlot;

verus! {

/// Entries a call table gets when the module does not ask for a size.
pub const DEFAULT_TABLE_SIZE: u32 = 1024;

/// A callable export: export `export` of loaded module `module`.
#[derive(Debug, Clone, Copy, PartialEq, Eq, Structural)]
pub struct FuncRef {
    pub module: usize,
    pub export: usize,
}

/// What a call table entry injected by the host calls.
#[derive(Debug, Clone, Copy, PartialEq, Eq, Structural)]
pub enum Callee {
    /// A named export of a loaded module.
    Export(FuncRef),
    /// Entry `index` of call table `table`, lent by the module that owns it.
    Lent { table: usize, index: u32 },
}

/// A lent entry and the hook export that must now learn of it.
#[derive(Debug, Clone, Copy, PartialEq, Eq, Structural)]
pub struct PushCall {
    /// The target's hook export, to be called with `index` and the payload.
    pub hook: FuncRef,
    /// Index of the lent entry in the target's own table.
    pub index: u32,
}

/// A module that finished loading, with the names of its exports.
pub struct LoadedModule {
    pub name: Vec<u8>,
    pub exports: Vec<Vec<u8>>,
    pub slot: ModuleSlot,
    pub table: usize,
}

/// One module's private indirect-call table. Entries that the host did not
/// inject (empty slots, or functions the module placed there itself) are `None`.
pub struct CallTable {
    pub entries: Vec<Option<Callee>>,
}

/// Every loaded module by name, and every call table by index.
pub struct Registry {
    pub modules: Vec<LoadedModule>,
    pub tables: Vec<CallTable>,
}

/// Module `i` is the latest loaded one named `name`.
pub open spec fn is_module_named(mods: Seq<LoadedModule>, name: Seq<u8>, i: int) -> bool {
    &&& 0 <= i < mods.len()
    &&& mods[i].name@ == name
    &&& forall|j: int| i < j < mods.len() ==> (#[trigger] mods[j]).name@ != name
}

/// No loaded module is named `name`.
pub open spec fn no_module_named(mods: Seq<LoadedModule>, name: Seq<u8>) -> bool {
    forall|j: int| 0 <= j < mods.len() ==> (#[trigger] mods[j]).name@ != name
}

/// Export `e` is the first export of `m` named `name`.
pub open spec fn is_export_named(m: LoadedModule, name: Seq<u8>, e: int) -> bool {
    &&& 0 <= e < m.exports@.len()
    &&& m.exports@[e]@ == name
    &&& forall|j: int| 0 <= j < e ==> (#[trigger] m.exports@[j])@ != name
}

/// `m` has no export named `name`.
pub open spec fn no_export_named(m: LoadedModule, name: Seq<u8>) -> bool {
    forall|j: int| 0 <= j < m.exports@.len() ==> (#[trigger] m.exports@[j])@ != name
}

/// `f` is what a call of `module.export` reaches among the loaded modules.
pub open spec fn resolves_to(mods: Seq<LoadedModule>, module: Seq<u8>, export: Seq<u8>, f: FuncRef) -> bool {
    &&& is_module_named(mods, module, f.module as int)
    &&& is_export_named(mods[f.module as int], export, f.export as int)
}

/// The outcome that resolving `module.export` must have.
pub open spec fn resolution_ok(mods: Seq<LoadedModule>, module: Seq<u8>, export: Seq<u8>, r: Result<FuncRef, HostError>) -> bool {
    match r {
        Ok(f) => resolves_to(mods, module, export, f),
        Err(HostError::ModuleNotFound) => no_module_named(mods, module),
        Err(HostError::ExportNotFound) => exists|i: int| is_module_named(mods, module, i) && no_export_named(mods[i], export),
        Err(_) => false,
    }
}

/// Whether `a` and `b` hold the same bytes.
pub fn bytes_eq(a: &Vec<u8>, b: &[u8]) -> (r: bool)
    ensures
        r == (a@ == b@),
{
    if a.len() != b.len() {
        return false;
    }
    let mut i: usize = 0;
    while i < a.len()
        invariant
            a@.len() == b@.len(),
            i <= a@.len(),
            forall|j: int| 0 <= j < i ==> a@[j] == b@[j],
        decreases a@.len() - i,
    {
        if a[i] != b[i] {
            return false;
        }
        i = i + 1;
    }
    assert(a@ =~= b@);
    true
}

/// Size of a new call table: what the module asks for, or the default.
pub fn table_size(requested: Option<u32>) -> (r: u32)
    ensures
        r == match requested {
            Some(n) => n,
            None => DEFAULT_TABLE_SIZE,
        },
{
    match requested {
        Some(n) => n,
        None => DEFAULT_TABLE_SIZE,
    }
}

impl Registry {
    /// Every module names an existing table of its own.
    pub open spec fn wf(&self) -> bool {
        forall|i: int| 0 <= i < self.modules@.len() ==> (#[trigger] self.modules@[i]).table < self.tables@.len()
    }

    /// No module and no table.
    pub fn new() -> (r: Self)
        ensures
            r.wf(),
            r.modules@.len() == 0,
            r.tables@.len() == 0,
    {
        Registry { modules: Vec::new(), tables: Vec::new() }
    }

    /// Index of the latest loaded module named `name`.
    pub fn find_module(&self, name: &[u8]) -> (r: Option<usize>)
        ensures
            match r {
                Some(i) => is_module_named(self.modules@, name@, i as int),
                None => no_module_named(self.modules@, name@),
            },
    {
        let mut i: usize = self.modules.len();
        while i > 0
            invariant
                i <= self.modules@.len(),
                forall|j: int| i <= j < self.modules@.len() ==> (#[trigger] self.modules@[j]).name@ != name@,
            decreases i,
        {
            i = i - 1;
            if bytes_eq(&self.modules[i].name, name) {
                return Some(i);
            }
        }
        None
    }

    /// Index of the first export of module `m` named `name`.
    pub fn find_export(&self, m: usize, name: &[u8]) -> (r: Option<usize>)
        requires
            m < self.modules@.len(),
        ensures
            match r {
                Some(e) => is_export_named(self.modules@[m as int], name@, e as int),
                None => no_export_named(self.modules@[m as int], name@),
            },
    {
        let exports = &self.modules[m].exports;
        let mut e: usize = 0;
        while e < exports.len()
            invariant
                exports == &self.modules@[m as int].exports,
                e <= exports@.len(),
                forall|j: int| 0 <= j < e ==> (#[trigger] exports@[j])@ != name@,
            decreases exports@.len() - e,
        {
            if bytes_eq(&exports[e], name) {
                return Some(e);
            }
            e = e + 1;
        }
        None
    }

    /// The export `export` of the module `module`, as a direct call reaches it.
    pub fn get_func(&self, module: &[u8], export: &[u8]) -> (r: Result<FuncRef, HostError>)
        ensures
            resolution_ok(self.modules@, module@, export@, r),
    {
        match self.find_module(module) {
            None => Err(HostError::ModuleNotFound),
            Some(m) => match self.find_export(m, export) {
                None => Err(HostError::ExportNotFound),
                Some(e) => Ok(FuncRef { module: m, export: e }),
            },
        }
    }

    /// A new private call table of `size` empty entries; returns its index.
    pub fn create_table(&mut self, size: u32) -> (r: usize)
        requires
            old(self).wf(),
        ensures
            final(self).wf(),
            r == old(self).tables@.len(),
            final(self).tables@.len() == old(self).tables@.len() + 1,
            final(self).tables@[r as int].entries@ == Seq::new(size as nat, |i: int| None::<Callee>),
            forall|t: int| 0 <= t < old(self).tables@.len() ==> #[trigger] final(self).tables@[t] == old(self).tables@[t],
            final(self).modules@ == old(self).modules@,
    {
        let mut entries: Vec<Option<Callee>> = Vec::new();
        while entries.len() < size as usize
            invariant
                entries@.len() <= size,
                forall|i: int| 0 <= i < entries@.len() ==> entries@[i] == None::<Callee>,
            decreases size - entries@.len(),
        {
            entries.push(None);
        }
        assert(entries@ =~= Seq::new(size as nat, |i: int| None::<Callee>));
        let r = self.tables.len();
        self.tables.push(CallTable { entries });
        r
    }

    /// Publishes a module that finished loading; later lookups of `name` find it.
    pub fn register(&mut self, name: Vec<u8>, exports: Vec<Vec<u8>>, slot: ModuleSlot, table: usize)
        requires
            old(self).wf(),
            table < old(self).tables@.len(),
        ensures
            final(self).wf(),
            final(self).tables@ == old(self).tables@,
            final(self).modules@.len() == old(self).modules@.len() + 1,
            forall|i: int| 0 <= i < old(self).modules@.len() ==> #[trigger] final(self).modules@[i] == old(self).modules@[i],
            ({
                let m = final(self).modules@[old(self).modules@.len() as int];
                &&& m.name@ == name@
                &&& m.exports@ == exports@
                &&& m.slot == slot
                &&& m.table == table
            }),
    {
        self.modules.push(LoadedModule { name, exports, slot, table });
    }

    /// Resolves `module.export` and appends it to call table `caller`; returns the
    /// index of the new entry, which is meaningful in that table only.
    pub fn host_link_call(&mut self, caller: usize, module: &[u8], export: &[u8]) -> (r: Result<u32, HostError>)
        requires
            old(self).wf(),
            caller < old(self).tables@.len(),
        ensures
            final(self).wf(),
            final(self).modules@ == old(self).modules@,
            final(self).tables@.len() == old(self).tables@.len(),
            forall|t: int| 0 <= t < old(self).tables@.len() && t != caller ==> #[trigger] final(self).tables@[t] == old(self).tables@[t],
            match r {
                Ok(k) => {
                    &&& k == old(self).tables@[caller as int].entries@.len()
                    &&& exists|f: FuncRef| {
                        &&& resolves_to(old(self).modules@, module@, export@, f)
                        &&& #[trigger] final(self).tables@[caller as int].entries@ == old(self).tables@[caller as int].entries@.push(Some(Callee::Export(f)))
                    }
                },
                Err(HostError::TableFull) => {
                    &&& old(self).tables@[caller as int].entries@.len() >= u32::MAX
                    &&& exists|f: FuncRef| resolves_to(old(self).modules@, module@, export@, f)
                    &&& final(self).tables@ == old(self).tables@
                },
                Err(e) => {
                    &&& resolution_ok(old(self).modules@, module@, export@, Err(e))
                    &&& final(self).tables@ == old(self).tables@
                },
            },
    {
        let f = match self.get_func(module, export) {
            Ok(f) => f,
            Err(e) => return Err(e),
        };
        let k = self.tables[caller].entries.len();
        if k >= u32::MAX as usize {
            return Err(HostError::TableFull);
        }
        let ghost before = self.tables@;
        self.tables[caller].entries.push(Some(Callee::Export(f)));
        proof {
            assert(self.tables@[caller as int].entries@ == before[caller as int].entries@.push(Some(Callee::Export(f))));
        }
        Ok(k as u32)
    }

    /// The push variant of `host_link_call`: the module owning call table
    /// `caller` lends its entry `local` to module `module`, whose table gets a
    /// new entry for it. Returns the new index and the export `hook` of the
    /// target, which the embedder calls next with that index and the payload.
    pub fn host_link_push(&mut self, caller: usize, local: u32, module: &[u8], hook: &[u8]) -> (r: Result<PushCall, HostError>)
        requires
            old(self).wf(),
            caller < old(self).tables@.len(),
        ensures
            final(self).wf(),
            final(self).modules@ == old(self).modules@,
            final(self).tables@.len() == old(self).tables@.len(),
            match r {
                Ok(p) => {
                    let t = old(self).modules@[p.hook.module as int].table as int;
                    &&& resolves_to(old(self).modules@, module@, hook@, p.hook)
                    &&& local < old(self).tables@[caller as int].entries@.len()
                    &&& p.index == old(self).tables@[t].entries@.len()
                    &&& final(self).tables@ == old(self).tables@.update(t, CallTable {
                        entries: final(self).tables@[t].entries,
                    })
                    &&& final(self).tables@[t].entries@ == old(self).tables@[t].entries@.push(
                        Some(Callee::Lent { table: caller, index: local }))
                },
                Err(HostError::OutOfBounds) => {
                    &&& exists|f: FuncRef| resolves_to(old(self).modules@, module@, hook@, f)
                    &&& local >= old(self).tables@[caller as int].entries@.len()
                    &&& final(self).tables@ == old(self).tables@
                },
                Err(HostError::TableFull) => {
                    &&& exists|f: FuncRef| {
                        &&& resolves_to(old(self).modules@, module@, hook@, f)
                        &&& old(self).tables@[old(self).modules@[f.module as int].table as int].entries@.len() >= u32::MAX
                    }
                    &&& local < old(self).tables@[caller as int].entries@.len()
                    &&& final(self).tables@ == old(self).tables@
                },
                Err(e) => {
                    &&& resolution_ok(old(self).modules@, module@, hook@, Err(e))
                    &&& final(self).tables@ == old(self).tables@
                },
            },
    {
        let f = match self.get_func(module, hook) {
            Ok(f) => f,
            Err(e) => return Err(e),
        };
        if local as usize >= self.tables[caller].entries.len() {
            return Err(HostError::OutOfBounds);
        }
        let t = self.modules[f.module].table;
        let k = self.tables[t].entries.len();
        if k >= u32::MAX as usize {
            return Err(HostError::TableFull);
        }
        let ghost before = self.tables@;
        self.tables[t].entries.push(Some(Callee::Lent { table: caller, index: local }));
        proof {
            assert(self.tables@ =~= before.update(t as int, CallTable { entries: self.tables@[t as int].entries }));
        }
        Ok(PushCall { hook: f, index: k as u32 })
    }
}

/// Resolution is deterministic: a name pair reaches at most one export.
pub proof fn lemma_resolution_unique(mods: Seq<LoadedModule>, module: Seq<u8>, export: Seq<u8>, f: FuncRef, g: FuncRef)
    requires
        resolves_to(mods, module, export, f),
        resolves_to(mods, module, export, g),
    ensures
        f == g,
{
    if f.module < g.module {
        assert(mods[g.module as int].name@ == module);
    } else if g.module < f.module {
        assert(mods[f.module as int].name@ == module);
    }
    let m = mods[f.module as int];
    if f.export < g.export {
        assert(m.exports@[f.export as int]@ == export);
    } else if g.export < f.export {
        assert(m.exports@[g.export as int]@ == export);
    }
}

/// After `host_link_call` hands module X index `k` for `module.export`, entry
/// `k` of X's own table holds exactly the function that a direct call of
/// `module.export` reaches, so invoking it through the table behaves as the
/// direct call does.
pub proof fn lemma_injected_entry_matches_direct_call(
    before: Seq<CallTable>,
    after: Seq<CallTable>,
    mods: Seq<LoadedModule>,
    caller: int,
    module: Seq<u8>,
    export: Seq<u8>,
    k: u32,
    direct: FuncRef,
)
    requires
        0 <= caller < before.len(),
        k == before[caller].entries@.len(),
        exists|f: FuncRef| {
            &&& resolves_to(mods, module, export, f)
            &&& #[trigger] after[caller].entries@ == before[caller].entries@.push(Some(Callee::Export(f)))
        },
        resolves_to(mods, module, export, direct),
    ensures
        after[caller].entries@[k as int] == Some(Callee::Export(direct)),
{
    let f = choose|f: FuncRef| {
        &&& resolves_to(mods, module, export, f)
        &&& #[trigger] after[caller].entries@ == before[caller].entries@.push(Some(Callee::Export(f)))
    };
    lemma_resolution_unique(mods, module, export, f, direct);
}

} // verus!
