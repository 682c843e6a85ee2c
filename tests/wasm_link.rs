use blind_host::layout::{BlindHostConfig, SlotLayout};
use blind_host::registry::{Callee, Registry};
use wasmtime::{
    Caller, Config, Engine, Error, Instance, Linker, Memory, MemoryType, Module, Ref, RefType, Store, Table, TableType,
};

const CORE: &str = r#"
(module
  (func (export "foo") (param i32) (result i32)
    local.get 0
    i32.const 1
    i32.add))
"#;

const GAME: &str = r#"
(module
  (import "env" "memory" (memory 1))
  (import "env" "__indirect_function_table" (table 4 funcref))
  (import "env" "host_link_call" (func $link (param i32 i32 i32 i32) (result i32)))
  (type $unary (func (param i32) (result i32)))
  (data (i32.const 16) "Corefoo")
  (global $k (mut i32) (i32.const -1))
  (func (export "init")
    (global.set $k (call $link (i32.const 16) (i32.const 4) (i32.const 20) (i32.const 3))))
  (func (export "index") (result i32) (global.get $k))
  (func (export "run") (param i32) (result i32)
    (call_indirect (type $unary) (local.get 0) (global.get $k))))
"#;

struct Ctx {
    registry: Registry,
    layout: SlotLayout,
    memory: Option<Memory>,
    instances: Vec<Instance>,
    tables: Vec<Table>,
}

fn link_call(mut caller: Caller<'_, Ctx>, table: usize, mp: i32, ml: i32, fp: i32, fl: i32) -> wasmtime::Result<i32> {
    let memory = caller.data().memory.ok_or_else(|| Error::msg("no memory"))?;
    let bytes = memory.data(&caller);
    let module = bytes[mp as usize..(mp + ml) as usize].to_vec();
    let export = bytes[fp as usize..(fp + fl) as usize].to_vec();
    let index = caller
        .data_mut()
        .registry
        .host_link_call(table, &module, &export)
        .map_err(|e| Error::msg(format!("{:?}", e)))?;
    let target = match caller.data().registry.tables[table].entries[index as usize] {
        Some(Callee::Export(f)) => f,
        _ => return Err(Error::msg("no injected entry")),
    };
    let instance = caller.data().instances[target.module];
    let func = instance
        .get_func(&mut caller, std::str::from_utf8(&export).unwrap())
        .ok_or_else(|| Error::msg("not a function"))?;
    let wasm_table = caller.data().tables[table];
    assert_eq!(wasm_table.size(&caller), index as u64);
    wasm_table.grow(&mut caller, 1, Ref::Func(Some(func)))?;
    Ok(index as i32)
}

fn load(store: &mut Store<Ctx>, engine: &Engine, name: &str, wat: &str) -> Instance {
    let module = Module::new(engine, wat).unwrap();
    let slot = store.data_mut().layout.reserve_slot().unwrap();
    let table_index = store.data_mut().registry.create_table(4);
    let table = Table::new(&mut *store, TableType::new(RefType::FUNCREF, 4, None), Ref::Func(None)).unwrap();
    store.data_mut().tables.push(table);
    let mut linker: Linker<Ctx> = Linker::new(engine);
    let memory = store.data().memory.unwrap();
    linker.define(&*store, "env", "memory", memory).unwrap();
    linker.define(&*store, "env", "__indirect_function_table", table).unwrap();
    linker
        .func_wrap("env", "host_link_call", move |c: Caller<'_, Ctx>, mp: i32, ml: i32, fp: i32, fl: i32| {
            link_call(c, table_index, mp, ml, fp, fl)
        })
        .unwrap();
    let instance = linker.instantiate(&mut *store, &module).unwrap();
    let names: Vec<Vec<u8>> = module.exports().map(|e| e.name().as_bytes().to_vec()).collect();
    if let Some(init) = instance.get_func(&mut *store, "init") {
        init.typed::<(), ()>(&*store).unwrap().call(&mut *store, ()).unwrap();
    }
    let ctx = store.data_mut();
    ctx.registry.register(name.as_bytes().to_vec(), names, slot, table_index);
    ctx.instances.push(instance);
    instance
}

fn small_engine() -> Engine {
    let mut config = Config::new();
    config.memory_reservation(1 << 20);
    config.memory_guard_size(0);
    config.memory_reservation_for_growth(0);
    Engine::new(&config).unwrap()
}

fn new_store(engine: &Engine) -> Store<Ctx> {
    let config = BlindHostConfig { max_plugins: 4, data_allowance: 16384, stack_size: 16384 };
    let ctx = Ctx {
        registry: Registry::new(),
        layout: SlotLayout::new(&config),
        memory: None,
        instances: Vec::new(),
        tables: Vec::new(),
    };
    let mut store = Store::new(engine, ctx);
    let memory = Memory::new(&mut store, MemoryType::new(1, None)).unwrap();
    store.data_mut().memory = Some(memory);
    store
}

#[test]
fn game_calls_core_through_injected_index() {
    let engine = small_engine();
    let mut store = new_store(&engine);
    let core = load(&mut store, &engine, "Core", CORE);
    let game = load(&mut store, &engine, "Game", GAME);
    let k = game.get_typed_func::<(), i32>(&mut store, "index").unwrap().call(&mut store, ()).unwrap();
    assert_eq!(k, 4);
    let run = game.get_typed_func::<i32, i32>(&mut store, "run").unwrap();
    assert_eq!(run.call(&mut store, 41).unwrap(), 42);
    let foo = core.get_typed_func::<i32, i32>(&mut store, "foo").unwrap();
    for a in [-7, 0, 41, 1000] {
        assert_eq!(run.call(&mut store, a).unwrap(), foo.call(&mut store, a).unwrap());
    }
}

#[test]
fn linking_to_a_module_not_yet_loaded_fails() {
    let engine = small_engine();
    let mut store = new_store(&engine);
    let module = Module::new(&engine, GAME).unwrap();
    let table_index = store.data_mut().registry.create_table(4);
    let table = Table::new(&mut store, TableType::new(RefType::FUNCREF, 4, None), Ref::Func(None)).unwrap();
    store.data_mut().tables.push(table);
    let mut linker: Linker<Ctx> = Linker::new(&engine);
    let memory = store.data().memory.unwrap();
    linker.define(&store, "env", "memory", memory).unwrap();
    linker.define(&store, "env", "__indirect_function_table", table).unwrap();
    linker
        .func_wrap("env", "host_link_call", move |c: Caller<'_, Ctx>, mp: i32, ml: i32, fp: i32, fl: i32| {
            link_call(c, table_index, mp, ml, fp, fl)
        })
        .unwrap();
    let instance = linker.instantiate(&mut store, &module).unwrap();
    let init = instance.get_typed_func::<(), ()>(&mut store, "init").unwrap();
    let err = init.call(&mut store, ()).unwrap_err();
    assert!(format!("{:?}", err).contains("ModuleNotFound"));
    assert_eq!(store.data().registry.tables[table_index].entries.len(), 4);
}
