use blind_host::abi::{pack_i64, unpack_i64_result};
use blind_host::error::HostError;
use blind_host::growth::{align8, growth_pages, growth_start, GROWTH_CHUNK_PAGES};
use blind_host::layout::{BlindHostConfig, SlotLayout};
use blind_host::registry::{table_size, Callee, FuncRef, PushCall};
use blind_host::runtime::HostState;

fn small_config() -> BlindHostConfig {
    BlindHostConfig { max_plugins: 4, data_allowance: 16384, stack_size: 16384 }
}

fn name_list(names: &[&str]) -> Vec<Vec<u8>> {
    names.iter().map(|n| n.as_bytes().to_vec()).collect()
}

#[test]
fn default_config_values() {
    let c = BlindHostConfig::default();
    assert_eq!(c.max_plugins, 16);
    assert_eq!(c.data_allowance, 128 * 1024);
    assert_eq!(c.stack_size, 1024 * 1024);
    assert_eq!(c.slot_size(), 1_179_648);
    assert_eq!(c.heap_start(), 18_874_368);
    assert_eq!(c.initial_pages(), 288 + 256);
}

#[test]
fn slot_size_rounds_to_4096() {
    let c = BlindHostConfig { max_plugins: 3, data_allowance: 1000, stack_size: 1000 };
    assert_eq!(c.slot_size(), 4096);
    let c = BlindHostConfig { max_plugins: 3, data_allowance: 4096, stack_size: 1 };
    assert_eq!(c.slot_size(), 8192);
    assert_eq!(c.heap_start(), 65536);
}

#[test]
fn reserve_slots_disjoint_and_increasing() {
    let c = BlindHostConfig { max_plugins: 8, data_allowance: 8192, stack_size: 8192 };
    let mut l = SlotLayout::new(&c);
    let mut slots = Vec::new();
    while let Ok(s) = l.reserve_slot() {
        slots.push(s);
    }
    assert_eq!(slots.len(), 8);
    assert_eq!(slots[0].data_base, 0);
    assert_eq!(slots[0].stack_top, 16384 - 16);
    assert_eq!(slots[7].data_base + 16384, l.heap_start);
    for w in slots.windows(2) {
        assert!(w[0].data_base < w[1].data_base);
        assert!(w[0].stack_top < w[1].data_base);
        assert!(w[0].data_base + 16384 <= w[1].data_base);
    }
    assert_eq!(l.reserve_slot(), Err(HostError::SlotExhausted));
}

#[test]
fn slot_exhausted_when_no_room() {
    let c = BlindHostConfig { max_plugins: 1, data_allowance: 65536 - 16, stack_size: 16 };
    let mut l = SlotLayout::new(&c);
    assert_eq!(l.heap_start, 65536);
    assert!(l.reserve_slot().is_ok());
    assert_eq!(l.reserve_slot(), Err(HostError::SlotExhausted));
    assert_eq!(l.reserved, 1);
}

#[test]
fn default_layout_takes_all_sixteen_modules() {
    let c = BlindHostConfig::default();
    let mut l = SlotLayout::new(&c);
    for k in 0..16u32 {
        let s = l.reserve_slot().unwrap();
        assert_eq!(s.data_base, k * 1_179_648);
        assert_eq!(s.stack_top, (k + 1) * 1_179_648 - 16);
    }
    assert_eq!(l.next_base, l.heap_start);
    assert_eq!(l.reserve_slot(), Err(HostError::SlotExhausted));
}

#[test]
fn growth_rules() {
    assert_eq!(align8(1), 8);
    assert_eq!(align8(8), 8);
    assert_eq!(align8(13), 16);
    assert_eq!(growth_pages(1), GROWTH_CHUNK_PAGES);
    assert_eq!(growth_pages(80 * 65536 + 1), 81);
    assert_eq!(growth_start(true, 100, 500), 500);
    assert_eq!(growth_start(false, 100, 500), 100);
    assert_eq!(growth_start(true, 600, 500), 600);
}

#[test]
fn first_alloc_grows_memory_at_top() {
    let mut h = HostState::new(&small_config());
    let before = h.memory.size();
    assert_eq!(before, 258 * 65536);
    let a = h.host_alloc(10);
    assert_eq!(a as u64, before);
    assert_eq!(h.memory.size(), before + 80 * 65536);
    assert_eq!(h.heap.free_blocks.len(), 1);
    assert_eq!(h.heap.free_blocks[0].addr as u64, before + 16);
    let b = h.host_alloc(10);
    assert_eq!(b, a + 16);
    assert_eq!(h.memory.size(), before + 80 * 65536);
}

#[test]
fn large_request_grows_by_its_pages() {
    let mut h = HostState::new(&small_config());
    let before = h.memory.size();
    let size = 100 * 65536 + 5;
    let a = h.host_alloc(size);
    assert_eq!(a as u64, before);
    assert_eq!(h.memory.size(), before + 101 * 65536);
    assert!(a as u64 + size as u64 <= h.memory.size());
}

#[test]
fn alloc_of_nothing_returns_zero() {
    let mut h = HostState::new(&small_config());
    assert_eq!(h.host_alloc(0), 0);
    assert_eq!(h.host_alloc(-4), 0);
    assert_eq!(h.memory.size(), 258 * 65536);
}

#[test]
fn alloc_fails_when_memory_cannot_grow() {
    let mut h = HostState::new(&small_config());
    assert_eq!(h.host_alloc(i32::MAX), 0);
    assert_eq!(h.memory.size(), 258 * 65536);
    assert!(h.heap.free_blocks.is_empty());
}

#[test]
fn addresses_are_aligned_and_live_ranges_disjoint() {
    let mut h = HostState::new(&small_config());
    let mut live: Vec<(i32, i32)> = Vec::new();
    let mut seed: u32 = 7;
    for step in 0..400 {
        seed = seed.wrapping_mul(1103515245).wrapping_add(12345);
        if step % 3 == 2 && !live.is_empty() {
            let k = (seed as usize) % live.len();
            let (p, s) = live.remove(k);
            assert!(h.host_dealloc(p, s));
        } else {
            let size = 1 + (seed >> 8) as i32 % 8192;
            let p = h.host_alloc(size);
            assert!(p != 0);
            assert_eq!(p % 8, 0);
            live.push((p, size));
        }
        for i in 0..live.len() {
            for j in (i + 1)..live.len() {
                let (a, sa) = live[i];
                let (b, sb) = live[j];
                assert!(a + sa <= b || b + sb <= a);
            }
        }
        for w in h.heap.free_blocks.windows(2) {
            assert!(w[0].addr + w[0].size < w[1].addr);
        }
    }
}

#[test]
fn freed_memory_is_reused() {
    let mut h = HostState::new(&small_config());
    let a = h.host_alloc(64);
    let b = h.host_alloc(64);
    assert!(h.host_dealloc(a, 64));
    assert_eq!(h.host_alloc(60), a);
    assert!(b > a);
}

#[test]
fn bad_frees_are_refused() {
    let mut h = HostState::new(&small_config());
    let a = h.host_alloc(64);
    assert!(!h.host_dealloc(0, 64));
    assert!(!h.host_dealloc(a + 4, 8));
    assert!(!h.host_dealloc(a, 0));
    assert!(!h.host_dealloc(1024, 8));
    assert!(h.host_dealloc(a, 64));
    assert!(!h.host_dealloc(a, 64));
}

#[test]
fn write_then_read_round_trip() {
    let mut h = HostState::new(&small_config());
    let data: Vec<u8> = (0..37u8).collect();
    let p = h.host_alloc(data.len() as i32);
    assert_eq!(h.write_mem(p, &data), Ok(()));
    assert_eq!(h.read_mem(p, data.len() as i32), Ok(data));
}

#[test]
fn memory_access_out_of_bounds() {
    let mut h = HostState::new(&small_config());
    let size = h.memory.size() as i32;
    assert_eq!(h.read_mem(size - 4, 8), Err(HostError::OutOfBounds));
    assert_eq!(h.read_mem(-1, 1), Err(HostError::OutOfBounds));
    assert_eq!(h.write_mem(size - 2, &[1, 2, 3]), Err(HostError::OutOfBounds));
    assert_eq!(h.read_mem(size - 4, 4), Ok(vec![0, 0, 0, 0]));
    assert_eq!(h.host_print(size, 1), None);
    assert_eq!(h.write_mem(2048, b"hello"), Ok(()));
    assert_eq!(h.host_print(2048, 5), Some(b"hello".to_vec()));
}

#[test]
fn table_size_defaults() {
    assert_eq!(table_size(None), 1024);
    assert_eq!(table_size(Some(7)), 7);
}

fn load(h: &mut HostState, name: &str, exports: &[&str]) -> usize {
    let pending = h.prepare_env(None).unwrap();
    h.finish_load(name.as_bytes().to_vec(), name_list(exports), pending);
    pending.table
}

#[test]
fn link_call_injects_into_caller_table() {
    let mut h = HostState::new(&small_config());
    let core_table = load(&mut h, "Core", &["memory", "foo"]);
    let game = h.prepare_env(None).unwrap();
    h.write_mem(4096, b"Core").unwrap();
    h.write_mem(4200, b"foo").unwrap();
    let k = h.host_link_call(game.table, 4096, 4, 4200, 3).unwrap();
    assert_eq!(k, 1024);
    let entry = h.registry.tables[game.table].entries[k as usize];
    assert_eq!(entry, Some(Callee::Export(FuncRef { module: 0, export: 1 })));
    assert_eq!(h.registry.get_func(b"Core", b"foo"), Ok(FuncRef { module: 0, export: 1 }));
    assert_eq!(h.registry.tables[core_table].entries.len(), 1024);
    let k2 = h.host_link_call(game.table, 4096, 4, 4200, 3).unwrap();
    assert_eq!(k2, 1025);
}

#[test]
fn linked_index_behaves_like_direct_call() {
    // "Core" exports foo(x) = x + 1; "Game" links it during its init and calls index k with 41.
    let mut h = HostState::new(&small_config());
    load(&mut h, "Core", &["__wasm_call_ctors", "foo"]);
    let game = h.prepare_env(Some(8)).unwrap();
    h.write_mem(8192, b"Corefoo").unwrap();
    let k = h.host_link_call(game.table, 8192, 4, 8196, 3).unwrap();
    assert_eq!(k, 8);
    let f = match h.registry.tables[game.table].entries[k as usize] {
        Some(Callee::Export(f)) => f,
        other => panic!("unexpected entry {:?}", other),
    };
    let m = &h.registry.modules[f.module];
    let run = |module: &[u8], export: &[u8], x: i32| -> i32 {
        if module == b"Core" && export == b"foo" {
            x + 1
        } else {
            panic!("unknown export")
        }
    };
    assert_eq!(run(&m.name, &m.exports[f.export], 41), 42);
    let direct = h.registry.get_func(b"Core", b"foo").unwrap();
    assert_eq!(direct, f);
    h.finish_load(b"Game".to_vec(), name_list(&["init"]), game);
    assert_eq!(h.registry.modules.len(), 2);
}

#[test]
fn link_errors() {
    let mut h = HostState::new(&small_config());
    load(&mut h, "Core", &["foo"]);
    let game = h.prepare_env(None).unwrap();
    h.write_mem(4096, b"Nopebar").unwrap();
    h.write_mem(5000, b"Core").unwrap();
    assert_eq!(h.host_link_call(game.table, 4096, 4, 4100, 3), Err(HostError::ModuleNotFound));
    assert_eq!(h.host_link_call(game.table, 5000, 4, 4100, 3), Err(HostError::ExportNotFound));
    let size = h.memory.size() as i32;
    assert_eq!(h.host_link_call(game.table, size, 4, 4100, 3), Err(HostError::OutOfBounds));
    assert_eq!(h.registry.tables[game.table].entries.len(), 1024);
    assert_eq!(h.resolve_call(5000, 4, 4100, 3), Err(HostError::ExportNotFound));
}

#[test]
fn module_not_visible_before_it_is_loaded() {
    let mut h = HostState::new(&small_config());
    let first = h.prepare_env(None).unwrap();
    h.write_mem(4096, b"Latefoo").unwrap();
    assert_eq!(h.host_link_call(first.table, 4096, 4, 4100, 3), Err(HostError::ModuleNotFound));
    h.finish_load(b"First".to_vec(), name_list(&[]), first);
    load(&mut h, "Late", &["foo"]);
    assert_eq!(h.host_link_call(first.table, 4096, 4, 4100, 3), Ok(1024));
}

#[test]
fn later_module_of_same_name_wins() {
    let mut h = HostState::new(&small_config());
    load(&mut h, "M", &["a", "b"]);
    load(&mut h, "M", &["b"]);
    assert_eq!(h.registry.get_func(b"M", b"b"), Ok(FuncRef { module: 1, export: 0 }));
    assert_eq!(h.registry.get_func(b"M", b"a"), Err(HostError::ExportNotFound));
}

#[test]
fn loading_fails_when_slots_run_out() {
    let c = BlindHostConfig { max_plugins: 2, data_allowance: 16384, stack_size: 16384 };
    let mut h = HostState::new(&c);
    assert!(h.prepare_env(None).is_ok());
    assert!(h.prepare_env(None).is_ok());
    assert_eq!(h.prepare_env(None), Err(HostError::SlotExhausted));
    assert_eq!(h.registry.tables.len(), 2);
}

#[test]
fn pack_and_unpack() {
    assert_eq!(pack_i64(16, 3), (3i64 << 32) | 16);
    assert_eq!(pack_i64(-1, 0), 0xFFFF_FFFF);
    assert_eq!(pack_i64(0x1234, 0x10), 0x0000_0010_0000_1234);
    assert_eq!(unpack_i64_result(0x0000_0010_0000_1234), (0x1234, 0x10));
    for (p, l) in [(0, 0), (1024, 77), (-5, 9), (i32::MAX, i32::MAX), (i32::MIN, -1)] {
        assert_eq!(unpack_i64_result(pack_i64(p, l)), (p, l));
    }
}

#[test]
fn push_lends_entry_to_target_table() {
    let mut h = HostState::new(&small_config());
    let core_table = load(&mut h, "Core", &["on_callback"]);
    let game = h.prepare_env(None).unwrap();
    let r = h.registry.host_link_push(game.table, 5, b"Core", b"on_callback");
    assert_eq!(r, Ok(PushCall { hook: FuncRef { module: 0, export: 0 }, index: 1024 }));
    assert_eq!(
        h.registry.tables[core_table].entries[1024],
        Some(Callee::Lent { table: game.table, index: 5 })
    );
    assert_eq!(h.registry.tables[game.table].entries.len(), 1024);
}

#[test]
fn push_errors() {
    let mut h = HostState::new(&small_config());
    let core_table = load(&mut h, "Core", &["on_callback"]);
    let game = h.prepare_env(Some(4)).unwrap();
    assert_eq!(h.registry.host_link_push(game.table, 4, b"Core", b"on_callback"), Err(HostError::OutOfBounds));
    assert_eq!(h.registry.host_link_push(game.table, 0, b"Nope", b"on_callback"), Err(HostError::ModuleNotFound));
    assert_eq!(h.registry.host_link_push(game.table, 0, b"Core", b"other"), Err(HostError::ExportNotFound));
    assert_eq!(h.registry.tables[core_table].entries.len(), 1024);
}
