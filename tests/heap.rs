use blind_host::heap::{FreeBlock, HostHeap};

fn blocks(h: &HostHeap) -> Vec<(u32, u32)> {
    h.free_blocks.iter().map(|b| (b.addr, b.size)).collect()
}

fn no_adjacent(h: &HostHeap) -> bool {
    for a in &h.free_blocks {
        for b in &h.free_blocks {
            if a.addr + a.size == b.addr {
                return false;
            }
        }
    }
    true
}

#[test]
fn new_heap_is_empty() {
    let mut h = HostHeap::new();
    assert!(h.free_blocks.is_empty());
    assert_eq!(h.allocate(8), None);
}

#[test]
fn first_fit_splits_front() {
    let mut h = HostHeap::new();
    h.dealloc(1000, 100);
    assert_eq!(h.allocate(40), Some(1000));
    assert_eq!(blocks(&h), vec![(1040, 60)]);
}

#[test]
fn exact_fit_removes_block() {
    let mut h = HostHeap::new();
    h.dealloc(1000, 64);
    h.dealloc(2000, 32);
    assert_eq!(h.allocate(32), Some(1000));
    assert_eq!(blocks(&h), vec![(1032, 32), (2000, 32)]);
    assert_eq!(h.allocate(32), Some(1032));
    assert_eq!(blocks(&h), vec![(2000, 32)]);
}

#[test]
fn first_fit_skips_small_blocks() {
    let mut h = HostHeap::new();
    h.dealloc(100, 8);
    h.dealloc(200, 64);
    h.dealloc(400, 64);
    assert_eq!(h.allocate(16), Some(200));
    assert_eq!(blocks(&h), vec![(100, 8), (216, 48), (400, 64)]);
}

#[test]
fn zero_byte_request_takes_nothing() {
    let mut h = HostHeap::new();
    h.dealloc(64, 32);
    assert_eq!(h.allocate(0), Some(64));
    assert_eq!(blocks(&h), vec![(64, 32)]);
}

#[test]
fn allocation_failure_leaves_list() {
    let mut h = HostHeap::new();
    h.dealloc(100, 8);
    assert_eq!(h.allocate(16), None);
    assert_eq!(blocks(&h), vec![(100, 8)]);
}

#[test]
fn dealloc_coalesces_both_sides() {
    let mut h = HostHeap::new();
    h.dealloc(0, 16);
    h.dealloc(32, 16);
    assert_eq!(blocks(&h), vec![(0, 16), (32, 16)]);
    h.dealloc(16, 16);
    assert_eq!(blocks(&h), vec![(0, 48)]);
    assert!(no_adjacent(&h));
}

#[test]
fn dealloc_out_of_order_keeps_sorted() {
    let mut h = HostHeap::new();
    h.dealloc(300, 10);
    h.dealloc(100, 10);
    h.dealloc(200, 10);
    assert_eq!(blocks(&h), vec![(100, 10), (200, 10), (300, 10)]);
    h.dealloc(110, 90);
    assert_eq!(blocks(&h), vec![(100, 110), (300, 10)]);
    assert!(no_adjacent(&h));
}

#[test]
fn coalesce_merges_touching_runs() {
    let mut h = HostHeap::new();
    h.free_blocks = vec![
        FreeBlock { addr: 0, size: 8 },
        FreeBlock { addr: 8, size: 8 },
        FreeBlock { addr: 16, size: 8 },
        FreeBlock { addr: 40, size: 8 },
        FreeBlock { addr: 48, size: 8 },
    ];
    h.coalesce();
    assert_eq!(blocks(&h), vec![(0, 24), (40, 16)]);
}

#[test]
fn coalesce_sorts_unordered_blocks() {
    let mut h = HostHeap::new();
    h.free_blocks = vec![
        FreeBlock { addr: 48, size: 8 },
        FreeBlock { addr: 0, size: 8 },
        FreeBlock { addr: 100, size: 4 },
        FreeBlock { addr: 8, size: 8 },
        FreeBlock { addr: 40, size: 8 },
    ];
    h.coalesce();
    assert_eq!(blocks(&h), vec![(0, 16), (40, 16), (100, 4)]);
}

#[test]
fn coalesce_on_empty_list() {
    let mut h = HostHeap::new();
    h.coalesce();
    assert!(h.free_blocks.is_empty());
}

#[test]
fn every_dealloc_leaves_no_adjacent_pair() {
    let mut h = HostHeap::new();
    let order = [5u32, 1, 9, 3, 7, 0, 2, 8, 4, 6];
    for k in order {
        h.dealloc(k * 16, 16);
        assert!(no_adjacent(&h));
    }
    assert_eq!(blocks(&h), vec![(0, 160)]);
}
