use lean_multisig::preload::{HookCache, RESOLVED_NULL};
use lean_multisig::zk_alloc::{
    begin_phase, end_phase, new_thread, reallocation, Placement, Reallocation, ZkAllocator,
    COLD_SLAB_SIZE, HOT_SLAB_SIZE,
};

const HOT: u64 = 0x10_0000_0000;
const COLD: u64 = 0x100_0000_0000;

fn allocator(num_threads: u64) -> ZkAllocator {
    ZkAllocator {
        num_threads,
        generation: 0,
        active: false,
        hot_region_base: HOT,
        cold_region_base: COLD,
        thread_idx: 0,
    }
}

#[test]
fn allocations_go_to_the_system_outside_phases() {
    let mut z = allocator(1);
    let mut t = new_thread();
    assert_eq!(z.allocate(&mut t, 8, 8), Placement::System);
    begin_phase(&mut z);
    assert_eq!(z.allocate(&mut t, 8, 8), Placement::Arena(HOT));
    end_phase(&mut z);
    assert_eq!(z.allocate(&mut t, 8, 8), Placement::System);
    assert_eq!(z.generation, 1);
}

#[test]
fn a_phase_bumps_and_resets_the_cursor() {
    let mut z = allocator(2);
    let (mut t, mut u) = (new_thread(), new_thread());
    begin_phase(&mut z);
    assert_eq!(z.allocate(&mut t, 5, 1), Placement::Arena(HOT));
    assert_eq!(z.allocate(&mut t, 16, 64), Placement::Arena(HOT + 64));
    assert_eq!(z.allocate(&mut t, 1, 1), Placement::Arena(HOT + 80));
    assert_eq!(z.allocate(&mut u, 1, 1), Placement::Arena(HOT + HOT_SLAB_SIZE));
    begin_phase(&mut z);
    assert_eq!(z.allocate(&mut t, 1, 1), Placement::Arena(HOT));
    assert_eq!(z.thread_idx, 2);
}

#[test]
fn what_does_not_fit_goes_to_the_cold_slab_then_to_the_system() {
    let mut z = allocator(1);
    let mut t = new_thread();
    begin_phase(&mut z);
    assert_eq!(z.allocate(&mut t, HOT_SLAB_SIZE, 1), Placement::Arena(HOT));
    assert_eq!(z.allocate(&mut t, 100, 8), Placement::Arena(COLD));
    assert_eq!(z.allocate(&mut t, 1, 8), Placement::Arena(COLD + 104));
    assert_eq!(z.allocate(&mut t, COLD_SLAB_SIZE, 1), Placement::System);
    let mut u = new_thread();
    assert_eq!(z.allocate(&mut u, COLD_SLAB_SIZE + 1, 1), Placement::System);
    assert!(u.in_cold);
}

#[test]
fn threads_beyond_the_slabs_use_the_system() {
    let mut z = allocator(0);
    begin_phase(&mut z);
    for i in 0..4u64 {
        let mut t = new_thread();
        assert_eq!(z.allocate(&mut t, 1, 1), Placement::Arena(HOT + i * HOT_SLAB_SIZE));
    }
    let mut late = new_thread();
    assert_eq!(z.allocate(&mut late, 1, 1), Placement::System);
    assert!(late.no_slab);
    begin_phase(&mut z);
    assert_eq!(z.allocate(&mut late, 1, 1), Placement::System);
}

#[test]
fn regions_are_mapped_before_the_first_slab() {
    let mut z = allocator(1);
    z.hot_region_base = 0;
    z.cold_region_base = 0;
    let t = new_thread();
    assert!(!z.needs_region(&t));
    begin_phase(&mut z);
    assert!(z.needs_region(&t));
    assert!(!z.is_arena_address(0));
    z.hot_region_base = HOT;
    z.cold_region_base = COLD;
    assert!(z.needs_slab(&t));
    assert!(!z.needs_region(&t));
    assert!(z.is_arena_address(HOT));
    assert!(z.is_arena_address(HOT + 5 * HOT_SLAB_SIZE - 1));
    assert!(!z.is_arena_address(HOT + 5 * HOT_SLAB_SIZE));
    assert!(z.is_arena_address(COLD));
    assert!(!z.is_arena_address(COLD + 5 * COLD_SLAB_SIZE));
    assert!(!z.is_arena_address(HOT - 1));
}

#[test]
fn the_generation_wraps() {
    let mut z = allocator(1);
    z.generation = u64::MAX;
    begin_phase(&mut z);
    assert_eq!(z.generation, 0);
}

#[test]
fn blocks_move_only_to_grow() {
    assert_eq!(reallocation(10, 10), Reallocation::Keep);
    assert_eq!(reallocation(10, 3), Reallocation::Keep);
    assert_eq!(reallocation(10, 11), Reallocation::Move { bytes: 10 });
}

#[test]
fn hooks_are_looked_up_once() {
    let mut cache = HookCache::new();
    assert!(cache.needs_lookup());
    cache.resolve(0);
    assert!(!cache.needs_lookup());
    assert_eq!(cache.addr, RESOLVED_NULL);
    assert_eq!(cache.target(), None);
    cache.resolve(0x4000);
    assert_eq!(cache.target(), Some(0x4000));
}
