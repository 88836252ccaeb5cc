use segstore::memory_arena::{Addr, MemoryArena, PAGE_SIZE};

#[test]
fn test_arena_allocate_slice() {
    let mut arena = MemoryArena::default();
    let a = b"hello";
    let b = b"happy tax payer";

    let addr_a = arena.allocate_space(a.len());
    arena.write_bytes(addr_a, a);

    let addr_b = arena.allocate_space(b.len());
    arena.write_bytes(addr_b, b);

    assert_eq!(arena.slice(addr_a, a.len()), a);
    assert_eq!(arena.slice(addr_b, b.len()), b);
}

#[test]
fn test_arena_allocate_end_of_page() {
    let mut arena = MemoryArena::default();

    // A big block
    let len_a = PAGE_SIZE - 2;
    let addr_a = arena.allocate_space(len_a);
    arena.write_bytes(addr_a.offset((len_a - 1) as u32), &[1]);

    // Single bytes
    let addr_b = arena.allocate_space(1);
    arena.write_bytes(addr_b, &[2]);

    let addr_c = arena.allocate_space(1);
    arena.write_bytes(addr_c, &[3]);

    let addr_d = arena.allocate_space(1);
    arena.write_bytes(addr_d, &[4]);

    assert_eq!(arena.slice(addr_a, len_a)[len_a - 1], 1);
    assert_eq!(arena.slice(addr_b, 1)[0], 2);
    assert_eq!(arena.slice(addr_c, 1)[0], 3);
    assert_eq!(arena.slice(addr_d, 1)[0], 4);
}

#[test]
fn test_store_object() {
    let mut arena = MemoryArena::default();
    let a = ((143u64, 21u8), 32u32);
    let b = ((113u64, 221u8), 12u32);

    let num_bytes = <((u64, u8), u32) as segstore::memory_arena::ArenaStorable>::num_bytes();
    let addr_a = arena.allocate_space(num_bytes);
    arena.write_at(addr_a, a);

    let addr_b = arena.allocate_space(num_bytes);
    arena.write_at(addr_b, b);

    assert_eq!(arena.read::<((u64, u8), u32)>(addr_a), a);
    assert_eq!(arena.read::<((u64, u8), u32)>(addr_b), b);
}

#[test]
fn test_arena_len_accounting() {
    let mut arena = MemoryArena::default();
    assert!(arena.is_empty());
    assert_eq!(arena.len(), 0);
    assert_eq!(arena.mem_usage(), PAGE_SIZE);

    arena.allocate_space(10);
    arena.allocate_space(7);
    assert_eq!(arena.len(), 17);
    assert!(!arena.is_empty());

    // does not fit in the rest of the first page: a fresh page is started
    // and the tail of the first page counts as used
    arena.allocate_space(PAGE_SIZE - 10);
    assert_eq!(arena.len(), PAGE_SIZE + (PAGE_SIZE - 10));
    assert_eq!(arena.mem_usage(), 2 * PAGE_SIZE);
}

#[test]
fn test_arena_oversized_allocation() {
    let mut arena = MemoryArena::default();
    let big = PAGE_SIZE + 123;
    let addr = arena.allocate_space(big);
    arena.write_bytes(addr, &[9]);
    assert_eq!(arena.slice(addr, 1)[0], 9);
    // the request went to a fresh page dedicated to it, sized to the
    // request; resident memory counts both pages' actual sizes
    assert_eq!(arena.len(), PAGE_SIZE + big);
    assert_eq!(arena.mem_usage(), PAGE_SIZE + big);
}

#[test]
fn test_addr_null() {
    let null = Addr::null_pointer();
    assert!(null.is_null());
    let mut arena = MemoryArena::default();
    let addr = arena.allocate_space(4);
    assert!(!addr.is_null());
}

#[test]
fn test_store_load_free_functions() {
    let mut buf = vec![0u8; 8];
    segstore::memory_arena::store(&mut buf, 0x1122_3344_5566_7788u64);
    assert_eq!(buf, vec![0x88, 0x77, 0x66, 0x55, 0x44, 0x33, 0x22, 0x11]);
    let back: u64 = segstore::memory_arena::load(&buf);
    assert_eq!(back, 0x1122_3344_5566_7788u64);
}
