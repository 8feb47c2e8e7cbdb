use gouache::arena::{Arena, ArenaSlice};

fn u32_bytes(xs: &[u32]) -> Vec<u8> {
    let mut out = Vec::new();
    for x in xs {
        out.extend_from_slice(&x.to_le_bytes());
    }
    out
}

#[test]
fn alloc_test_overflow() {
    let mut arena = Arena::with_capacity(4);

    let x = arena.alloc_slice(&3u64.to_le_bytes(), std::mem::align_of::<u64>());
    assert_eq!(u64::from_le_bytes(arena.read(x).try_into().unwrap()), 3);
    assert_eq!(arena.num_blocks(), 2);
}

#[test]
fn alloc_test_alignment() {
    let mut arena = Arena::with_capacity(1024);

    let x = arena.alloc_slice(&3u8.to_le_bytes(), std::mem::align_of::<u8>());
    assert_eq!(x.offset % std::mem::align_of::<u8>(), 0);

    let x = arena.alloc_slice(&3u16.to_le_bytes(), std::mem::align_of::<u16>());
    assert_eq!(x.offset % std::mem::align_of::<u16>(), 0);

    let x = arena.alloc_slice(&3u32.to_le_bytes(), std::mem::align_of::<u32>());
    assert_eq!(x.offset % std::mem::align_of::<u32>(), 0);

    let x = arena.alloc_slice(&3u64.to_le_bytes(), std::mem::align_of::<u64>());
    assert_eq!(x.offset % std::mem::align_of::<u64>(), 0);
}

#[test]
fn alloc_test_slice() {
    let mut arena = Arena::with_capacity(1024);

    let xs: [u32; 16] = [0; 16];
    let bytes = u32_bytes(&xs);
    let ys = arena.alloc_slice(&bytes, std::mem::align_of::<u32>());
    assert_eq!(bytes, arena.read(ys));
}

#[test]
fn arena_test_overflow() {
    let mut arena = Arena::with_capacity(4);

    let x = arena.alloc_slice(&3u64.to_le_bytes(), std::mem::align_of::<u64>());
    assert_eq!(u64::from_le_bytes(arena.read(x).try_into().unwrap()), 3);
    assert_eq!(arena.num_blocks(), 2);
}

#[test]
fn arena_test_alignment() {
    let mut arena = Arena::with_capacity(1024);

    let x = arena.alloc_slice(&3u8.to_le_bytes(), std::mem::align_of::<u8>());
    assert_eq!(x.offset % std::mem::align_of::<u8>(), 0);

    let x = arena.alloc_slice(&3u16.to_le_bytes(), std::mem::align_of::<u16>());
    assert_eq!(x.offset % std::mem::align_of::<u16>(), 0);

    let x = arena.alloc_slice(&3u32.to_le_bytes(), std::mem::align_of::<u32>());
    assert_eq!(x.offset % std::mem::align_of::<u32>(), 0);

    let x = arena.alloc_slice(&3u64.to_le_bytes(), std::mem::align_of::<u64>());
    assert_eq!(x.offset % std::mem::align_of::<u64>(), 0);
}

#[test]
fn arena_test_slice() {
    let mut arena = Arena::with_capacity(1024);

    let xs: [u32; 16] = [0; 16];
    let bytes = u32_bytes(&xs);
    let ys = arena.alloc_slice(&bytes, std::mem::align_of::<u32>());
    assert_eq!(bytes, arena.read(ys));
}

#[test]
fn arena_padding_places_value_at_aligned_offset() {
    let mut arena = Arena::with_capacity(64);
    let a = arena.alloc_slice(&[7u8], 1);
    assert_eq!(a, ArenaSlice { block: 0, offset: 0, len: 1 });
    let b = arena.alloc_slice(&5u32.to_le_bytes(), 4);
    assert_eq!(b, ArenaSlice { block: 0, offset: 4, len: 4 });
    let c = arena.alloc_bytes(3, 8);
    assert_eq!(c, ArenaSlice { block: 0, offset: 8, len: 3 });
    assert_eq!(arena.read(c), vec![0u8, 0, 0]);
    assert_eq!(arena.num_blocks(), 1);
}

#[test]
fn arena_overflow_appends_block_and_keeps_earlier_values() {
    let mut arena = Arena::with_capacity(8);
    let a = arena.alloc_slice(&[1u8, 2, 3, 4, 5, 6], 1);
    // 6 used; 4 more at alignment 4 needs 2 padding + 4 = 12 > 8.
    let b = arena.alloc_slice(&[9u8, 9, 9, 9], 4);
    assert_eq!(arena.num_blocks(), 2);
    assert_eq!(b, ArenaSlice { block: 1, offset: 0, len: 4 });
    assert_eq!(arena.read(a), vec![1u8, 2, 3, 4, 5, 6]);
    assert_eq!(arena.read(b), vec![9u8, 9, 9, 9]);
    // The new block holds twice the old capacity: 16 bytes, 4 used.
    let c = arena.alloc_bytes(12, 1);
    assert_eq!(c, ArenaSlice { block: 1, offset: 4, len: 12 });
    assert_eq!(arena.num_blocks(), 2);
    let d = arena.alloc_bytes(1, 1);
    assert_eq!(d.block, 2);
    assert_eq!(arena.read(a), vec![1u8, 2, 3, 4, 5, 6]);
}

#[test]
fn arena_request_larger_than_doubled_block() {
    let mut arena = Arena::with_capacity(2);
    let big = arena.alloc_bytes(100, 1);
    assert_eq!(big, ArenaSlice { block: 1, offset: 0, len: 100 });
    // The new block holds 200 bytes: 100 more fit.
    let more = arena.alloc_bytes(100, 1);
    assert_eq!(more, ArenaSlice { block: 1, offset: 100, len: 100 });
    assert_eq!(arena.num_blocks(), 2);
}

#[test]
fn arena_empty_allocation() {
    let mut arena = Arena::with_capacity(0);
    let e = arena.alloc_slice(&[], 1);
    assert_eq!(e, ArenaSlice { block: 0, offset: 0, len: 0 });
    assert_eq!(arena.read(e), Vec::<u8>::new());
    assert_eq!(arena.num_blocks(), 1);
}
