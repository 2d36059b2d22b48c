use lib::heap::{
    out_of_bounds, ChunkLayout, KChunkHeader,
    CHUNK_HEADER_SIZE,
};
use lib::param::PAGE_SIZE;
use lib::vm::galloc::{highest_set_bit, lowest_set_bit, make_mask, round_up, search_data_layer};
use lib::vm::global::{decide_internal_scheme, Galloc};
use lib::vm::palloc::{Page, PagePool};
use lib::vm::vmalloc::{Header, Kalloc, KallocError, Zone, MAX_CHUNK_SIZE};
use lib::vm::VmError;

const BOTTOM: u64 = 0x8800_0000;

#[test]
fn header_fields_pack_size_and_flag() {
    let mut h = Header::new(0x40);
    assert_eq!(h.chunk_size(), 0x40);
    assert!(h.is_free());
    h.set_used();
    assert!(!h.is_free());
    assert_eq!(h.fields, 0x1040);
    h.set_size(0x80);
    assert_eq!(h.chunk_size(), 0x80);
    assert!(!h.is_free());
    h.set_unused();
    assert_eq!(h.fields, 0x80);
}

#[test]
fn zone_scan_splits_the_first_fit() {
    let mut z = Zone::new(BOTTOM);
    assert_eq!(z.scan(8), Some(BOTTOM + 16));
    assert_eq!(z.scan(16), Some(BOTTOM + 32));
    assert_eq!(z.get_refs(), 2);
    assert_eq!(z.free_chunk(BOTTOM + 16), 1);
    // The freed 8 byte chunk is too small for 16 bytes; it fits 8.
    assert_eq!(z.scan(16), Some(BOTTOM + 56));
    assert_eq!(z.scan(8), Some(BOTTOM + 16));
}

#[test]
fn zone_scan_fails_when_nothing_fits() {
    let mut z = Zone::new(BOTTOM);
    assert_eq!(z.scan(MAX_CHUNK_SIZE), Some(BOTTOM + 16));
    assert_eq!(z.scan(8), None);
}

#[test]
fn kalloc_rounds_sizes_to_eight_bytes() {
    let mut p = PagePool::new(BOTTOM + PAGE_SIZE, BOTTOM + 4 * PAGE_SIZE);
    let mut k = Kalloc::new(Page { addr: BOTTOM });
    let a = k.allocate(&mut p, 5).unwrap();
    let b = k.allocate(&mut p, 9).unwrap();
    assert_eq!(a, BOTTOM + 16);
    assert_eq!(b, a + 8 + 8);
}

#[test]
fn kalloc_refuses_zero_size() {
    let mut p = PagePool::new(BOTTOM + PAGE_SIZE, BOTTOM + 2 * PAGE_SIZE);
    let mut k = Kalloc::new(Page { addr: BOTTOM });
    assert_eq!(k.allocate(&mut p, 0), Err(KallocError::Void));
}

#[test]
fn kalloc_grows_a_zone_from_the_pool() {
    let mut p = PagePool::new(BOTTOM + PAGE_SIZE, BOTTOM + 2 * PAGE_SIZE);
    let mut k = Kalloc::new(Page { addr: BOTTOM });
    assert_eq!(k.allocate(&mut p, MAX_CHUNK_SIZE).unwrap(), BOTTOM + 16);
    assert_eq!(k.allocate(&mut p, 64).unwrap(), BOTTOM + PAGE_SIZE + 16);
    assert!(matches!(p.palloc(), Err(VmError::OutOfPages)));
    assert_eq!(k.allocate(&mut p, MAX_CHUNK_SIZE), Err(KallocError::OOM));
}

#[test]
fn kalloc_free_gives_an_empty_zone_back_to_the_pool() {
    let mut p = PagePool::new(BOTTOM + PAGE_SIZE, BOTTOM + 2 * PAGE_SIZE);
    let mut k = Kalloc::new(Page { addr: BOTTOM });
    let _a = k.allocate(&mut p, MAX_CHUNK_SIZE).unwrap();
    let b = k.allocate(&mut p, 64).unwrap();
    k.free(&mut p, b);
    assert_eq!(p.palloc().unwrap().addr, BOTTOM + PAGE_SIZE);
}

#[test]
fn kalloc_free_keeps_a_zone_with_another_allocation() {
    let mut p = PagePool::new(BOTTOM + PAGE_SIZE, BOTTOM + 2 * PAGE_SIZE);
    let mut k = Kalloc::new(Page { addr: BOTTOM });
    let _a = k.allocate(&mut p, MAX_CHUNK_SIZE).unwrap();
    let b = k.allocate(&mut p, 64).unwrap();
    let c = k.allocate(&mut p, 64).unwrap();
    assert_eq!(c, b + 8 + 64);
    k.free(&mut p, b);
    assert!(matches!(p.palloc(), Err(VmError::OutOfPages)));
}

#[test]
fn kalloc_free_never_gives_back_the_first_zone() {
    let mut p = PagePool::new(BOTTOM + PAGE_SIZE, BOTTOM + 2 * PAGE_SIZE);
    let mut k = Kalloc::new(Page { addr: BOTTOM });
    let a = k.allocate(&mut p, 64).unwrap();
    k.free(&mut p, a);
    assert_eq!(p.palloc().unwrap().addr, BOTTOM + PAGE_SIZE);
    assert!(matches!(p.palloc(), Err(VmError::OutOfPages)));
}

#[test]
fn kalloc_free_then_allocate_reuses_the_chunk() {
    let mut p = PagePool::new(BOTTOM + PAGE_SIZE, BOTTOM + 2 * PAGE_SIZE);
    let mut k = Kalloc::new(Page { addr: BOTTOM });
    let a = k.allocate(&mut p, 32).unwrap();
    let _b = k.allocate(&mut p, 32).unwrap();
    k.free(&mut p, a);
    assert_eq!(k.allocate(&mut p, 32).unwrap(), a);
}

#[test]
fn adjust_size_rounds_up_to_the_alignment() {
    assert_eq!(lib::heap::Kalloc::adjust_size_with_align(13, 8), 16);
    assert_eq!(lib::heap::Kalloc::adjust_size_with_align(16, 8), 16);
    assert_eq!(lib::heap::Kalloc::adjust_size_with_align(0, 64), 0);
    // The rounding masks with `align - 1`, as for any alignment.
    assert_eq!(lib::heap::Kalloc::adjust_size_with_align(41, 40), 48);
    assert_eq!(lib::heap::Kalloc::adjust_ptr_with_align(41, 40), (48, 7));
}

#[test]
fn adjust_ptr_moves_forward_to_the_alignment() {
    assert_eq!(lib::heap::Kalloc::adjust_ptr_with_align(0x1003, 0x10), (0x1010, 0xd));
    assert_eq!(lib::heap::Kalloc::adjust_ptr_with_align(0x1000, 0x10), (0x1000, 0));
}

#[test]
fn out_of_bounds_is_half_open() {
    assert!(!out_of_bounds(10, 10, 20));
    assert!(out_of_bounds(20, 10, 20));
    assert!(out_of_bounds(9, 10, 20));
}

#[test]
fn chunk_header_sizes() {
    let mut h = KChunkHeader {
        size: 0,
        layout: ChunkLayout { size: 0, align: 1 },
        is_free: false,
        alignment_offset: 8,
    };
    h.init_free(200);
    assert_eq!(h.size(), 200);
    assert_eq!(h.size_with_padding(), 200 - CHUNK_HEADER_SIZE);
    assert_eq!(h.user_size(), 200 - CHUNK_HEADER_SIZE);
    assert!(h.matches_layout(&ChunkLayout { size: 0, align: 1 }));
}

#[test]
fn heap_allocate_aligns_and_splits() {
    let mut k = lib::heap::Kalloc::new(0x1000, 0x2000);
    let l = ChunkLayout { size: 24, align: 8 };
    let a = k.allocate(l);
    // Data is aligned to the larger of the request's alignment and 64: the
    // first multiple of 64 after the header.
    assert_eq!(a, 4160);
    let b = k.allocate(l);
    // The first chunk keeps header, padding and data (88 bytes); the second
    // header follows it at 4184, and its data is aligned again.
    assert_eq!(b, 4224);
}

#[test]
fn heap_allocate_meets_a_sixteen_byte_alignment() {
    let mut k = lib::heap::Kalloc::new(0x1020, 0x2000);
    let a = k.allocate(ChunkLayout { size: 16, align: 16 });
    assert_eq!(a, 0x1080);
    assert_eq!(a % 16, 0);
}

#[test]
fn heap_allocate_fails_when_nothing_fits() {
    let mut k = lib::heap::Kalloc::new(0x1000, 0x1100);
    assert_eq!(k.allocate(ChunkLayout { size: 0x200, align: 8 }), 0);
}

#[test]
fn heap_deallocate_then_allocate_reuses_memory() {
    let mut k = lib::heap::Kalloc::new(0x1000, 0x2000);
    let l = ChunkLayout { size: 24, align: 8 };
    let a = k.allocate(l);
    let _b = k.allocate(l);
    k.deallocate(a, l);
    assert_eq!(k.allocate(l), a);
}

#[test]
fn heap_reallocate_in_place_when_room() {
    let mut k = lib::heap::Kalloc::new(0x1000, 0x2000);
    let l = ChunkLayout { size: 24, align: 8 };
    let a = k.allocate(l);
    // The chunk merges with the free rest of the heap and stays put.
    assert_eq!(k.reallocate(a, l, 100), Some((a, 0)));
}

#[test]
fn heap_reallocate_moves_when_blocked() {
    let mut k = lib::heap::Kalloc::new(0x1000, 0x2000);
    let l = ChunkLayout { size: 24, align: 8 };
    let a = k.allocate(l);
    let _b = k.allocate(l);
    let (c, moved) = k.reallocate(a, l, 200).unwrap();
    assert_ne!(c, a);
    assert_eq!(moved, 24);
}

#[test]
fn heap_reallocate_refused_when_no_chunk_has_room() {
    let mut k = lib::heap::Kalloc::new(0x1000, 0x1100);
    let l = ChunkLayout { size: 24, align: 8 };
    let a = k.allocate(l);
    assert_eq!(k.reallocate(a, l, 0x200), None);
    // The allocation is left as it was and can still be given back.
    k.deallocate(a, l);
    assert_eq!(k.allocate(l), a);
}

#[test]
fn make_mask_sets_low_bits() {
    assert_eq!(make_mask(0), 0);
    assert_eq!(make_mask(3), 0b111);
    assert_eq!(make_mask(64), u64::MAX);
    assert_eq!(make_mask(70), u64::MAX);
}

#[test]
fn round_up_gives_the_power_of_two() {
    assert_eq!(round_up(1), 1);
    assert_eq!(round_up(5), 8);
    assert_eq!(round_up(64), 64);
    assert_eq!(round_up(65), 128);
}

#[test]
fn search_data_layer_finds_aligned_clear_runs() {
    // 16 bytes take two units; runs start at even units.
    assert_eq!(search_data_layer(16, 0b0001), Some(2));
    assert_eq!(search_data_layer(16, 0b0000), Some(0));
    assert_eq!(search_data_layer(8, 0b0111), Some(3));
    assert_eq!(search_data_layer(8, u64::MAX), None);
}

#[test]
fn set_bit_searches() {
    assert_eq!(lowest_set_bit(0b1010_0000), Some(5));
    assert_eq!(highest_set_bit(0b1010_0000), Some(7));
    assert_eq!(lowest_set_bit(0), None);
    assert_eq!(highest_set_bit(0), None);
    assert_eq!(highest_set_bit(1), Some(0));
}

#[test]
fn internal_scheme_picks_the_allocator() {
    assert_eq!(decide_internal_scheme(8, 8), 0);
    assert_eq!(decide_internal_scheme(4080, 8), 0);
    assert_eq!(decide_internal_scheme(100, 16), 1);
    assert_eq!(decide_internal_scheme(4081, 8), 1);
    assert_eq!(decide_internal_scheme(8193, 8), 3);
}

#[test]
fn galloc_small_and_page_allocations() {
    let mut p = PagePool::new(BOTTOM, BOTTOM + 8 * PAGE_SIZE);
    let mut g = Galloc::new(&mut p);
    let small = g.allocate(&mut p, 24, 8).unwrap();
    assert_eq!(small, BOTTOM + 16);
    let big = g.allocate(&mut p, 8192, 8).unwrap();
    assert_eq!(big, BOTTOM + PAGE_SIZE);
    assert!(g.deallocate(&mut p, big, 8192, 8).is_ok());
    assert!(g.deallocate(&mut p, small, 24, 8).is_ok());
    assert_eq!(p.palloc_plural(2).unwrap(), BOTTOM + PAGE_SIZE);
}

const GBOTTOM: u64 = 0x8800_0000;

fn gpool(pages: u64) -> lib::vm::palloc::PagePool {
    lib::vm::palloc::PagePool::new(GBOTTOM, GBOTTOM + pages * 4096)
}

#[test]
fn galloc_tree_first_piece_takes_a_new_data_page() {
    let mut pool = gpool(8);
    let mut g = lib::vm::galloc::GAlloc::new(&mut pool);
    // The root header takes the first page, the first data page the next.
    assert_eq!(g.allocate(&mut pool, 8), Ok(GBOTTOM + 0x1000));
    assert_eq!(g.allocate(&mut pool, 8), Ok(GBOTTOM + 0x1008));
}

#[test]
fn galloc_tree_pieces_are_naturally_aligned() {
    let mut pool = gpool(8);
    let mut g = lib::vm::galloc::GAlloc::new(&mut pool);
    assert_eq!(g.allocate(&mut pool, 8), Ok(GBOTTOM + 0x1000));
    // 16 bytes take two units at an even unit.
    assert_eq!(g.allocate(&mut pool, 16), Ok(GBOTTOM + 0x1010));
    // 24 bytes round up to 32: four units at a multiple of four.
    assert_eq!(g.allocate(&mut pool, 24), Ok(GBOTTOM + 0x1020));
    assert_eq!(g.allocate(&mut pool, 8), Ok(GBOTTOM + 0x1008));
}

#[test]
fn galloc_tree_whole_page_piece_needs_an_empty_data_page() {
    let mut pool = gpool(8);
    let mut g = lib::vm::galloc::GAlloc::new(&mut pool);
    assert_eq!(g.allocate(&mut pool, 8), Ok(GBOTTOM + 0x1000));
    assert_eq!(g.allocate(&mut pool, 4096), Ok(GBOTTOM + 0x2000));
    assert_eq!(g.allocate(&mut pool, 8), Ok(GBOTTOM + 0x1008));
}

#[test]
fn galloc_tree_deallocate_then_allocate_reuses_the_units() {
    let mut pool = gpool(8);
    let mut g = lib::vm::galloc::GAlloc::new(&mut pool);
    let a = g.allocate(&mut pool, 8).unwrap();
    let b = g.allocate(&mut pool, 8).unwrap();
    let _c = g.allocate(&mut pool, 8).unwrap();
    g.deallocate(b, 8);
    assert_eq!(g.allocate(&mut pool, 8), Ok(b));
    g.deallocate(a, 8);
    assert_eq!(g.allocate(&mut pool, 8), Ok(a));
}

#[test]
fn galloc_tree_unlinks_a_data_page_left_empty() {
    let mut pool = gpool(8);
    let mut g = lib::vm::galloc::GAlloc::new(&mut pool);
    let a = g.allocate(&mut pool, 8).unwrap();
    assert_eq!(a, GBOTTOM + 0x1000);
    g.deallocate(a, 8);
    // The emptied data page left the tree: the next piece needs a new page.
    assert_eq!(g.allocate(&mut pool, 8), Ok(GBOTTOM + 0x2000));
}

#[test]
fn galloc_tree_freeing_an_unknown_page_changes_nothing() {
    let mut pool = gpool(8);
    let mut g = lib::vm::galloc::GAlloc::new(&mut pool);
    assert_eq!(g.allocate(&mut pool, 8), Ok(GBOTTOM + 0x1000));
    g.deallocate(GBOTTOM + 0x5000, 8);
    assert_eq!(g.allocate(&mut pool, 8), Ok(GBOTTOM + 0x1008));
}

#[test]
fn galloc_tree_grows_a_level_when_the_root_is_full() {
    let mut pool = gpool(40);
    let mut g = lib::vm::galloc::GAlloc::new(&mut pool);
    for k in 1..=32u64 {
        assert_eq!(g.allocate(&mut pool, 4096), Ok(GBOTTOM + k * 0x1000));
    }
    // A new root, a new level 1 header under it, then a new data page.
    assert_eq!(g.allocate(&mut pool, 4096), Ok(GBOTTOM + 35 * 0x1000));
    assert_eq!(g.allocate(&mut pool, 4096), Ok(GBOTTOM + 36 * 0x1000));
}

#[test]
fn galloc_tree_reports_out_of_pages() {
    let mut pool = gpool(2);
    let mut g = lib::vm::galloc::GAlloc::new(&mut pool);
    assert_eq!(g.allocate(&mut pool, 8), Ok(GBOTTOM + 0x1000));
    assert_eq!(g.allocate(&mut pool, 4096), Err(lib::vm::VmError::OutOfPages));
    // Room left on the data page is still handed out.
    assert_eq!(g.allocate(&mut pool, 8), Ok(GBOTTOM + 0x1008));
}

#[test]
fn galloc_tree_takes_the_lowest_page_once_a_data_page_is_full() {
    let mut pool = gpool(8);
    let mut g = lib::vm::galloc::GAlloc::new(&mut pool);
    // 64 pieces of 8 bytes fill the first data page, in order.
    for k in 0..64u64 {
        assert_eq!(g.allocate(&mut pool, 8), Ok(GBOTTOM + 0x1000 + 8 * k));
    }
    // The next piece goes on a new data page, the lowest free one.
    assert_eq!(g.allocate(&mut pool, 8), Ok(GBOTTOM + 0x2000));
}

#[test]
fn kalloc_zone_layout_through_allocate_and_free() {
    let mut p = PagePool::new(BOTTOM + PAGE_SIZE, BOTTOM + 4 * PAGE_SIZE);
    let mut k = Kalloc::new(Page { addr: BOTTOM });
    let z = k.zone(0);
    assert_eq!(z.num_chunks(), 1);
    assert_eq!(z.chunk(0).offset, 8);
    assert_eq!(z.chunk(0).head.chunk_size(), MAX_CHUNK_SIZE);
    assert!(z.chunk(0).head.is_free());
    let a = k.allocate(&mut p, 8).unwrap();
    assert_eq!(a, BOTTOM + 16);
    let z = k.zone(0);
    assert_eq!(z.get_refs(), 1);
    assert_eq!(z.num_chunks(), 2);
    assert!(!z.chunk(0).head.is_free());
    assert_eq!(z.chunk(0).head.chunk_size(), 8);
    assert_eq!(z.chunk(1).offset, 24);
    assert_eq!(z.chunk(1).head.chunk_size(), 4064);
    k.free(&mut p, a);
    let z = k.zone(0);
    assert_eq!(z.get_refs(), 0);
    assert!(z.chunk(0).head.is_free());
    assert_eq!(z.chunk(0).head.chunk_size(), 8);
    assert_eq!(z.chunk(1).head.chunk_size(), 4064);
}

#[test]
fn kalloc_second_zone_takes_first_fit() {
    let mut p = PagePool::new(BOTTOM + PAGE_SIZE, BOTTOM + 4 * PAGE_SIZE);
    let mut k = Kalloc::new(Page { addr: BOTTOM });
    assert_eq!(k.allocate(&mut p, MAX_CHUNK_SIZE).unwrap(), BOTTOM + 16);
    let zpage = BOTTOM + PAGE_SIZE;
    assert_eq!(k.allocate(&mut p, 8).unwrap(), zpage + 16);
    assert_eq!(k.allocate(&mut p, 8).unwrap(), zpage + 32);
    assert_eq!(k.num_zones(), 2);
    assert_eq!(k.zone(1).base_addr(), zpage);
}

#[test]
fn kalloc_free_absorbs_the_free_chunk_after_it() {
    let mut p = PagePool::new(BOTTOM + PAGE_SIZE, BOTTOM + 4 * PAGE_SIZE);
    let mut k = Kalloc::new(Page { addr: BOTTOM });
    let a = k.allocate(&mut p, 8).unwrap();
    let b = k.allocate(&mut p, 8).unwrap();
    assert_eq!(b, BOTTOM + 32);
    assert_eq!(k.zone(0).num_chunks(), 3);
    assert_eq!(k.zone(0).chunk(2).head.chunk_size(), 4048);
    // `a` stays in use, so the freed chunk takes in the free one after it.
    k.free(&mut p, b);
    let z = k.zone(0);
    assert_eq!(z.get_refs(), 1);
    assert_eq!(z.num_chunks(), 2);
    assert!(z.chunk(1).head.is_free());
    assert_eq!(z.chunk(1).offset, 24);
    assert_eq!(z.chunk(1).head.chunk_size(), 8 + 8 + 4048);
    assert_eq!(z.chunk(0).head.chunk_size(), 8);
    assert_eq!(k.allocate(&mut p, 8).unwrap(), BOTTOM + 32);
    let _ = a;
}

#[test]
fn kalloc_zero_bytes_leaves_the_zone_alone() {
    let mut p = PagePool::new(BOTTOM + PAGE_SIZE, BOTTOM + 4 * PAGE_SIZE);
    let mut k = Kalloc::new(Page { addr: BOTTOM });
    assert_eq!(k.allocate(&mut p, 0), Err(KallocError::Void));
    let z = k.zone(0);
    assert_eq!(z.num_chunks(), 1);
    assert_eq!(z.get_refs(), 0);
    assert!(z.chunk(0).head.is_free());
    assert_eq!(z.chunk(0).head.chunk_size(), MAX_CHUNK_SIZE);
    assert_eq!(k.num_zones(), 1);
}
