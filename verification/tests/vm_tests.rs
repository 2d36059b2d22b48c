use lib::param::{DRAM_BASE, PAGE_SIZE};
use lib::vm::palloc::{is_multiple, Page, PagePool};
use lib::vm::ptable::{
    kernel_process_flags, kpage_init, page_map, phy_to_pte, phy_to_satp, pte_to_phy,
    user_process_flags, vpn, walk, KernelLayout, PageTable, PtMem, PTE_READ, PTE_VALID,
    PTE_WRITE,
};
use lib::vm::{request_phys_page, test_phys_page, VmError};

const BOTTOM: u64 = 0x8800_0000;

fn pool(pages: u64) -> PagePool {
    PagePool::new(BOTTOM, BOTTOM + pages * PAGE_SIZE)
}

#[test]
fn palloc_hands_out_lowest_page_first() {
    let mut p = pool(4);
    for k in 0..4 {
        assert_eq!(p.palloc().unwrap().addr, BOTTOM + k * PAGE_SIZE);
    }
    assert!(matches!(p.palloc(), Err(VmError::OutOfPages)));
}

#[test]
fn pfree_then_palloc_gives_the_page_back() {
    let mut p = pool(4);
    let a = p.palloc().unwrap();
    let b = p.palloc().unwrap();
    assert!(p.pfree(a).is_ok());
    assert_eq!(p.palloc().unwrap().addr, a.addr);
    assert_ne!(a.addr, b.addr);
}

#[test]
fn pfree_puts_pages_back_in_address_order() {
    let mut p = pool(3);
    let a = p.palloc().unwrap();
    let b = p.palloc().unwrap();
    let c = p.palloc().unwrap();
    assert!(p.pfree(c).is_ok());
    assert!(p.pfree(a).is_ok());
    assert!(p.pfree(b).is_ok());
    assert_eq!(p.palloc_plural(3).unwrap(), a.addr);
}

#[test]
fn palloc_plural_takes_the_first_run_that_fits() {
    let mut p = pool(8);
    let one = p.palloc().unwrap();
    let _two = p.palloc().unwrap();
    assert!(p.pfree(one).is_ok());
    // Page 0 is free but alone: a run of two starts at page 2.
    assert_eq!(p.palloc_plural(2).unwrap(), BOTTOM + 2 * PAGE_SIZE);
    assert_eq!(p.palloc_plural(4).unwrap(), BOTTOM + 4 * PAGE_SIZE);
    assert!(matches!(p.palloc_plural(2), Err(VmError::OutOfPages)));
    assert_eq!(p.palloc_plural(1).unwrap(), BOTTOM);
}

#[test]
fn pfree_plural_returns_a_whole_run() {
    let mut p = pool(4);
    let a = p.palloc_plural(3).unwrap();
    assert!(p.pfree_plural(a, 3).is_ok());
    assert_eq!(p.palloc_plural(4).unwrap(), BOTTOM);
}

#[test]
fn pfree_plural_links_a_run_between_free_pages() {
    let mut p = pool(4);
    let a = p.palloc().unwrap();
    let run = p.palloc_plural(2).unwrap();
    assert_eq!(run, a.addr + PAGE_SIZE);
    assert!(p.pfree_plural(run, 2).is_ok());
    assert!(p.pfree(a).is_ok());
    assert_eq!(p.palloc_plural(4).unwrap(), BOTTOM);
}

#[test]
fn is_multiple_checks_alignment() {
    assert!(is_multiple(0x3000, 0x1000));
    assert!(!is_multiple(0x3008, 0x1000));
    assert!(is_multiple(0x18, 8));
}

#[test]
fn request_phys_page_and_release() {
    let mut p = pool(4);
    let e = request_phys_page(&mut p, 3).unwrap();
    assert_eq!(e.start(), BOTTOM);
    assert_eq!(e.num(), 3);
    assert_eq!(e.end(), BOTTOM + 3 * PAGE_SIZE);
    assert!(matches!(request_phys_page(&mut p, 2), Err(VmError::OutOfPages)));
    e.release(&mut p);
    assert_eq!(request_phys_page(&mut p, 4).unwrap().start(), BOTTOM);
}

#[test]
fn test_phys_page_leaves_the_pool_as_it_was() {
    let mut p = pool(3);
    test_phys_page(&mut p);
    assert_eq!(p.palloc_plural(3).unwrap(), BOTTOM);
}

#[test]
fn vpn_takes_nine_bits_per_level() {
    let va: u64 = (3 << 30) | (5 << 21) | (7 << 12) | 0x123;
    assert_eq!(vpn(va, 2), 3);
    assert_eq!(vpn(va, 1), 5);
    assert_eq!(vpn(va, 0), 7);
}

#[test]
fn pte_and_physical_address_convert_both_ways() {
    let pa: u64 = 0x8020_3000;
    assert_eq!(phy_to_pte(pa), (pa >> 12) << 10);
    assert_eq!(pte_to_phy(phy_to_pte(pa) | PTE_VALID), pa);
    assert_eq!(phy_to_satp(pa), (8u64 << 60) | (pa >> 12));
    assert_eq!(PageTable::new(pa).satp(), (8u64 << 60) | (pa >> 12));
}

#[test]
fn process_flags_values() {
    assert_eq!(user_process_flags(true, true, false), 0x10 | 0x2 | 0x4);
    assert_eq!(user_process_flags(false, false, true), 0x10 | 0x8);
    assert_eq!(kernel_process_flags(true, false, true), 0x2 | 0x8);
    assert_eq!(kernel_process_flags(false, false, false), 0);
}

fn fresh_table(p: &mut PagePool, m: &mut PtMem) -> PageTable {
    let root = p.palloc().unwrap().addr;
    m.add_zeroed(root);
    PageTable::new(root)
}

#[test]
fn page_map_then_walk_finds_the_leaf() {
    let mut p = pool(16);
    let mut m = PtMem::new();
    let pt = fresh_table(&mut p, &mut m);
    let va: u64 = 0x4000_1000;
    let pa: u64 = 0x9000_0000;
    assert!(page_map(&mut p, &mut m, pt, va, pa, 2 * PAGE_SIZE, PTE_READ).is_ok());
    let leaf = walk(&mut p, &mut m, pt, va, false).unwrap();
    assert_eq!(m.read(leaf.table, leaf.index), phy_to_pte(pa) | PTE_READ | PTE_VALID);
    let leaf2 = walk(&mut p, &mut m, pt, va + PAGE_SIZE, false).unwrap();
    assert_eq!(m.read(leaf2.table, leaf2.index), phy_to_pte(pa + PAGE_SIZE) | PTE_READ | PTE_VALID);
}

#[test]
fn page_map_refuses_a_mapped_page() {
    let mut p = pool(16);
    let mut m = PtMem::new();
    let pt = fresh_table(&mut p, &mut m);
    assert!(page_map(&mut p, &mut m, pt, 0x1000, 0x9000_0000, PAGE_SIZE, PTE_READ).is_ok());
    assert!(matches!(
        page_map(&mut p, &mut m, pt, 0x1000, 0x9100_0000, PAGE_SIZE, PTE_WRITE),
        Err(VmError::PallocFail)
    ));
}

#[test]
fn walk_without_allocation_fails_on_missing_tables() {
    let mut p = pool(4);
    let mut m = PtMem::new();
    let pt = fresh_table(&mut p, &mut m);
    assert!(matches!(walk(&mut p, &mut m, pt, 0x1000, false), Err(VmError::PallocFail)));
}

#[test]
fn page_map_runs_out_of_table_pages() {
    let mut p = pool(2);
    let mut m = PtMem::new();
    let pt = fresh_table(&mut p, &mut m);
    assert!(matches!(
        page_map(&mut p, &mut m, pt, 0x1000, 0x9000_0000, PAGE_SIZE, PTE_READ),
        Err(VmError::OutOfPages)
    ));
}

pub fn small_layout() -> KernelLayout {
    KernelLayout {
        text_start: DRAM_BASE,
        text_end: DRAM_BASE + 0x2000,
        rodata_end: DRAM_BASE + 0x3000,
        data_end: DRAM_BASE + 0x4000,
        stacks_start: DRAM_BASE + 0x4000,
        intstacks_start: DRAM_BASE + 0xA000,
        bss_start: DRAM_BASE + 0x12000,
        bss_end: DRAM_BASE + 0x13000,
        memory_end: DRAM_BASE + 0x14000,
    }
}

#[test]
fn kpage_init_maps_the_kernel_onto_itself() {
    let mut p = pool(64);
    let mut m = PtMem::new();
    let pt = kpage_init(&mut p, &mut m, small_layout()).unwrap();
    let leaf = walk(&mut p, &mut m, pt, DRAM_BASE + 0x1000, false).unwrap();
    assert_eq!(
        m.read(leaf.table, leaf.index),
        phy_to_pte(DRAM_BASE + 0x1000) | 0x2 | 0x8 | PTE_VALID
    );
    let uart = walk(&mut p, &mut m, pt, lib::param::UART_BASE, false).unwrap();
    assert_eq!(
        m.read(uart.table, uart.index),
        phy_to_pte(lib::param::UART_BASE) | 0x2 | 0x4 | PTE_VALID
    );
}

#[test]
fn table_pages_lists_every_table_page() {
    let mut p = pool(16);
    let mut m = PtMem::new();
    let pt = fresh_table(&mut p, &mut m);
    assert_eq!(m.table_pages(), vec![pt.base]);
    assert!(page_map(&mut p, &mut m, pt, 0x1000, 0x9000_0000, PAGE_SIZE, PTE_READ).is_ok());
    let pages = m.table_pages();
    // The root and one table page for each of the two lower levels.
    assert_eq!(pages.len(), 3);
    assert!(pages.contains(&pt.base));
}

#[test]
fn page_map_keeps_the_pages_before_a_mapped_one() {
    let mut p = pool(16);
    let mut m = PtMem::new();
    let pt = fresh_table(&mut p, &mut m);
    assert!(page_map(&mut p, &mut m, pt, 0x3000, 0x9000_0000, PAGE_SIZE, PTE_READ).is_ok());
    assert!(matches!(
        page_map(&mut p, &mut m, pt, 0x1000, 0x9100_0000, 3 * PAGE_SIZE, PTE_WRITE),
        Err(VmError::PallocFail)
    ));
    let first = walk(&mut p, &mut m, pt, 0x1000, false).unwrap();
    assert_eq!(m.read(first.table, first.index), phy_to_pte(0x9100_0000) | PTE_WRITE | PTE_VALID);
    let second = walk(&mut p, &mut m, pt, 0x2000, false).unwrap();
    assert_eq!(m.read(second.table, second.index), phy_to_pte(0x9100_1000) | PTE_WRITE | PTE_VALID);
    let third = walk(&mut p, &mut m, pt, 0x3000, false).unwrap();
    assert_eq!(m.read(third.table, third.index), phy_to_pte(0x9000_0000) | PTE_READ | PTE_VALID);
}

#[test]
fn page_map_succeeds_with_two_free_pages_per_page() {
    let mut p = pool(3);
    let mut m = PtMem::new();
    let pt = fresh_table(&mut p, &mut m);
    assert!(p.has_free());
    assert!(page_map(&mut p, &mut m, pt, 0x1000, 0x9000_0000, PAGE_SIZE, PTE_READ).is_ok());
    // Both middle tables came from the pool.
    assert!(!p.has_free());
}

#[test]
fn has_free_tells_an_empty_pool() {
    let mut p = pool(1);
    assert!(p.has_free());
    let _ = p.palloc().unwrap();
    assert!(!p.has_free());
}
