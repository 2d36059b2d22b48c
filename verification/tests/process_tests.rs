use lib::file::elf64::{
    elf64_supported, ELFError, ELFProgram, ProgramHeaderSegment64, ProgramSegmentType,
};
use lib::id::IdGenerator;
use lib::param::{DRAM_BASE, PAGE_SIZE};
use lib::process::initialization::{check_segment, SegmentCopy, STACK_PAGES};
use lib::process::{Process, ProcessState};
use lib::vm::palloc::PagePool;
use lib::vm::ptable::{phy_to_pte, user_process_flags, walk, KernelLayout, PtMem, PTE_VALID};

const BOTTOM: u64 = 0x8800_0000;

fn layout() -> KernelLayout {
    KernelLayout {
        text_start: DRAM_BASE,
        text_end: DRAM_BASE + 0x2000,
        rodata_end: DRAM_BASE + 0x3000,
        data_end: DRAM_BASE + 0x4000,
        stacks_start: DRAM_BASE + 0x4000,
        intstacks_start: DRAM_BASE + 0xA000,
        bss_start: DRAM_BASE + 0x12000,
        bss_end: DRAM_BASE + 0x13000,
        memory_end: DRAM_BASE + 0x14000,
    }
}

struct Seg {
    kind: u32,
    flags: u32,
    offset: u64,
    vaddr: u64,
    filesz: u64,
    memsz: u64,
    align: u64,
}

fn put16(b: &mut [u8], at: usize, v: u16) {
    b[at..at + 2].copy_from_slice(&v.to_le_bytes());
}

fn put32(b: &mut [u8], at: usize, v: u32) {
    b[at..at + 4].copy_from_slice(&v.to_le_bytes());
}

fn put64(b: &mut [u8], at: usize, v: u64) {
    b[at..at + 8].copy_from_slice(&v.to_le_bytes());
}

/// A RISC-V ELF64 executable with the given program headers right after the
/// file header, padded to 8 KiB.
fn elf_bytes(entry: u64, segs: &[Seg]) -> Vec<u8> {
    let mut b = vec![0u8; 0x2000];
    b[0..4].copy_from_slice(&[0x7f, 0x45, 0x4c, 0x46]);
    b[4] = 2;
    b[5] = 1;
    b[6] = 1;
    put16(&mut b, 16, 2);
    put16(&mut b, 18, 0xF3);
    put32(&mut b, 20, 1);
    put64(&mut b, 24, entry);
    put64(&mut b, 32, 64);
    put16(&mut b, 52, 64);
    put16(&mut b, 54, 56);
    put16(&mut b, 56, segs.len() as u16);
    for (i, s) in segs.iter().enumerate() {
        let o = 64 + 56 * i;
        put32(&mut b, o, s.kind);
        put32(&mut b, o + 4, s.flags);
        put64(&mut b, o + 8, s.offset);
        put64(&mut b, o + 16, s.vaddr);
        put64(&mut b, o + 32, s.filesz);
        put64(&mut b, o + 40, s.memsz);
        put64(&mut b, o + 48, s.align);
    }
    b
}

fn text_segment(vaddr: u64) -> Seg {
    Seg { kind: 1, flags: 5, offset: 0x1000, vaddr, filesz: 0x100, memsz: 0x100, align: 0x1000 }
}

#[test]
fn elf64_supported_accepts_riscv_executables_only() {
    let good = elf_bytes(0x10000, &[]);
    assert!(elf64_supported(&good));
    let mut be = good.clone();
    be[5] = 2;
    assert!(!elf64_supported(&be));
    let mut x86 = good.clone();
    put16(&mut x86, 18, 0x3E);
    assert!(!elf64_supported(&x86));
    let mut not_elf = good.clone();
    not_elf[1] = b'X';
    assert!(!elf64_supported(&not_elf));
    assert!(!elf64_supported(&good[..40]));
}

#[test]
fn elf_header_fields_are_read_little_endian() {
    let b = elf_bytes(0x1_2345, &[text_segment(0x10000), text_segment(0x20000)]);
    let p = ELFProgram::new64(b);
    assert_eq!(p.header.entry, 0x1_2345);
    assert_eq!(p.header.program_header_pos, 64);
    assert_eq!(p.header.program_entry_size, 56);
    assert_eq!(p.header.num_program_entries, 2);
    assert_eq!(p.header.header_size, 64);
    assert_eq!(p.header.magic, [0x7f, 0x45, 0x4c, 0x46]);
}

#[test]
fn program_header_parse_reads_each_field() {
    let b = elf_bytes(0, &[Seg { kind: 1, flags: 6, offset: 0x1000, vaddr: 0x4000, filesz: 0x10, memsz: 0x20, align: 8 }]);
    let s = ProgramHeaderSegment64::parse(&b, 64);
    assert_eq!(s.seg_type, ProgramSegmentType::Load);
    assert_eq!(s.flags, 6);
    assert_eq!(s.file_offset, 0x1000);
    assert_eq!(s.vmem_addr, 0x4000);
    assert_eq!(s.size_in_file, 0x10);
    assert_eq!(s.size_in_memory, 0x20);
    assert_eq!(s.alignment, 8);
    let mut odd = b.clone();
    put32(&mut odd, 64, 0x6474_e551);
    assert_eq!(ProgramHeaderSegment64::parse(&odd, 64).seg_type, ProgramSegmentType::Other(0x6474_e551));
}

#[test]
fn check_segment_gives_the_first_failing_check() {
    let l = layout();
    let parse = |s: Seg| {
        let b = elf_bytes(0, &[s]);
        ProgramHeaderSegment64::parse(&b, 64)
    };
    assert_eq!(check_segment(&parse(text_segment(0x10000)), &l), None);
    assert_eq!(check_segment(&parse(text_segment(0x800)), &l), Some(ELFError::MappedZeroPage));
    assert_eq!(
        check_segment(&parse(text_segment(DRAM_BASE + 0x1000)), &l),
        Some(ELFError::MappedKernelText)
    );
    let mut s = text_segment(0x10000);
    s.memsz = 0x200;
    assert_eq!(check_segment(&parse(s), &l), Some(ELFError::InequalSizes));
    let mut s = text_segment(0x10000);
    s.align = 0x2000;
    assert_eq!(check_segment(&parse(s), &l), Some(ELFError::ExcessiveAlignment));
}

#[test]
fn process_life_cycle_saves_and_restores_the_context() {
    let mut p = Process::new_uninit();
    assert_eq!(p.id, 0);
    assert_eq!(p.state, ProcessState::Uninitialized);
    assert!(p.phys_pages.is_empty());
    p.state = ProcessState::Unstarted;
    p.saved_pc = 0x1000;
    p.saved_sp = 0x7000;
    assert_eq!(p.start(), (0x1000, 0, 0x7000));
    assert_eq!(p.state, ProcessState::Running);
    // A trap at pc 0x1040 resumes after the trapping instruction.
    p.pause(0x1040, 0x6ff0, 0);
    assert_eq!(p.state, ProcessState::Ready);
    assert_eq!(p.resume(), (0x1044, 0, 0x6ff0));
    assert_eq!(p.state, ProcessState::Running);
}

#[test]
fn retire_frees_the_pid_and_hands_back_the_pages() {
    let mut pids = IdGenerator::new();
    let id = pids.generate();
    let mut p = Process::new_uninit();
    p.id = id;
    p.state = ProcessState::Dead;
    let pages = p.retire(&mut pids);
    assert!(pages.is_empty());
    // The counter moved past the freed id; it is handed out again later.
    assert_eq!(pids.generate(), id + 1);
}

#[test]
fn initialize64_loads_segments_stack_and_kernel() {
    let l = layout();
    let elf = ELFProgram::new64(elf_bytes(0x10010, &[text_segment(0x10000)]));
    let mut pool = PagePool::new(BOTTOM, BOTTOM + 64 * PAGE_SIZE);
    let mut mem = PtMem::new();
    let mut pids = IdGenerator::new();
    let mut p = Process::new_uninit();
    let jobs = p.initialize64(&elf, &mut pool, &mut mem, l, &mut pids).unwrap().unwrap();
    assert_eq!(p.state, ProcessState::Unstarted);
    assert_eq!(p.saved_pc, 0x10010);
    assert_eq!(p.id, 0);
    // The root table takes the first page, the segment the second.
    assert_eq!(p.pgtbl.base, BOTTOM);
    assert_eq!(p.phys_pages[0].start(), BOTTOM);
    assert_eq!(
        jobs,
        vec![SegmentCopy { segment: 0, file_offset: 0x1000, dest: BOTTOM + PAGE_SIZE, len: 0x100 }]
    );
    let leaf = walk(&mut pool, &mut mem, p.pgtbl, 0x10000, false).unwrap();
    assert_eq!(
        mem.read(leaf.table, leaf.index),
        phy_to_pte(BOTTOM + PAGE_SIZE) | user_process_flags(true, false, true) | PTE_VALID
    );
    // The stack lies just below the kernel text; the stack pointer starts at
    // its top, a virtual address.
    assert_eq!(p.saved_sp, l.text_start);
    let stack_frame = p.phys_pages[p.phys_pages.len() - 1].start();
    let stack = walk(&mut pool, &mut mem, p.pgtbl, l.text_start - STACK_PAGES * PAGE_SIZE, false).unwrap();
    assert_eq!(
        mem.read(stack.table, stack.index),
        phy_to_pte(stack_frame) | user_process_flags(true, true, false) | PTE_VALID
    );
    // The kernel text is mapped onto itself, readable and executable.
    let text = walk(&mut pool, &mut mem, p.pgtbl, DRAM_BASE, false).unwrap();
    assert_eq!(mem.read(text.table, text.index), phy_to_pte(DRAM_BASE) | 0x2 | 0x8 | PTE_VALID);
}

#[test]
fn initialize64_skips_segments_that_are_not_loaded() {
    let l = layout();
    let note = Seg { kind: 4, flags: 4, offset: 0x1000, vaddr: 0, filesz: 0x10, memsz: 0x20, align: 4 };
    let empty = Seg { kind: 1, flags: 4, offset: 0x1000, vaddr: 0x30000, filesz: 0, memsz: 0, align: 4 };
    let elf = ELFProgram::new64(elf_bytes(0x10000, &[note, empty, text_segment(0x10000)]));
    let mut pool = PagePool::new(BOTTOM, BOTTOM + 64 * PAGE_SIZE);
    let mut mem = PtMem::new();
    let mut pids = IdGenerator::new();
    let mut p = Process::new_uninit();
    let jobs = p.initialize64(&elf, &mut pool, &mut mem, l, &mut pids).unwrap().unwrap();
    assert_eq!(jobs.len(), 1);
    assert_eq!(jobs[0].segment, 2);
}

fn initialize_with(seg: Seg) -> Result<Vec<SegmentCopy>, ELFError> {
    let elf = ELFProgram::new64(elf_bytes(0x10000, &[text_segment(0x20000), seg]));
    let mut pool = PagePool::new(BOTTOM, BOTTOM + 64 * PAGE_SIZE);
    let mut mem = PtMem::new();
    let mut pids = IdGenerator::new();
    let mut p = Process::new_uninit();
    p.initialize64(&elf, &mut pool, &mut mem, layout(), &mut pids).unwrap()
}

#[test]
fn initialize64_refuses_a_segment_at_page_zero() {
    assert_eq!(initialize_with(text_segment(0)), Err(ELFError::MappedZeroPage));
}

#[test]
fn initialize64_refuses_a_segment_over_kernel_text() {
    assert_eq!(initialize_with(text_segment(DRAM_BASE)), Err(ELFError::MappedKernelText));
}

#[test]
fn initialize64_refuses_unequal_sizes() {
    let mut s = text_segment(0x10000);
    s.filesz = 0x80;
    assert_eq!(initialize_with(s), Err(ELFError::InequalSizes));
}

#[test]
fn initialize64_refuses_large_alignment() {
    let mut s = text_segment(0x10000);
    s.align = 0x10000;
    assert_eq!(initialize_with(s), Err(ELFError::ExcessiveAlignment));
}

#[test]
fn initialize64_fails_when_pages_run_out() {
    let elf = ELFProgram::new64(elf_bytes(0x10000, &[text_segment(0x10000)]));
    let mut pool = PagePool::new(BOTTOM, BOTTOM + 2 * PAGE_SIZE);
    let mut mem = PtMem::new();
    let mut pids = IdGenerator::new();
    let mut p = Process::new_uninit();
    let r = p.initialize64(&elf, &mut pool, &mut mem, layout(), &mut pids).unwrap();
    assert!(matches!(r, Err(ELFError::FailedAlloc) | Err(ELFError::FailedMap)));
}

#[test]
fn initialize64_refuses_page_zero_before_taking_pages() {
    let elf = ELFProgram::new64(elf_bytes(0x10000, &[text_segment(0x800)]));
    // One page: the root table takes it, and nothing is left for the segment.
    let mut pool = PagePool::new(BOTTOM, BOTTOM + PAGE_SIZE);
    let mut mem = PtMem::new();
    let mut pids = IdGenerator::new();
    let mut p = Process::new_uninit();
    let r = p.initialize64(&elf, &mut pool, &mut mem, layout(), &mut pids).unwrap();
    assert_eq!(r, Err(ELFError::MappedZeroPage));
    assert_eq!(p.phys_pages.len(), 1);
}
