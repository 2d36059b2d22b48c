//! Setting a process up from an ELF executable: its page table, the pages of
//! its loadable segments, its stack, and the kernel text it runs syscalls on.
use vstd::prelude::*;
use crate::process::{Process, ProcessState};
use crate::file::elf64::{
    ELFProgram,
    ELFError,
    ProgramHeaderSegment64,
    ProgramSegmentType,
    segment_of,
    PROG_SEG_READ,
    PROG_SEG_WRITE,
    PROG_SEG_EXEC,
};
use crate::vm::{request_phys_page, PhysPageExtent, VmError};
use crate::vm::palloc::law_pfree_plural_undoes_palloc_plural;
use crate::param::PAGE_SIZE;
use crate::vm::palloc::{PagePool, page_aligned, page_run, run_free};
use crate::vm::ptable::{
    PtMem,
    PageTable,
    KernelLayout,
    Region,
    layout_ok,
    pa_top,
    pool_disjoint,
    pages_moved,
    page_map,
    map_regions,
    regions_overlap,
    maps_range,
    maps_region,
    in_region,
    region_ok,
    pages_spanned,
    page_floor,
    range_page,
    stack_and_heap_regions,
    push_stack_and_heap_regions,
    lemma_stack_and_heap_regions_ok,
    lemma_pool_disjoint_shrink,
    lemma_maps_range_kept,
    lemma_range_page,
    lemma_maps_range_kept_regions,
    user_process_flags,
    kernel_process_flags,
    VA_TOP,
    PTE_USER,
    PTE_READ,
    PTE_WRITE,
    PTE_EXEC,
};
use crate::id::IdGenerator;

verus! {

/// Pages of the user stack, mapped just below the kernel text.
pub const STACK_PAGES: u64 = 2;

/// A copy that loading a segment asks for: `len` bytes from `file_offset` of
/// the file go to physical address `dest`.
#[derive(Copy, Clone, Debug, PartialEq, Eq, Structural)]
pub struct SegmentCopy {
    pub segment: usize,
    pub file_offset: u64,
    pub dest: u64,
    pub len: u64,
}

/// Program header `i` of the file.
pub open spec fn program_header(elf: &ELFProgram, i: int) -> ProgramHeaderSegment64 {
    segment_of(elf.source@, elf.header.program_header_pos + i * 56)
}

/// The program header table has entries of the expected size and lies in
/// the file.
pub open spec fn headers_in_file(elf: &ELFProgram) -> bool {
    &&& elf.header.program_entry_size == 56
    &&& elf.header.program_header_pos + elf.header.num_program_entries * 56 <= elf.source@.len()
}

/// Why a loadable segment is refused, tested in this order.
pub open spec fn segment_verdict(s: ProgramHeaderSegment64, l: KernelLayout) -> Option<ELFError> {
    if s.vmem_addr < 0x1000 {
        Some(ELFError::MappedZeroPage)
    } else if l.text_start <= s.vmem_addr <= l.text_end {
        Some(ELFError::MappedKernelText)
    } else if s.size_in_file != s.size_in_memory {
        Some(ELFError::InequalSizes)
    } else if s.alignment > 0x1000 {
        Some(ELFError::ExcessiveAlignment)
    } else {
        None
    }
}

/// PTE flags of a loaded segment: user, and read, write, execute as its
/// program header asks.
pub open spec fn segment_flags(s: ProgramHeaderSegment64) -> u64 {
    (PTE_USER + (if s.flags & PROG_SEG_READ != 0 {
        PTE_READ
    } else {
        0
    }) + (if s.flags & PROG_SEG_WRITE != 0 {
        PTE_WRITE
    } else {
        0
    }) + (if s.flags & PROG_SEG_EXEC != 0 {
        PTE_EXEC
    } else {
        0
    })) as u64
}

/// The pages of a loaded segment are user pages, not marked valid by the
/// flags themselves, readable exactly when its program header has `PF_R`
/// (4), writable exactly when it has `PF_W` (2) and executable exactly when
/// it has `PF_X` (1), in the PTE bits `R` (2), `W` (4), `X` (8), `U` (16).
pub proof fn law_segment_permissions(s: ProgramHeaderSegment64)
    ensures
        segment_flags(s) & 0x10 != 0,
        segment_flags(s) & 0x1 == 0,
        (segment_flags(s) & 0x2 != 0) <==> (s.flags & 4 != 0),
        (segment_flags(s) & 0x4 != 0) <==> (s.flags & 2 != 0),
        (segment_flags(s) & 0x8 != 0) <==> (s.flags & 1 != 0),
{
    let r: u64 = if s.flags & 4 != 0 { 2 } else { 0 };
    let w: u64 = if s.flags & 2 != 0 { 4 } else { 0 };
    let e: u64 = if s.flags & 1 != 0 { 8 } else { 0 };
    assert(segment_flags(s) == (16 + r + w + e) as u64);
    assert({
        let f = (16 + r + w + e) as u64;
        &&& f & 0x10 != 0
        &&& f & 0x1 == 0
        &&& (f & 0x2 != 0) <==> r == 2
        &&& (f & 0x4 != 0) <==> w == 4
        &&& (f & 0x8 != 0) <==> e == 8
    }) by (bit_vector)
        requires
            r == 0 || r == 2,
            w == 0 || w == 4,
            e == 0 || e == 8,
    ;
}

/// A segment that takes memory: loadable and not empty.
pub open spec fn is_loaded(s: ProgramHeaderSegment64) -> bool {
    s.seg_type == ProgramSegmentType::Load && s.size_in_memory > 0
}

/// The first `upto` program headers have been loaded: every loadable one
/// passed `segment_verdict`, every nonempty one has a copy in `jobs`, and
/// each copy's segment maps onto the pages that its copy goes to.
pub open spec fn segments_loaded(
    m: PtMem,
    root: u64,
    elf: &ELFProgram,
    upto: int,
    jobs: Seq<SegmentCopy>,
    l: KernelLayout,
) -> bool {
    &&& forall|k: int|
        0 <= k < upto && (#[trigger] program_header(elf, k)).seg_type == ProgramSegmentType::Load
            ==> segment_verdict(program_header(elf, k), l) is None
    &&& forall|j: int|
        0 <= j < jobs.len() ==> {
            let s = program_header(elf, (#[trigger] jobs[j]).segment as int);
            &&& jobs[j].segment < upto
            &&& is_loaded(s)
            &&& jobs[j].file_offset == s.file_offset
            &&& jobs[j].len == s.size_in_file
            &&& s.vmem_addr + s.size_in_memory <= VA_TOP
            &&& page_aligned(jobs[j].dest - s.vmem_addr % 4096)
            &&& maps_range(
                m,
                root,
                s.vmem_addr as int,
                s.size_in_memory as int,
                jobs[j].dest - s.vmem_addr % 4096,
                segment_flags(s),
            )
        }
    &&& forall|k: int|
        0 <= k < upto && is_loaded(#[trigger] program_header(elf, k)) ==> exists|j: int|
            0 <= j < jobs.len() && (#[trigger] jobs[j]).segment == k
}

/// The verdict on a loadable segment.
pub fn check_segment(s: &ProgramHeaderSegment64, l: &KernelLayout) -> (r: Option<ELFError>)
    ensures
        r == segment_verdict(*s, *l),
{
    if s.vmem_addr < 0x1000 {
        Some(ELFError::MappedZeroPage)
    } else if s.vmem_addr >= l.text_start && s.vmem_addr <= l.text_end {
        Some(ELFError::MappedKernelText)
    } else if s.size_in_file != s.size_in_memory {
        Some(ELFError::InequalSizes)
    } else if s.alignment > 0x1000 {
        Some(ELFError::ExcessiveAlignment)
    } else {
        None
    }
}

/// No run of `n` consecutive pages is free.
pub open spec fn no_free_run(free: Set<u64>, n: int) -> bool {
    forall|b: int| 0 <= b && page_aligned(b) ==> !run_free(free, b, n)
}

/// The pool holds no page but some of one run of `n` pages: what is left
/// when it ran dry and took back the `n` pages of a failed mapping.
pub open spec fn pool_short(free: Set<u64>, n: int) -> bool {
    exists|b: int| free.subset_of(page_run(b, n))
}

/// Address `a` lies in a page of one of the first `upto` program headers
/// that take memory.
pub open spec fn in_loaded_pages(elf: &ELFProgram, upto: int, a: int) -> bool {
    exists|k: int|
        0 <= k < upto && is_loaded(#[trigger] program_header(elf, k)) && page_floor(
            program_header(elf, k).vmem_addr as int,
        ) <= a < page_floor(program_header(elf, k).vmem_addr as int) + pages_spanned(
            program_header(elf, k).vmem_addr as int,
            program_header(elf, k).size_in_memory as int,
        ) * 4096
}

/// A page of the `size` bytes at `va` is mapped under `root` in `m`, or lies
/// in a page of one of the first `upto` segments that take memory.
pub open spec fn map_blocked(
    m: PtMem,
    root: u64,
    elf: &ELFProgram,
    upto: int,
    va: int,
    size: int,
) -> bool {
    exists|k: int|
        #![trigger range_page(va, k)]
        0 <= k < pages_spanned(va, size) && (m.translate(root, range_page(va, k)) is Some
            || in_loaded_pages(elf, upto, range_page(va, k) as int))
}

/// Why loading `size` bytes at `va` failed with `e`, `m` being the page
/// table memory before the segments were loaded and `free` the free pages
/// after: `FailedAlloc` when no run of the pages needed was free;
/// `FailedMap` when the range passes the top of the address space, a page of
/// it was taken, or the pool ran dry for table pages.
pub open spec fn load_failed(
    e: ELFError,
    va: int,
    size: int,
    m: PtMem,
    root: u64,
    elf: &ELFProgram,
    upto: int,
    free: Set<u64>,
) -> bool {
    ||| e == ELFError::FailedAlloc && no_free_run(free, pages_spanned(va, size))
    ||| e == ELFError::FailedMap && (va + size > VA_TOP || map_blocked(m, root, elf, upto, va, size)
        || pool_short(free, pages_spanned(va, size)))
}

/// Only addresses of the `size` bytes at `va` map differently in `m2` than
/// in `m1`.
pub open spec fn changed_within(m1: PtMem, m2: PtMem, root: u64, va: int, size: int) -> bool {
    forall|a: u64|
        a < VA_TOP && !(page_floor(va) <= a < page_floor(va) + pages_spanned(va, size) * 4096)
            ==> #[trigger] m2.translate(root, a) == m1.translate(root, a)
}

/// Take pages for a nonempty loadable segment and map its addresses onto
/// them. Gives the copy that fills the pages and the pages themselves.
#[verifier::spinoff_prover]
#[verifier::rlimit(50)]
fn load_segment(
    pool: &mut PagePool,
    mem: &mut PtMem,
    pt: PageTable,
    elf: &ELFProgram,
    i: usize,
    s: ProgramHeaderSegment64,
) -> (r: Result<(SegmentCopy, PhysPageExtent), ELFError>)
    requires
        old(mem).tables_wf(pt.base),
        old(pool).wf(),
        old(pool).top() <= pa_top(),
        pool_disjoint(old(pool), old(mem)),
        s == program_header(elf, i as int),
        is_loaded(s),
    ensures
        final(mem).tables_wf(pt.base),
        final(pool).wf(),
        pool_disjoint(final(pool), final(mem)),
        final(pool).bottom() == old(pool).bottom(),
        final(pool).top() == old(pool).top(),
        final(pool).free().subset_of(old(pool).free()),
        r matches Ok((job, e)) ==> {
            &&& job.segment == i
            &&& job.file_offset == s.file_offset
            &&& job.len == s.size_in_file
            &&& s.vmem_addr + s.size_in_memory <= VA_TOP
            &&& job.dest == e.spec_start() + s.vmem_addr % 4096
            &&& page_aligned(e.spec_start() as int)
            &&& e.spec_num() == pages_spanned(s.vmem_addr as int, s.size_in_memory as int)
            &&& maps_range(
                *final(mem),
                pt.base,
                s.vmem_addr as int,
                s.size_in_memory as int,
                e.spec_start() as int,
                segment_flags(s),
            )
            &&& forall|k: int|
                0 <= k < pages_spanned(s.vmem_addr as int, s.size_in_memory as int)
                    ==> #[trigger] old(mem).translate(pt.base, range_page(s.vmem_addr as int, k)) is None
            &&& forall|a: u64|
                a < VA_TOP && !(page_floor(s.vmem_addr as int) <= a < page_floor(s.vmem_addr as int)
                    + pages_spanned(s.vmem_addr as int, s.size_in_memory as int) * 4096)
                    ==> #[trigger] final(mem).translate(pt.base, a) == old(mem).translate(pt.base, a)
        },
        changed_within(*old(mem), *final(mem), pt.base, s.vmem_addr as int, s.size_in_memory as int),
        r matches Err(e) ==> load_failed(
            e,
            s.vmem_addr as int,
            s.size_in_memory as int,
            *old(mem),
            pt.base,
            elf,
            0,
            final(pool).free(),
        ),
{
    let va = s.vmem_addr;
    let size = s.size_in_memory;
    if size > VA_TOP || va > VA_TOP - size {
        return Err(ELFError::FailedMap);
    }
    let n: u64 = (va + size - 1) / PAGE_SIZE - va / PAGE_SIZE + 1;
    assert(n == pages_spanned(va as int, size as int));
    let ghost p0 = *pool;
    let ext = match request_phys_page(pool, n as usize) {
        Ok(e) => e,
        Err(_) => {
            proof {
                lemma_pool_disjoint_shrink(&p0, pool, mem);
            }
            return Err(ELFError::FailedAlloc);
        },
    };
    let start = ext.start();
    proof {
        law_pfree_plural_undoes_palloc_plural(&p0, pool, start, n as int);
        lemma_pool_disjoint_shrink(&p0, pool, mem);
    }
    let flags = user_process_flags(
        s.flags & PROG_SEG_READ != 0,
        s.flags & PROG_SEG_WRITE != 0,
        s.flags & PROG_SEG_EXEC != 0,
    );
    let ghost p1 = *pool;
    let ghost m1 = *mem;
    match page_map(pool, mem, pt, va, start, size, flags) {
        Ok(()) => {},
        Err(me) => {
            proof {
                assert(page_run(start as int, n as int).disjoint(pool.free()));
            }
            let ghost p2 = *pool;
            ext.release(pool);
            proof {
                reveal(pool_disjoint);
                assert forall|x: u64| pool.free().contains(x) implies !mem.has(x) by {
                    if page_run(start as int, n as int).contains(x) {
                        assert(p0.free().contains(x));
                        assert(!m1.has(x));
                        assert(!p1.free().contains(x));
                    } else {
                        assert(p2.free().contains(x));
                    }
                }
                if me == VmError::PallocFail {
                    let k = choose|k: int|
                        0 <= k < pages_spanned(va as int, size as int) && #[trigger] m1.translate(
                            pt.base,
                            range_page(va as int, k),
                        ) is Some;
                    assert(map_blocked(*old(mem), pt.base, elf, 0, va as int, size as int));
                } else {
                    assert(pool.free().subset_of(page_run(start as int, n as int)));
                    assert(pool_short(pool.free(), n as int));
                }
            }
            return Err(ELFError::FailedMap);
        },
    }
    proof {
        assert(flags == segment_flags(s));
        assert(n == pages_spanned(va as int, size as int));
    }
    let job = SegmentCopy { segment: i, file_offset: s.file_offset, dest: start + va % PAGE_SIZE, len: s.size_in_file };
    proof {
        assert(job.dest == ext.spec_start() + s.vmem_addr % 4096);
        assert(page_aligned(ext.spec_start() as int));
        assert(ext.spec_num() == pages_spanned(s.vmem_addr as int, s.size_in_memory as int));
        assert(maps_range(*mem, pt.base, s.vmem_addr as int, s.size_in_memory as int, ext.spec_start() as int, segment_flags(s)));
        assert forall|k: int|
            0 <= k < pages_spanned(s.vmem_addr as int, s.size_in_memory as int) implies #[trigger] old(
            mem,
        ).translate(pt.base, range_page(s.vmem_addr as int, k)) is None by {
            assert(mem.translate(pt.base, range_page(s.vmem_addr as int, k)) is Some);
        }
        assert(forall|a: u64|
                a < VA_TOP && !(page_floor(s.vmem_addr as int) <= a < page_floor(s.vmem_addr as int)
                    + pages_spanned(s.vmem_addr as int, s.size_in_memory as int) * 4096)
                    ==> #[trigger] mem.translate(pt.base, a) == old(mem).translate(pt.base, a));
    }
    Ok((job, ext))
}

/// PTE flags of the user stack.
pub open spec fn stack_flags() -> u64 {
    (PTE_USER + PTE_READ + PTE_WRITE) as u64
}

/// Where the user stack starts: just below the kernel text.
pub open spec fn stack_base(l: KernelLayout) -> int {
    l.text_start - STACK_PAGES * 4096
}

/// What a process maps of the kernel, onto the same addresses: text, rodata
/// and data, then the stacks, interrupt stacks, bss and heap.
pub open spec fn process_kernel_regions(l: KernelLayout) -> Seq<Region> {
    seq![
        Region {
            va: l.text_start,
            size: (l.text_end - l.text_start) as u64,
            flags: (PTE_READ + PTE_EXEC) as u64,
        },
        Region { va: l.text_end, size: (l.rodata_end - l.text_end) as u64, flags: PTE_READ },
        Region {
            va: l.rodata_end,
            size: (l.data_end - l.rodata_end) as u64,
            flags: (PTE_READ + PTE_WRITE) as u64,
        },
    ] + stack_and_heap_regions(l, (PTE_READ + PTE_WRITE) as u64)
}

/// Why mapping the kernel regions into a process page table at `root`
/// failed: `PallocFail` when two regions share a page or a page of one was
/// mapped already, `OutOfPages` when the pool ran dry for table pages.
pub open spec fn kernel_map_refused(
    l: KernelLayout,
    m: PtMem,
    root: u64,
    pool: &PagePool,
    e: VmError,
) -> bool {
    let rs = process_kernel_regions(l);
    ||| (e == VmError::PallocFail && (regions_overlap(rs) || exists|i: int, k: int|
        0 <= i < rs.len() && 0 <= k < pages_spanned(rs[i].va as int, rs[i].size as int)
            && #[trigger] m.translate(root, range_page(rs[i].va as int, k)) is Some))
    ||| (e == VmError::OutOfPages && pool.free() == Set::<u64>::empty())
}

/// The error `populate_pagetable64` gives for the first refused loadable
/// segment: the verdict on that segment, all loadable ones before it passing.
pub open spec fn refused_segment(elf: &ELFProgram, l: KernelLayout, e: ELFError) -> bool {
    exists|k: int|
        0 <= k < elf.header.num_program_entries && (#[trigger] program_header(elf, k)).seg_type
            == ProgramSegmentType::Load && segment_verdict(program_header(elf, k), l) == Some(e) && (
        forall|k2: int|
            0 <= k2 < k && (#[trigger] program_header(elf, k2)).seg_type == ProgramSegmentType::Load
                ==> segment_verdict(program_header(elf, k2), l) is None)
}

/// Why loading the segments of `elf` and the user stack failed, when no
/// segment was refused: the load of a segment that takes memory, or of the
/// stack, failed as `load_failed` says, the segments before it counting as
/// taken.
pub open spec fn populate_failed(
    elf: &ELFProgram,
    l: KernelLayout,
    e: ELFError,
    m: PtMem,
    root: u64,
    free: Set<u64>,
) -> bool {
    ||| exists|k: int|
        0 <= k < elf.header.num_program_entries && is_loaded(#[trigger] program_header(elf, k))
            && segments_pass(elf, l, k + 1) && load_failed(
            e,
            program_header(elf, k).vmem_addr as int,
            program_header(elf, k).size_in_memory as int,
            m,
            root,
            elf,
            k,
            free,
        )
    ||| segments_pass(elf, l, elf.header.num_program_entries as int) && load_failed(
        e,
        stack_base(l),
        STACK_PAGES * 4096,
        m,
        root,
        elf,
        elf.header.num_program_entries as int,
        free,
    )
}

/// The loadable segments among the first `upto` program headers all pass
/// `segment_verdict`: a refused one is reported before anything of a later
/// one is taken.
pub open spec fn segments_pass(elf: &ELFProgram, l: KernelLayout, upto: int) -> bool {
    forall|k: int|
        0 <= k < upto && (#[trigger] program_header(elf, k)).seg_type == ProgramSegmentType::Load
            ==> segment_verdict(program_header(elf, k), l) is None
}

/// Why mapping the kernel regions after the segments and the stack failed
/// with `ve`: `PallocFail` when two regions share a page, or a page of one
/// was mapped in `m` under `root` or belongs to a segment or the stack;
/// `OutOfPages` when the pool ran dry.
pub open spec fn kernel_text_blocked(
    elf: &ELFProgram,
    l: KernelLayout,
    ve: VmError,
    m: PtMem,
    root: u64,
    pool: &PagePool,
) -> bool {
    let rs = process_kernel_regions(l);
    ||| ve == VmError::PallocFail && regions_overlap(rs)
    ||| ve == VmError::PallocFail && exists|i: int, k: int|
        #![trigger range_page(rs[i].va as int, k)]
        0 <= i < rs.len() && 0 <= k < pages_spanned(rs[i].va as int, rs[i].size as int) && (
        m.translate(root, range_page(rs[i].va as int, k)) is Some || in_loaded_pages(
            elf,
            elf.header.num_program_entries as int,
            range_page(rs[i].va as int, k) as int,
        ) || page_floor(stack_base(l)) <= range_page(rs[i].va as int, k) < page_floor(
            stack_base(l),
        ) + pages_spanned(stack_base(l), STACK_PAGES * 4096) * 4096)
    ||| ve == VmError::OutOfPages && pool.free() == Set::<u64>::empty()
}

/// A failure against the tables `m1` is one against `m0` where every
/// mapping of `m1` under `root` is one of `m0`.
proof fn lemma_populate_failed_from(
    elf: &ELFProgram,
    l: KernelLayout,
    e: ELFError,
    m0: PtMem,
    m1: PtMem,
    root: u64,
    free: Set<u64>,
)
    requires
        populate_failed(elf, l, e, m1, root, free),
        forall|va: u64| #[trigger] m1.translate(root, va) is Some ==> m0.translate(root, va) is Some,
    ensures
        populate_failed(elf, l, e, m0, root, free),
{
    if exists|k: int|
        0 <= k < elf.header.num_program_entries && is_loaded(#[trigger] program_header(elf, k))
            && load_failed(
            e,
            program_header(elf, k).vmem_addr as int,
            program_header(elf, k).size_in_memory as int,
            m1,
            root,
            elf,
            k,
            free,
        ) {
        let k = choose|k: int|
            0 <= k < elf.header.num_program_entries && is_loaded(#[trigger] program_header(elf, k))
                && load_failed(
                e,
                program_header(elf, k).vmem_addr as int,
                program_header(elf, k).size_in_memory as int,
                m1,
                root,
                elf,
                k,
                free,
            );
        let s = program_header(elf, k);
        lemma_load_failed_from(e, s.vmem_addr as int, s.size_in_memory as int, m0, m1, root, elf, k, free);
    } else {
        lemma_load_failed_from(e, stack_base(l), STACK_PAGES * 4096, m0, m1, root, elf, elf.header.num_program_entries as int, free);
    }
}

proof fn lemma_load_failed_from(
    e: ELFError,
    va: int,
    size: int,
    m0: PtMem,
    m1: PtMem,
    root: u64,
    elf: &ELFProgram,
    upto: int,
    free: Set<u64>,
)
    requires
        load_failed(e, va, size, m1, root, elf, upto, free),
        forall|v: u64| #[trigger] m1.translate(root, v) is Some ==> m0.translate(root, v) is Some,
    ensures
        load_failed(e, va, size, m0, root, elf, upto, free),
{
    if e == ELFError::FailedMap && map_blocked(m1, root, elf, upto, va, size) {
        let k = choose|k: int|
            #![trigger range_page(va, k)]
            0 <= k < pages_spanned(va, size) && (m1.translate(root, range_page(va, k)) is Some
                || in_loaded_pages(elf, upto, range_page(va, k) as int));
        assert(map_blocked(m0, root, elf, upto, va, size));
    }
}

/// No segment before the first refused one takes memory.
pub open spec fn nothing_loaded_before_refusal(elf: &ELFProgram, l: KernelLayout, e: ELFError) -> bool {
    exists|k: int|
        0 <= k < elf.header.num_program_entries && (#[trigger] program_header(elf, k)).seg_type
            == ProgramSegmentType::Load && segment_verdict(program_header(elf, k), l) == Some(e) && (
        forall|k2: int|
            0 <= k2 < k && (#[trigger] program_header(elf, k2)).seg_type == ProgramSegmentType::Load
                ==> segment_verdict(program_header(elf, k2), l) is None) && (forall|k2: int|
            0 <= k2 < k ==> !is_loaded(#[trigger] program_header(elf, k2)))
}

/// Errors that only the verdict on a segment gives.
pub open spec fn verdict_error(e: ELFError) -> bool {
    ||| e == ELFError::MappedZeroPage
    ||| e == ELFError::MappedKernelText
    ||| e == ELFError::InequalSizes
    ||| e == ELFError::ExcessiveAlignment
}

/// Load program header `i`: a loadable segment is checked, and, when it
/// takes memory, loaded, its pages and its copy appended to `pages` and
/// `jobs`. Other segments are passed over.
#[verifier::rlimit(50)]
fn load_header(
    pages: &mut Vec<PhysPageExtent>,
    jobs: &mut Vec<SegmentCopy>,
    pool: &mut PagePool,
    mem: &mut PtMem,
    pt: PageTable,
    elf: &ELFProgram,
    l: KernelLayout,
    i: u16,
    seg: ProgramHeaderSegment64,
) -> (r: Result<(), ELFError>)
    requires
        seg == program_header(elf, i as int),
        old(mem).tables_wf(pt.base),
        old(pool).wf(),
        old(pool).top() <= pa_top(),
        pool_disjoint(old(pool), old(mem)),
        segments_loaded(*old(mem), pt.base, elf, i as int, old(jobs)@, l),
    ensures
        final(mem).tables_wf(pt.base),
        final(pool).wf(),
        pool_disjoint(final(pool), final(mem)),
        final(pool).bottom() == old(pool).bottom(),
        final(pool).top() == old(pool).top(),
        final(pool).free().subset_of(old(pool).free()),
        final(pages)@.len() >= old(pages)@.len(),
        final(pages)@.take(old(pages)@.len() as int) == old(pages)@,
        r is Ok ==> segments_loaded(*final(mem), pt.base, elf, i + 1, final(jobs)@, l),
        r matches Err(e) ==> verdict_error(e) ==> seg.seg_type == ProgramSegmentType::Load
            && segment_verdict(seg, l) == Some(e),
        r matches Err(e) ==> !verdict_error(e) ==> segment_verdict(seg, l) is None,
        r matches Err(e) ==> !verdict_error(e) ==> is_loaded(seg) && load_failed(
            e,
            seg.vmem_addr as int,
            seg.size_in_memory as int,
            *old(mem),
            pt.base,
            elf,
            0,
            final(pool).free(),
        ),
        is_loaded(seg) ==> changed_within(
            *old(mem),
            *final(mem),
            pt.base,
            seg.vmem_addr as int,
            seg.size_in_memory as int,
        ),
        !is_loaded(seg) ==> *final(mem) == *old(mem),
        !is_loaded(seg) || (r matches Err(e) && verdict_error(e)) ==> {
            &&& *final(mem) == *old(mem)
            &&& *final(pool) == *old(pool)
            &&& final(pages)@ == old(pages)@
        },
{
    let root = pt.base;
    let is_load = match seg.seg_type {
        ProgramSegmentType::Load => true,
        _ => false,
    };
    proof {
        assert(pages@.take(pages@.len() as int) =~= pages@);
    }
    if !is_load {
        return Ok(());
    }
    match check_segment(&seg, &l) {
        Some(e) => {
            return Err(e);
        },
        None => {},
    }
    if seg.size_in_memory == 0 {
        return Ok(());
    }
    let ghost m1 = *mem;
    let ghost jobs0 = jobs@;
    let (job, ext) = match load_segment(pool, mem, pt, elf, i as usize, seg) {
        Ok(x) => x,
        Err(e) => {
            return Err(e);
        },
    };
    let ghost pages0 = pages@;
    pages.push(ext);
    jobs.push(job);
    proof {
        assert(pages@.take(pages0.len() as int) =~= pages0);
        assert(jobs@[jobs@.len() - 1] == job);
        assert forall|j: int| 0 <= j < jobs0.len() implies {
            let s2 = program_header(elf, (#[trigger] jobs0[j]).segment as int);
            maps_range(
                *mem,
                root,
                s2.vmem_addr as int,
                s2.size_in_memory as int,
                jobs0[j].dest - s2.vmem_addr % 4096,
                segment_flags(s2),
            )
        } by {
            let s2 = program_header(elf, jobs0[j].segment as int);
            lemma_maps_range_kept(
                m1,
                *mem,
                root,
                s2.vmem_addr as int,
                s2.size_in_memory as int,
                jobs0[j].dest - s2.vmem_addr % 4096,
                segment_flags(s2),
                seg.vmem_addr as int,
                seg.size_in_memory as int,
            );
        }
        assert forall|j: int| 0 <= j < jobs@.len() implies #[trigger] jobs@[j] == if j < jobs0.len() {
            jobs0[j]
        } else {
            job
        } by {}
        assert forall|k: int|
            0 <= k < i + 1 && is_loaded(#[trigger] program_header(elf, k)) implies exists|j: int|
            0 <= j < jobs@.len() && (#[trigger] jobs@[j]).segment == k by {
            if k == i {
                assert(jobs@[jobs@.len() - 1].segment == k);
            } else {
                let j = choose|j: int| 0 <= j < jobs0.len() && (#[trigger] jobs0[j]).segment == k;
                assert(jobs@[j].segment == k);
            }
        }
    }
    Ok(())
}

/// A load that failed against the page table memory `m1`, which differs
/// from `m0` only on pages of the first `upto` segments, failed against `m0`
/// with those segments counted as taken.
proof fn lemma_failed_before(
    m0: PtMem,
    m1: PtMem,
    root: u64,
    elf: &ELFProgram,
    upto: int,
    e: ELFError,
    va: int,
    size: int,
    free: Set<u64>,
)
    requires
        0 <= va,
        size > 0,
        load_failed(e, va, size, m1, root, elf, 0, free),
        forall|a: u64|
            a < VA_TOP && #[trigger] m1.translate(root, a) != m0.translate(root, a)
                ==> in_loaded_pages(elf, upto, a as int),
    ensures
        load_failed(e, va, size, m0, root, elf, upto, free),
{
    if e == ELFError::FailedMap && va + size <= VA_TOP && map_blocked(m1, root, elf, 0, va, size) {
        let k = choose|k: int|
            #![trigger range_page(va, k)]
            0 <= k < pages_spanned(va, size) && (m1.translate(root, range_page(va, k)) is Some
                || in_loaded_pages(elf, 0, range_page(va, k) as int));
        lemma_range_page(Region { va: va as u64, size: size as u64, flags: 0 }, k);
        let a = range_page(va, k);
        if m0.translate(root, a) is None {
            assert(m1.translate(root, a) != m0.translate(root, a));
        }
        assert(map_blocked(m0, root, elf, upto, va, size));
    }
}

/// Loaded segments and the stack stay mapped when the kernel regions are
/// mapped after them.
proof fn lemma_loaded_kept(
    m2: PtMem,
    m3: PtMem,
    root: u64,
    elf: &ELFProgram,
    jobs: Seq<SegmentCopy>,
    l: KernelLayout,
    sp: int,
)
    requires
        layout_ok(l),
        segments_loaded(m2, root, elf, elf.header.num_program_entries as int, jobs, l),
        maps_range(m2, root, stack_base(l), STACK_PAGES * 4096, sp - STACK_PAGES * 4096, stack_flags()),
        forall|i: int, k: int|
            0 <= i < process_kernel_regions(l).len() && 0 <= k < pages_spanned(
                process_kernel_regions(l)[i].va as int,
                process_kernel_regions(l)[i].size as int,
            ) ==> #[trigger] m2.translate(root, range_page(process_kernel_regions(l)[i].va as int, k))
                is None,
        forall|a: u64|
            a < VA_TOP && (forall|i: int|
                0 <= i < process_kernel_regions(l).len() ==> !#[trigger] in_region(
                    process_kernel_regions(l)[i],
                    a as int,
                )) ==> #[trigger] m3.translate(root, a) == m2.translate(root, a),
    ensures
        segments_loaded(m3, root, elf, elf.header.num_program_entries as int, jobs, l),
        maps_range(m3, root, stack_base(l), STACK_PAGES * 4096, sp - STACK_PAGES * 4096, stack_flags()),
{
    let rs = process_kernel_regions(l);
    lemma_stack_and_heap_regions_ok(l, (PTE_READ + PTE_WRITE) as u64);
    assert forall|i: int| 0 <= i < rs.len() implies region_ok(#[trigger] rs[i]) by {
        if i >= 3 {
            assert(rs[i] == stack_and_heap_regions(l, (PTE_READ + PTE_WRITE) as u64)[i - 3]);
        }
    }
    assert forall|j: int| 0 <= j < jobs.len() implies {
        let s2 = program_header(elf, (#[trigger] jobs[j]).segment as int);
        maps_range(
            m3,
            root,
            s2.vmem_addr as int,
            s2.size_in_memory as int,
            jobs[j].dest - s2.vmem_addr % 4096,
            segment_flags(s2),
        )
    } by {
        let s2 = program_header(elf, jobs[j].segment as int);
        lemma_maps_range_kept_regions(
            m2,
            m3,
            root,
            s2.vmem_addr as int,
            s2.size_in_memory as int,
            jobs[j].dest - s2.vmem_addr % 4096,
            segment_flags(s2),
            rs,
        );
    }
    lemma_maps_range_kept_regions(
        m2,
        m3,
        root,
        stack_base(l),
        STACK_PAGES * 4096,
        sp - STACK_PAGES * 4096,
        stack_flags(),
        rs,
    );
}

impl Process {
    /// Lay the loadable segments of `elf` out in the process address space,
    /// each on pages of its own, then map a user stack of `STACK_PAGES` pages
    /// just below the kernel text, with the stack pointer at its top. The
    /// copies that fill the segment pages are returned, in program header
    /// order.
    #[verifier::rlimit(50)]
    fn populate_pagetable64(
        &mut self,
        elf: &ELFProgram,
        pool: &mut PagePool,
        mem: &mut PtMem,
        l: KernelLayout,
    ) -> (r: Result<Vec<SegmentCopy>, ELFError>)
        requires
            headers_in_file(elf),
            layout_ok(l),
            old(mem).tables_wf(old(self).pgtbl.base),
            old(pool).wf(),
            old(pool).top() <= pa_top(),
            pool_disjoint(old(pool), old(mem)),
        ensures
            final(mem).tables_wf(final(self).pgtbl.base),
            final(pool).wf(),
            pool_disjoint(final(pool), final(mem)),
            final(pool).bottom() == old(pool).bottom(),
            final(pool).top() == old(pool).top(),
            final(pool).free().subset_of(old(pool).free()),
            final(self).pgtbl == old(self).pgtbl,
            final(self).id == old(self).id,
            final(self).state == old(self).state,
            final(self).saved_pc == old(self).saved_pc,
            final(self).phys_pages@.len() >= old(self).phys_pages@.len(),
            final(self).phys_pages@.take(old(self).phys_pages@.len() as int) == old(self).phys_pages@,
            forall|a: u64|
                a < VA_TOP && #[trigger] final(mem).translate(final(self).pgtbl.base, a) != old(
                    mem,
                ).translate(final(self).pgtbl.base, a) ==> in_loaded_pages(
                    elf,
                    elf.header.num_program_entries as int,
                    a as int,
                ) || page_floor(stack_base(l)) <= a < page_floor(stack_base(l)) + pages_spanned(
                    stack_base(l),
                    STACK_PAGES * 4096,
                ) * 4096,
            r matches Ok(jobs) ==> {
                &&& segments_loaded(
                    *final(mem),
                    final(self).pgtbl.base,
                    elf,
                    elf.header.num_program_entries as int,
                    jobs@,
                    l,
                )
                &&& final(self).saved_sp == l.text_start
                &&& final(self).phys_pages@.len() > old(self).phys_pages@.len()
                &&& page_aligned(final(self).phys_pages@.last().spec_start() as int)
                &&& maps_range(
                    *final(mem),
                    final(self).pgtbl.base,
                    stack_base(l),
                    STACK_PAGES * 4096,
                    final(self).phys_pages@.last().spec_start() as int,
                    stack_flags(),
                )
            },
            r matches Err(e) ==> verdict_error(e) ==> nothing_loaded_before_refusal(elf, l, e) ==> {
                &&& final(pool).free() == old(pool).free()
                &&& *final(mem) == *old(mem)
                &&& final(self).phys_pages@ == old(self).phys_pages@
            },
            r is Err ==> final(self).saved_sp == old(self).saved_sp,
            r matches Err(e) ==> verdict_error(e) ==> refused_segment(elf, l, e),
            r matches Err(e) ==> !verdict_error(e) ==> populate_failed(
                elf,
                l,
                e,
                *old(mem),
                final(self).pgtbl.base,
                final(pool).free(),
            ),
    {
        let pt = self.pgtbl;
        let root = pt.base;
        let num = elf.header.num_program_entries;
        let len = elf.source.len();
        assert(elf.header.program_header_pos <= len);
        let pos = elf.header.program_header_pos as usize;
        let src = elf.source.as_slice();
        let ghost ph0 = self.phys_pages@;
        let ghost p0 = *pool;
        let mut jobs: Vec<SegmentCopy> = Vec::new();
        let mut i: u16 = 0;
        while i < num
            invariant
                headers_in_file(elf),
                num == elf.header.num_program_entries,
                pos == elf.header.program_header_pos,
                src@ == elf.source@,
                len == elf.source@.len(),
                pt == self.pgtbl,
                root == pt.base,
                pt == old(self).pgtbl,
                self.id == old(self).id,
                self.state == old(self).state,
                self.saved_pc == old(self).saved_pc,
                self.saved_sp == old(self).saved_sp,
                ph0 == old(self).phys_pages@,
                p0 == *old(pool),
                i <= num,
                mem.tables_wf(root),
                pool.wf(),
                pool.top() <= pa_top(),
                pool_disjoint(pool, mem),
                pool.bottom() == p0.bottom(),
                pool.top() == p0.top(),
                pool.free().subset_of(p0.free()),
                self.phys_pages@.len() >= ph0.len(),
                self.phys_pages@.take(ph0.len() as int) == ph0,
                segments_loaded(*mem, root, elf, i as int, jobs@, l),
                forall|a: u64|
                    a < VA_TOP && #[trigger] mem.translate(root, a) != old(mem).translate(root, a)
                        ==> in_loaded_pages(elf, i as int, a as int),
                (forall|k: int| 0 <= k < i ==> !is_loaded(#[trigger] program_header(elf, k))) ==> {
                    &&& *pool == *old(pool)
                    &&& *mem == *old(mem)
                    &&& self.phys_pages@ == old(self).phys_pages@
                },
            decreases num - i,
        {
            proof {
                assert(pos + (i as int) * 56 + 56 <= pos + (num as int) * 56) by (nonlinear_arith)
                    requires
                        i < num,
                ;
            }
            let off = pos + (i as usize) * 56;
            let seg = ProgramHeaderSegment64::parse(src, off);
            assert(seg == program_header(elf, i as int));
            let ghost p1 = *pool;
            let ghost ph1 = self.phys_pages@;
            let ghost mi = *mem;
            let res = load_header(&mut self.phys_pages, &mut jobs, pool, mem, pt, elf, l, i, seg);
            proof {
                assert(self.phys_pages@.take(ph0.len() as int) =~= ph0) by {
                    assert(self.phys_pages@.take(ph1.len() as int) == ph1);
                    assert(ph1.take(ph0.len() as int) == ph0);
                }
                assert forall|a: u64|
                    a < VA_TOP && #[trigger] mem.translate(root, a) != old(mem).translate(root, a)
                        implies in_loaded_pages(elf, i + 1, a as int) by {
                    if mem.translate(root, a) != mi.translate(root, a) {
                        assert(is_loaded(program_header(elf, i as int)));
                    } else {
                        assert(in_loaded_pages(elf, i as int, a as int));
                    }
                }
            }
            match res {
                Ok(()) => {},
                Err(e) => {
                    proof {
                        if verdict_error(e) && nothing_loaded_before_refusal(elf, l, e) {
                            let k = choose|k: int|
                                0 <= k < elf.header.num_program_entries && (#[trigger] program_header(elf, k)).seg_type
                                    == ProgramSegmentType::Load && segment_verdict(program_header(elf, k), l) == Some(e) && (
                                forall|k2: int|
                                    0 <= k2 < k && (#[trigger] program_header(elf, k2)).seg_type == ProgramSegmentType::Load
                                        ==> segment_verdict(program_header(elf, k2), l) is None) && (forall|k2: int|
                                    0 <= k2 < k ==> !is_loaded(#[trigger] program_header(elf, k2)));
                            if k < i {
                                assert(segments_loaded(mi, root, elf, i as int, jobs@, l));
                                assert(program_header(elf, k).seg_type == ProgramSegmentType::Load);
                                assert(segment_verdict(program_header(elf, k), l) is None);
                            } else if k > i {
                                assert(program_header(elf, i as int).seg_type == ProgramSegmentType::Load);
                            }
                            assert(k == i);
                        }
                        if !verdict_error(e) {
                            lemma_failed_before(
                                *old(mem),
                                mi,
                                root,
                                elf,
                                i as int,
                                e,
                                seg.vmem_addr as int,
                                seg.size_in_memory as int,
                                pool.free(),
                            );
                            assert(is_loaded(program_header(elf, i as int)));
                        }
                    }
                    return Err(e);
                },
            }
            i = i + 1;
        }
        let ghost p1 = *pool;
        let ghost m1 = *mem;
        let loc = l.text_start - STACK_PAGES * PAGE_SIZE;
        let ghost ns = pages_spanned(loc as int, 8192);
        proof {
            assert(2 <= ns) by (nonlinear_arith)
                requires
                    ns == (loc + 8192 - 1) / 4096 - loc / 4096 + 1,
            ;
            assert(ns <= 3) by (nonlinear_arith)
                requires
                    ns == (loc + 8192 - 1) / 4096 - loc / 4096 + 1,
            ;
        }
        let ext = match request_phys_page(pool, STACK_PAGES as usize) {
            Ok(e) => e,
            Err(_) => {
                proof {
                    lemma_pool_disjoint_shrink(&p1, pool, mem);
                    assert forall|b: int| 0 <= b && page_aligned(b) implies !run_free(pool.free(), b, ns) by {
                        assert(page_run(b, 2).subset_of(page_run(b, ns)));
                        assert(!run_free(p1.free(), b, 2));
                    }
                    assert(load_failed(ELFError::FailedAlloc, stack_base(l), 8192, *old(mem), root, elf, num as int, pool.free()));
                }
                return Err(ELFError::FailedAlloc);
            },
        };
        let start = ext.start();
        proof {
            law_pfree_plural_undoes_palloc_plural(&p1, pool, start, STACK_PAGES as int);
            lemma_pool_disjoint_shrink(&p1, pool, mem);
        }
        let ghost p2 = *pool;
        match page_map(pool, mem, pt, loc, start, STACK_PAGES * PAGE_SIZE, user_process_flags(true, true, false)) {
            Ok(()) => {},
            Err(me) => {
                proof {
                    assert(page_run(start as int, 2).disjoint(pool.free()));
                }
                let ghost p3 = *pool;
                ext.release(pool);
                proof {
                    reveal(pool_disjoint);
                    assert forall|x: u64| pool.free().contains(x) implies !mem.has(x) by {
                        if page_run(start as int, 2).contains(x) {
                            assert(p1.free().contains(x));
                            assert(!m1.has(x));
                            assert(!p2.free().contains(x));
                        } else {
                            assert(p3.free().contains(x));
                        }
                    }
                    if me == VmError::PallocFail {
                        let k = choose|k: int|
                            0 <= k < ns && #[trigger] m1.translate(root, range_page(loc as int, k)) is Some;
                        assert(map_blocked(m1, root, elf, 0, loc as int, 8192));
                    } else {
                        assert(page_run(start as int, 2).subset_of(page_run(start as int, ns)));
                        assert(pool.free().subset_of(page_run(start as int, ns)));
                        assert(pool_short(pool.free(), ns));
                    }
                    lemma_failed_before(*old(mem), m1, root, elf, num as int, ELFError::FailedMap, loc as int, 8192, pool.free());
                    assert(!verdict_error(ELFError::FailedMap));
                }
                return Err(ELFError::FailedMap);
            },
        }
        proof {
            assert forall|k: int|
                0 <= k < pages_spanned(loc as int, 8192) implies #[trigger] m1.translate(
                root,
                range_page(loc as int, k),
            ) is None by {
                assert(mem.translate(root, range_page(loc as int, k)) is Some);
            }
            assert forall|j: int| 0 <= j < jobs@.len() implies {
                let s2 = program_header(elf, (#[trigger] jobs@[j]).segment as int);
                maps_range(
                    *mem,
                    root,
                    s2.vmem_addr as int,
                    s2.size_in_memory as int,
                    jobs@[j].dest - s2.vmem_addr % 4096,
                    segment_flags(s2),
                )
            } by {
                let s2 = program_header(elf, jobs@[j].segment as int);
                lemma_maps_range_kept(
                    m1,
                    *mem,
                    root,
                    s2.vmem_addr as int,
                    s2.size_in_memory as int,
                    jobs@[j].dest - s2.vmem_addr % 4096,
                    segment_flags(s2),
                    loc as int,
                    8192,
                );
            }
        }
        self.saved_sp = l.text_start;
        self.phys_pages.push(ext);
        proof {
            assert(self.phys_pages@.take(ph0.len() as int) =~= ph0);
        }
        Ok(jobs)
    }

    /// Map the kernel text, data, stacks and heap into the process page table
    /// onto the same addresses, so that system calls can run on it.
    fn map_kernel_text(&self, pool: &mut PagePool, mem: &mut PtMem, l: KernelLayout) -> (r: Result<
        (),
        VmError,
    >)
        requires
            layout_ok(l),
            old(mem).tables_wf(self.pgtbl.base),
            old(pool).wf(),
            old(pool).top() <= pa_top(),
            pool_disjoint(old(pool), old(mem)),
        ensures
            final(mem).tables_wf(self.pgtbl.base),
            final(pool).wf(),
            pool_disjoint(final(pool), final(mem)),
            pages_moved(old(pool), old(mem), final(pool), final(mem)),
            forall|va2: u64|
                va2 < VA_TOP && (forall|i: int|
                    0 <= i < process_kernel_regions(l).len() ==> !#[trigger] in_region(
                        process_kernel_regions(l)[i],
                        va2 as int,
                    )) ==> #[trigger] final(mem).translate(self.pgtbl.base, va2) == old(mem).translate(
                    self.pgtbl.base,
                    va2,
                ),
            r is Ok ==> forall|i: int|
                0 <= i < process_kernel_regions(l).len() ==> #[trigger] maps_region(
                    *final(mem),
                    self.pgtbl.base,
                    process_kernel_regions(l)[i],
                ),
            r is Ok ==> forall|i: int, k: int|
                0 <= i < process_kernel_regions(l).len() && 0 <= k < pages_spanned(
                    process_kernel_regions(l)[i].va as int,
                    process_kernel_regions(l)[i].size as int,
                ) ==> #[trigger] old(mem).translate(
                    self.pgtbl.base,
                    range_page(process_kernel_regions(l)[i].va as int, k),
                ) is None,
            r matches Err(e) ==> kernel_map_refused(l, *old(mem), self.pgtbl.base, final(pool), e),
    {
        let mut regions: Vec<Region> = Vec::new();
        regions.push(
            Region {
                va: l.text_start,
                size: l.text_end - l.text_start,
                flags: kernel_process_flags(true, false, true),
            },
        );
        regions.push(
            Region {
                va: l.text_end,
                size: l.rodata_end - l.text_end,
                flags: kernel_process_flags(true, false, false),
            },
        );
        regions.push(
            Region {
                va: l.rodata_end,
                size: l.data_end - l.rodata_end,
                flags: kernel_process_flags(true, true, false),
            },
        );
        push_stack_and_heap_regions(&mut regions, l, kernel_process_flags(true, true, false));
        proof {
            assert(regions@ =~= process_kernel_regions(l));
            lemma_stack_and_heap_regions_ok(l, (PTE_READ + PTE_WRITE) as u64);
            assert forall|i: int| 0 <= i < regions@.len() implies region_ok(#[trigger] regions@[i]) by {
                if i >= 3 {
                    assert(regions@[i] == stack_and_heap_regions(l, (PTE_READ + PTE_WRITE) as u64)[i
                        - 3]);
                }
            }
        }
        map_regions(pool, mem, self.pgtbl, &regions)
    }

    /// Give an uninitialized process a fresh id and a page table whose root
    /// is a zeroed page from the pool.
    #[verifier::rlimit(50)]
    fn set_up_root(&mut self, pool: &mut PagePool, mem: &mut PtMem, pids: &mut IdGenerator) -> (r:
        Result<(), ELFError>)
        requires
            old(pool).wf(),
            old(pool).top() <= pa_top(),
            old(mem).wf(),
            pool_disjoint(old(pool), old(mem)),
            old(pids).wf(),
            old(pool).free() != Set::<u64>::empty(),
        ensures
            r is Ok,
            final(mem).tables_wf(final(self).pgtbl.base),
            final(pool).wf(),
            pool_disjoint(final(pool), final(mem)),
            final(pool).bottom() == old(pool).bottom(),
            final(pool).top() == old(pool).top(),
            final(pool).free() == old(pool).free().remove(final(self).pgtbl.base),
            old(pool).free().contains(final(self).pgtbl.base),
            final(pids).wf(),
            !old(pids).in_use().contains(final(self).id),
            final(pids).in_use() == old(pids).in_use().insert(final(self).id),
            final(self).phys_pages@.len() == 1,
            final(self).phys_pages@[0].spec_start() == final(self).pgtbl.base,
            final(self).phys_pages@[0].spec_num() == 1,
            final(self).state == old(self).state,
            final(self).saved_sp == old(self).saved_sp,
            final(self).saved_pc == old(self).saved_pc,
            forall|va: u64| #[trigger] final(mem).translate(final(self).pgtbl.base, va) is None,
    {
        self.id = pids.generate();
        let ghost p0 = *pool;
        let ghost x = choose|x: u64| p0.free().contains(x);
        proof {
            if !p0.free().contains(x) {
                assert(p0.free() =~= Set::<u64>::empty());
            }
            p0.lemma_free_in_bounds(x);
            assert(page_run(x as int, 1).subset_of(p0.free()));
        }
        let pt = match request_phys_page(pool, 1) {
            Ok(e) => e,
            Err(_) => {
                proof {
                    assert(run_free(p0.free(), x as int, 1));
                }
                return Err(ELFError::FailedAlloc);
            },
        };
        let base = pt.start();
        proof {
            assert(page_run(base as int, 1).contains(base));
            assert(page_run(base as int, 1) =~= set![base]);
            assert(pool.free() =~= p0.free().remove(base));
            reveal(pool_disjoint);
            assert(!mem.has(base));
        }
        mem.add_zeroed(base);
        proof {
            mem.lemma_zeroed_root_maps_nothing(base);
            reveal(pool_disjoint);
            assert forall|y: u64| pool.free().contains(y) implies !mem.has(y) by {
                assert(p0.free().contains(y));
                assert(y != base);
            }
        }
        self.pgtbl = PageTable::new(base);
        let mut pages: Vec<PhysPageExtent> = Vec::new();
        pages.push(pt);
        self.phys_pages = pages;
        Ok(())
    }

    /// Set the process up to run `elf`. An uninitialized process gets a
    /// fresh id from `pids` and a page table whose root page comes from the
    /// pool; a process that has run before keeps its id and page table.
    /// Then the loadable segments and a user stack are mapped
    /// (`populate_pagetable64`), then the kernel text and data onto the same
    /// addresses; the process is left `Unstarted` at the ELF entry point. The
    /// copies that fill the segment pages are returned. A running or blocked
    /// process cannot be initialized. A failure to map the kernel regions is
    /// the outer error: the kernel cannot go on from it.
    pub fn initialize64(
        &mut self,
        elf: &ELFProgram,
        pool: &mut PagePool,
        mem: &mut PtMem,
        l: KernelLayout,
        pids: &mut IdGenerator,
    ) -> (r: Result<Result<Vec<SegmentCopy>, ELFError>, VmError>)
        requires
            old(self).state != ProcessState::Running,
            !(old(self).state is Blocked),
            headers_in_file(elf),
            layout_ok(l),
            old(pool).wf(),
            old(pool).top() <= pa_top(),
            old(mem).wf(),
            pool_disjoint(old(pool), old(mem)),
            old(pids).wf(),
            old(self).state == ProcessState::Uninitialized ==> old(pool).free() != Set::<u64>::empty(),
            old(self).state != ProcessState::Uninitialized ==> old(mem).tables_wf(
                old(self).pgtbl.base,
            ),
        ensures
            final(mem).tables_wf(final(self).pgtbl.base),
            final(pool).wf(),
            pool_disjoint(final(pool), final(mem)),
            final(pool).bottom() == old(pool).bottom(),
            final(pool).top() == old(pool).top(),
            final(pool).free().subset_of(old(pool).free()),
            final(pids).wf(),
            old(self).state == ProcessState::Uninitialized ==> {
                &&& !old(pids).in_use().contains(final(self).id)
                &&& final(pids).in_use() == old(pids).in_use().insert(final(self).id)
                &&& old(pool).free().contains(final(self).pgtbl.base)
                &&& !final(pool).free().contains(final(self).pgtbl.base)
                &&& final(self).phys_pages@.len() >= 1
                &&& final(self).phys_pages@[0].spec_start() == final(self).pgtbl.base
                &&& final(self).phys_pages@[0].spec_num() == 1
            },
            old(self).state != ProcessState::Uninitialized ==> {
                &&& final(self).id == old(self).id
                &&& final(self).pgtbl == old(self).pgtbl
                &&& *final(pids) == *old(pids)
                &&& final(self).phys_pages@.take(old(self).phys_pages@.len() as int) == old(
                    self,
                ).phys_pages@
            },
            r matches Ok(Ok(jobs)) ==> {
                &&& final(self).state == ProcessState::Unstarted
                &&& final(self).saved_pc == elf.header.entry
                &&& segments_loaded(
                    *final(mem),
                    final(self).pgtbl.base,
                    elf,
                    elf.header.num_program_entries as int,
                    jobs@,
                    l,
                )
                &&& final(self).saved_sp == l.text_start
                &&& final(self).phys_pages@.len() >= 1
                &&& page_aligned(final(self).phys_pages@.last().spec_start() as int)
                &&& maps_range(
                    *final(mem),
                    final(self).pgtbl.base,
                    stack_base(l),
                    STACK_PAGES * 4096,
                    final(self).phys_pages@.last().spec_start() as int,
                    stack_flags(),
                )
                &&& forall|i: int|
                    0 <= i < process_kernel_regions(l).len() ==> #[trigger] maps_region(
                        *final(mem),
                        final(self).pgtbl.base,
                        process_kernel_regions(l)[i],
                    )
            },
            r is Ok && r->Ok_0 is Err ==> final(self).saved_sp == old(self).saved_sp,
            r matches Ok(Err(e)) ==> verdict_error(e) ==> refused_segment(elf, l, e),
            r matches Ok(Err(e)) ==> !verdict_error(e) ==> populate_failed(
                elf,
                l,
                e,
                *old(mem),
                final(self).pgtbl.base,
                final(pool).free(),
            ),
            r matches Err(ve) ==> kernel_text_blocked(
                elf,
                l,
                ve,
                *old(mem),
                final(self).pgtbl.base,
                final(pool),
            ),
    {
        match self.state {
            ProcessState::Uninitialized => {
                match self.set_up_root(pool, mem, pids) {
                    Ok(()) => {},
                    Err(e) => {
                        return Ok(Err(e));
                    },
                }
            },
            _ => {},
        }
        let ghost p1 = *pool;
        let ghost ph1 = self.phys_pages@;
        let ghost m1 = *mem;
        let ghost root = self.pgtbl.base;
        let ghost fresh = old(self).state == ProcessState::Uninitialized;
        proof {
            assert(forall|va: u64| m1.translate(root, va) is Some ==> !fresh && #[trigger] old(mem).translate(root, va) is Some);
        }
        let jobs = match self.populate_pagetable64(elf, pool, mem, l) {
            Ok(j) => j,
            Err(e) => {
                proof {
                    if !verdict_error(e) {
                        lemma_populate_failed_from(elf, l, e, *old(mem), m1, root, pool.free());
                    }
                }
                return Ok(Err(e));
            },
        };
        let ghost m2 = *mem;
        let ghost p2 = *pool;
        let ghost sp = self.phys_pages@.last().spec_start() + STACK_PAGES * 4096;
        match self.map_kernel_text(pool, mem, l) {
            Ok(()) => {},
            Err(ve) => {
                proof {
                    let rs = process_kernel_regions(l);
                    if ve == VmError::PallocFail && !regions_overlap(rs) {
                        let (i, k) = choose|i: int, k: int|
                            0 <= i < rs.len() && 0 <= k < pages_spanned(rs[i].va as int, rs[i].size as int)
                                && #[trigger] m2.translate(root, range_page(rs[i].va as int, k)) is Some;
                        let a = range_page(rs[i].va as int, k);
                        lemma_stack_and_heap_regions_ok(l, (PTE_READ + PTE_WRITE) as u64);
                        if i >= 3 {
                            assert(rs[i] == stack_and_heap_regions(l, (PTE_READ + PTE_WRITE) as u64)[i - 3]);
                        }
                        lemma_range_page(rs[i], k);
                        if m2.translate(root, a) == m1.translate(root, a) {
                            assert(old(mem).translate(root, a) is Some);
                        }
                        assert(kernel_text_blocked(elf, l, ve, *old(mem), root, pool));
                    }
                }
                return Err(ve);
            },
        }
        proof {
            lemma_loaded_kept(m2, *mem, self.pgtbl.base, elf, jobs@, l, sp);
        }
        self.saved_pc = elf.header.entry;
        self.state = ProcessState::Unstarted;
        Ok(Ok(jobs))
    }
}

} // verus!
