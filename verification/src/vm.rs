//! Virtual memory: physical pages, page tables and kernel allocators.
pub mod palloc;
pub mod ptable;
pub mod sv39;
pub mod vmalloc;
pub mod global;
pub mod galloc;

use vstd::prelude::*;
use crate::vm::palloc::{PagePool, Page, page_run, run_free, page_aligned};

verus! {

/// Kernel VM system error cases.
#[derive(Debug, PartialEq, Eq, Structural, Clone, Copy)]
pub enum VmError {
    OutOfPages,
    PartialPalloc,
    PallocFail,
    PfreeFail,
    GNoSpace,
    Koom,
}

/// Out facing handle on a run of physical pages: `num` pages from `head`.
/// Give it back with `release`.
pub struct PhysPageExtent {
    head: Page,
    num: usize,
}

impl PhysPageExtent {
    pub closed spec fn spec_start(&self) -> u64 {
        self.head.addr
    }

    pub closed spec fn spec_num(&self) -> usize {
        self.num
    }

    /// Address of the first page.
    pub fn start(&self) -> (r: u64)
        ensures
            r == self.spec_start(),
    {
        self.head.addr
    }

    /// Number of pages.
    pub fn num(&self) -> (r: usize)
        ensures
            r == self.spec_num(),
    {
        self.num
    }

    /// One past the last byte of the run.
    pub fn end(&self) -> (r: u64)
        requires
            self.spec_start() + self.spec_num() * 4096 <= u64::MAX,
        ensures
            r == self.spec_start() + self.spec_num() * 4096,
    {
        self.head.addr + (self.num as u64) * 4096
    }

    /// Give the pages back to the pool. The pages must not have been freed by
    /// other means.
    pub fn release(self, pool: &mut PagePool)
        requires
            old(pool).wf(),
            self.spec_num() != 0,
            page_aligned(self.spec_start() as int),
            old(pool).bottom() <= self.spec_start(),
            self.spec_start() + self.spec_num() * 4096 <= old(pool).top(),
            page_run(self.spec_start() as int, self.spec_num() as int).disjoint(old(pool).free()),
        ensures
            final(pool).wf(),
            final(pool).bottom() == old(pool).bottom(),
            final(pool).top() == old(pool).top(),
            final(pool).free() == old(pool).free().union(
                page_run(self.spec_start() as int, self.spec_num() as int),
            ),
    {
        let _ = pool.pfree_plural(self.head.addr, self.num);
    }
}

/// The one way to get physical pages outside of the vm subsystem: the lowest
/// run of `num` free pages.
pub fn request_phys_page(pool: &mut PagePool, num: usize) -> (r: Result<PhysPageExtent, VmError>)
    requires
        old(pool).wf(),
        num != 0,
    ensures
        final(pool).wf(),
        final(pool).bottom() == old(pool).bottom(),
        final(pool).top() == old(pool).top(),
        match r {
            Ok(e) => {
                &&& e.spec_num() == num
                &&& page_aligned(e.spec_start() as int)
                &&& run_free(old(pool).free(), e.spec_start() as int, num as int)
                &&& forall|b: int|
                    0 <= b < e.spec_start() && page_aligned(b) ==> !run_free(
                        old(pool).free(),
                        b,
                        num as int,
                    )
                &&& final(pool).free() == old(pool).free().difference(
                    page_run(e.spec_start() as int, num as int),
                )
            },
            Err(e) => {
                &&& e == VmError::OutOfPages
                &&& forall|b: int|
                    0 <= b && page_aligned(b) ==> !run_free(old(pool).free(), b, num as int)
                &&& final(pool).free() == old(pool).free()
            },
        },
{
    let addr = pool.palloc_plural(num)?;
    Ok(PhysPageExtent { head: Page { addr }, num })
}

/// Take and give back a single page, then two pages, then a single page
/// again. The pool ends as it started.
pub fn test_phys_page(pool: &mut PagePool)
    requires
        old(pool).wf(),
        exists|b: int| 0 <= b && page_aligned(b) && run_free(old(pool).free(), b, 2),
    ensures
        final(pool).wf(),
        final(pool).bottom() == old(pool).bottom(),
        final(pool).top() == old(pool).top(),
        final(pool).free() == old(pool).free(),
{
    let ghost b = choose|b: int| 0 <= b && page_aligned(b) && run_free(old(pool).free(), b, 2);
    proof {
        assert(page_run(b, 1).subset_of(page_run(b, 2)));
    }
    take_and_give_back(pool, 1);
    take_and_give_back(pool, 2);
    take_and_give_back(pool, 1);
}

fn take_and_give_back(pool: &mut PagePool, num: usize)
    requires
        old(pool).wf(),
        num != 0,
        exists|b: int| 0 <= b && page_aligned(b) && run_free(old(pool).free(), b, num as int),
    ensures
        final(pool).wf(),
        final(pool).bottom() == old(pool).bottom(),
        final(pool).top() == old(pool).top(),
        final(pool).free() == old(pool).free(),
{
    let ghost before = *pool;
    if let Ok(e) = request_phys_page(pool, num) {
        proof {
            crate::vm::palloc::law_pfree_plural_undoes_palloc_plural(
                &before,
                pool,
                e.spec_start(),
                num as int,
            );
        }
        e.release(pool);
    }
}

} // verus!
