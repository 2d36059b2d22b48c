//! The kernel's general allocator: sub-page requests go to the zone
//! allocator, larger ones to the page pool.
use vstd::prelude::*;
use crate::vm::palloc::{PagePool, Page, page_aligned, page_run, run_free, law_pfree_undoes_palloc};
use crate::vm::VmError;
use crate::vm::vmalloc::{Kalloc, MAX_CHUNK_SIZE, round8, Chunk, Header, ZONE_SIZE};
use crate::vm::ptable::pa_top;
use crate::param::PAGE_SIZE;

verus! {

/// Pages to take from the page pool for `size` bytes aligned to `align`, or
/// 0 to take them from the zone allocator.
pub open spec fn internal_scheme(size: usize, align: usize) -> usize {
    if size <= MAX_CHUNK_SIZE {
        if align <= 8 {
            0
        } else {
            1
        }
    } else {
        ((size + 4095) / 4096) as usize
    }
}

/// A request above `MAX_CHUNK_SIZE` takes the fewest whole pages that hold
/// it: `n` pages with `n * 4096 >= size` and `(n - 1) * 4096 < size`.
pub proof fn law_large_requests_take_fewest_pages(size: usize, align: usize)
    requires
        size > MAX_CHUNK_SIZE,
    ensures
        internal_scheme(size, align) * 4096 >= size,
        (internal_scheme(size, align) - 1) * 4096 < size,
{
    let n = (size + 4095) / 4096;
    assert(n * 4096 >= size && (n - 1) * 4096 < size && n <= usize::MAX) by (nonlinear_arith)
        requires
            n == (size + 4095) / 4096,
            size > 0,
            size <= usize::MAX,
    ;
}

/// The number of pages to request from the page allocator, or zero to
/// request from the sub-page allocator. Zero sizes are not allowed.
pub fn decide_internal_scheme(size: usize, align: usize) -> (n: usize)
    requires
        size > 0,
    ensures
        n == internal_scheme(size, align),
        size > MAX_CHUNK_SIZE ==> n * 4096 >= size && (n - 1) * 4096 < size,
        size <= MAX_CHUNK_SIZE ==> n == (if align <= 8 {
            0usize
        } else {
            1usize
        }),
{
    proof {
        if size > MAX_CHUNK_SIZE {
            law_large_requests_take_fewest_pages(size, align);
        }
    }
    if size as u64 <= MAX_CHUNK_SIZE {
        if align <= 8 {
            0
        } else {
            1
        }
    } else {
        size / 4096 + if size % 4096 != 0 {
            1
        } else {
            0
        }
    }
}

/// General allocator: the zone allocator for small requests; pages come
/// from the page pool passed to each call.
pub struct Galloc {
    small_pool: Kalloc,
}

impl Galloc {
    pub closed spec fn small(&self) -> Kalloc {
        self.small_pool
    }

    /// The zone allocator of sub-page requests.
    pub fn small_allocator(&self) -> (r: &Kalloc)
        ensures
            *r == self.small(),
    {
        &self.small_pool
    }

    pub open spec fn wf(&self, pool: &PagePool) -> bool {
        &&& self.small().wf()
        &&& self.small().holds_pages(pool)
    }

    /// Take the first page of the zone allocator from the pool, which must
    /// not be empty: the lowest free page, which becomes the only zone.
    pub fn new(pool: &mut PagePool) -> (g: Self)
        requires
            old(pool).wf(),
            old(pool).top() <= pa_top(),
            old(pool).free() != Set::<u64>::empty(),
        ensures
            final(pool).wf(),
            g.wf(final(pool)),
            g.small().live() == Set::<(u64, u64)>::empty(),
            final(pool).bottom() == old(pool).bottom(),
            final(pool).top() == old(pool).top(),
            g.small().spec_zones().len() == 1,
            g.small().spec_zones()[0].spec_refs() == 0,
            g.small().spec_zones()[0].spec_chunks() == seq![
                Chunk { offset: ZONE_SIZE, head: Header { fields: MAX_CHUNK_SIZE } },
            ],
            old(pool).free().contains(g.small().spec_zones()[0].spec_base()),
            forall|x: u64|
                #[trigger] old(pool).free().contains(x) ==> g.small().spec_zones()[0].spec_base() <= x,
            final(pool).free() == old(pool).free().remove(g.small().spec_zones()[0].spec_base()),
    {
        let ghost p0 = *pool;
        let page = match pool.palloc() {
            Ok(p) => p,
            Err(_) => {
                proof {
                    assert(p0.free() =~= Set::<u64>::empty());
                }
                Page { addr: 0 }
            },
        };
        proof {
            law_pfree_undoes_palloc(&p0, pool, page.addr);
        }
        let small_pool = Kalloc::new(page);
        let g = Galloc { small_pool };
        proof {
            g.small_pool.lemma_holds_single(pool);
        }
        g
    }

    /// Allocate `size` bytes aligned to `align`: from the zone allocator
    /// when `internal_scheme` says 0, else that many pages, the lowest free
    /// run of the pool. Gives the address, or the error of the allocator
    /// asked (`Koom` for the zone allocator).
    #[verifier::rlimit(30)]
    pub fn allocate(&mut self, pool: &mut PagePool, size: usize, align: usize) -> (r: Result<u64, VmError>)
        requires
            old(self).wf(old(pool)),
            old(pool).wf(),
            old(pool).top() <= pa_top(),
            size > 0,
            align <= 4096,
        ensures
            final(self).wf(final(pool)),
            final(pool).wf(),
            final(pool).bottom() == old(pool).bottom(),
            final(pool).top() == old(pool).top(),
            internal_scheme(size, align) == 0 ==> match r {
                Ok(a) => {
                    &&& old(self).small().not_live_at(a)
                    &&& final(self).small().live() == old(self).small().live().insert((a, round8(size as u64)))
                },
                Err(e) => {
                    &&& e == VmError::Koom
                    &&& old(pool).free() == Set::<u64>::empty()
                    &&& final(pool).free() == old(pool).free()
                    &&& final(self).small().live() == old(self).small().live()
                },
            },
            internal_scheme(size, align) != 0 ==> final(self).small().live() == old(self).small().live()
                && match r {
                Ok(a) => {
                    &&& page_aligned(a as int)
                    &&& run_free(old(pool).free(), a as int, internal_scheme(size, align) as int)
                    &&& forall|b: int|
                        0 <= b < a && page_aligned(b) ==> !run_free(
                            old(pool).free(),
                            b,
                            internal_scheme(size, align) as int,
                        )
                    &&& final(pool).free() == old(pool).free().difference(
                        page_run(a as int, internal_scheme(size, align) as int),
                    )
                },
                Err(e) => {
                    &&& e == VmError::OutOfPages
                    &&& forall|b: int|
                        0 <= b && page_aligned(b) ==> !run_free(
                            old(pool).free(),
                            b,
                            internal_scheme(size, align) as int,
                        )
                    &&& final(pool).free() == old(pool).free()
                },
            },
    {
        let num_pages = decide_internal_scheme(size, align);
        if num_pages == 0 {
            match self.small_pool.allocate(pool, size as u64) {
                Ok(a) => Ok(a),
                Err(_) => Err(VmError::Koom),
            }
        } else {
            let ghost p0 = *pool;
            let r = pool.palloc_plural(num_pages);
            proof {
                self.small_pool.lemma_holds_pages_moved(&p0, pool);
            }
            r
        }
    }

    /// Whether `ptr` can be given back for `size` bytes aligned to `align`:
    /// a piece of the zone allocator starts there, or, for page allocations,
    /// the pages from `ptr` are pages of the pool, none free and none a zone.
    pub fn can_deallocate(&self, pool: &PagePool, ptr: u64, size: usize, align: usize) -> (r: bool)
        requires
            self.wf(pool),
            pool.wf(),
            size > 0,
        ensures
            internal_scheme(size, align) == 0 ==> (r <==> exists|sz: u64|
                self.small().live().contains((ptr, sz))),
            internal_scheme(size, align) != 0 ==> (r <==> {
                &&& page_aligned(ptr as int)
                &&& forall|b: u64|
                    #[trigger] page_run(ptr as int, internal_scheme(size, align) as int).contains(b)
                        ==> !self.small().owns_page(b)
                &&& pool.bottom() <= ptr
                &&& ptr + internal_scheme(size, align) * 4096 <= pool.top()
                &&& page_run(ptr as int, internal_scheme(size, align) as int).disjoint(pool.free())
            }),
    {
        let n = decide_internal_scheme(size, align);
        if n == 0 {
            return self.small_pool.holds(ptr);
        }
        if ptr % PAGE_SIZE != 0 {
            return false;
        }
        let bottom = pool.bottom_addr();
        let top = pool.top_addr();
        if ptr < bottom || ptr > top {
            return false;
        }
        let nn = n as u64;
        if (top - ptr) / PAGE_SIZE < nn {
            proof {
                assert(ptr + nn * 4096 > top) by (nonlinear_arith)
                    requires
                        (top - ptr) / 4096 < nn,
                        ptr <= top,
                ;
            }
            return false;
        }
        proof {
            assert(ptr + nn * 4096 <= top) by (nonlinear_arith)
                requires
                    (top - ptr) / 4096 >= nn,
                    ptr <= top,
            ;
        }
        if self.small_pool.owns_any(ptr, nn) {
            return false;
        }
        pool.run_taken(ptr, nn)
    }

    /// Give back `ptr`, allocated by `allocate` with the same `size` and
    /// `align`. Page allocations go back to the pool; they must be pages of
    /// the pool that are not free.
    #[verifier::rlimit(30)]
    pub fn deallocate(&mut self, pool: &mut PagePool, ptr: u64, size: usize, align: usize) -> (r:
        Result<(), VmError>)
        requires
            old(self).wf(old(pool)),
            old(pool).wf(),
            size > 0,
            align <= 4096,
            internal_scheme(size, align) == 0 ==> exists|sz: u64|
                old(self).small().live().contains((ptr, sz)),
            internal_scheme(size, align) != 0 ==> {
                &&& page_aligned(ptr as int)
                &&& forall|b: u64|
                    #[trigger] page_run(ptr as int, internal_scheme(size, align) as int).contains(b)
                        ==> !old(self).small().owns_page(b)
                &&& old(pool).bottom() <= ptr
                &&& ptr + internal_scheme(size, align) * 4096 <= old(pool).top()
                &&& page_run(ptr as int, internal_scheme(size, align) as int).disjoint(
                    old(pool).free(),
                )
            },
        ensures
            final(self).wf(final(pool)),
            final(pool).wf(),
            final(pool).bottom() == old(pool).bottom(),
            final(pool).top() == old(pool).top(),
            internal_scheme(size, align) == 0 ==> {
                &&& r is Ok
                &&& forall|p: (u64, u64)|
                    #[trigger] final(self).small().live().contains(p) <==> old(self).small().live().contains(
                        p,
                    ) && p.0 != ptr
            },
            internal_scheme(size, align) != 0 ==> {
                &&& final(self).small().live() == old(self).small().live()
                &&& r is Ok
                &&& final(pool).free() == old(pool).free().union(
                    page_run(ptr as int, internal_scheme(size, align) as int),
                )
            },
    {
        let num_pages = decide_internal_scheme(size, align);
        if num_pages == 0 {
            self.small_pool.free(pool, ptr);
            Ok(())
        } else {
            let ghost p0 = *pool;
            let r = pool.pfree_plural(ptr, num_pages);
            proof {
                assert forall|b: u64| #[trigger] pool.free().contains(b) implies p0.free().contains(b)
                    || !self.small_pool.owns_page(b) by {
                    if !p0.free().contains(b) {
                        assert(page_run(ptr as int, num_pages as int).contains(b));
                    }
                }
                self.small_pool.lemma_holds_pages_moved(&p0, pool);
            }
            r
        }
    }
}

} // verus!
