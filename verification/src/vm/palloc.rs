//! Physical page allocator.
//!
//! The pool hands out physical pages from a fixed region `[bottom, top)`.
//! Free pages are kept in address order; a request for `n` pages takes the
//! lowest run of `n` contiguous free pages (first fit), and a freed run is put
//! back in order.
use vstd::prelude::*;
use crate::param::PAGE_SIZE;
use crate::vm::VmError;
use vstd::arithmetic::power2::{pow2, lemma_pow2_pos};
use vstd::bits::{low_bits_mask, lemma_u64_low_bits_mask_is_mod, lemma_u64_pow2_no_overflow};

verus! {

/// Whether `a` is a multiple of the page size.
pub open spec fn page_aligned(a: int) -> bool {
    a % 4096 == 0
}

/// The `n` page addresses `a, a + PAGE_SIZE, ..., a + (n - 1) * PAGE_SIZE`
/// (for a page aligned `a`).
pub open spec fn page_run(a: int, n: int) -> Set<u64> {
    Set::new(|x: u64| a <= x < a + n * 4096 && page_aligned(x as int))
}

/// Entries strictly increase along the sequence.
pub open spec fn strictly_sorted(s: Seq<u64>) -> bool {
    forall|i: int, j: int| 0 <= i < j < s.len() ==> s[i] < s[j]
}

/// Starting at index `i`, `n` entries of `s` are consecutive pages.
pub open spec fn run_at(s: Seq<u64>, i: int, n: int) -> bool {
    &&& 1 <= n
    &&& 0 <= i
    &&& i + n <= s.len()
    &&& forall|k: int| i < k < i + n ==> #[trigger] s[k] == s[k - 1] + 4096
}

/// No run of `n` consecutive pages starts before index `i`.
pub open spec fn no_run_before(s: Seq<u64>, i: int, n: int) -> bool {
    forall|j: int| 0 <= j < i ==> !#[trigger] run_at(s, j, n)
}

/// The page addresses `a, ..., a + (n - 1) * PAGE_SIZE` as a sequence.
pub open spec fn run_seq(a: int, n: nat) -> Seq<u64> {
    Seq::new(n, |k: int| (a + k * 4096) as u64)
}

/// `size` is one of the powers of two that fit a `u64`.
pub open spec fn power_of_two(size: u64) -> bool {
    exists|n: nat| n < 64 && size == pow2(n)
}

/// The whole run of `n` pages from `a` fits below 2^64 and every page of it
/// is in `free`.
pub open spec fn run_free(free: Set<u64>, a: int, n: int) -> bool {
    &&& a + n * 4096 <= 0x1_0000_0000_0000_0000
    &&& page_run(a, n).subset_of(free)
}

/// Entries are page aligned and strictly increasing.
pub open spec fn aligned_sorted(s: Seq<u64>) -> bool {
    &&& strictly_sorted(s)
    &&& forall|i: int| 0 <= i < s.len() ==> page_aligned(#[trigger] s[i] as int)
}

proof fn lemma_run_values(s: Seq<u64>, i: int, n: int, k: int)
    requires
        run_at(s, i, n),
        0 <= k < n,
    ensures
        s[i + k] == s[i] + k * 4096,
    decreases k,
{
    if k > 0 {
        lemma_run_values(s, i, n, k - 1);
        assert(s[i + k] == s[i + k - 1] + 4096);
    }
}

proof fn lemma_run_seq_set(a: int, n: nat)
    requires
        page_aligned(a),
        0 <= a,
        a + n * 4096 <= 0x1_0000_0000_0000_0000,
    ensures
        run_seq(a, n).to_set() == page_run(a, n as int),
{
    let r = run_seq(a, n);
    assert forall|x: u64| r.to_set().contains(x) <==> page_run(a, n as int).contains(x) by {
        if page_run(a, n as int).contains(x) {
            let k = (x - a) / 4096;
            assert(r[k] == x);
            assert(r.contains(x));
        }
        if r.contains(x) {
            let k = choose|k: int| 0 <= k < r.len() && r[k] == x;
            assert(r[k] == x);
        }
    }
    assert(r.to_set() =~= page_run(a, n as int));
}

proof fn lemma_run_subset(s: Seq<u64>, i: int, n: int)
    requires
        aligned_sorted(s),
        run_at(s, i, n),
    ensures
        run_free(s.to_set(), s[i] as int, n),
{
    lemma_run_values(s, i, n, n - 1);
    assert forall|x: u64| page_run(s[i] as int, n).contains(x) implies s.to_set().contains(x) by {
        let k = (x - s[i]) / 4096;
        lemma_run_values(s, i, n, k);
        assert(s[i + k] == x);
        assert(s.contains(x));
    }
}

proof fn lemma_set_run_values(s: Seq<u64>, j: int, n: int, k: int)
    requires
        aligned_sorted(s),
        0 <= j < s.len(),
        run_free(s.to_set(), s[j] as int, n),
        0 <= k < n,
    ensures
        j + k < s.len(),
        s[j + k] == s[j] + k * 4096,
    decreases k,
{
    if k > 0 {
        lemma_set_run_values(s, j, n, k - 1);
        let v = (s[j] + k * 4096) as u64;
        assert(page_run(s[j] as int, n).contains(v));
        assert(s.to_set().contains(v));
        assert(s.contains(v));
        let m = choose|m: int| 0 <= m < s.len() && s[m] == v;
        assert(m > j + k - 1);
        if j + k < m {
            assert(s[j + k] < s[m]);
        }
        assert(s[j + k] > s[j + k - 1]);
        assert(page_aligned(s[j + k] as int));
    }
}

proof fn lemma_set_run_at(s: Seq<u64>, j: int, n: int)
    requires
        aligned_sorted(s),
        0 <= j < s.len(),
        1 <= n,
        run_free(s.to_set(), s[j] as int, n),
    ensures
        run_at(s, j, n),
{
    lemma_set_run_values(s, j, n, n - 1);
    assert forall|k: int| j < k < j + n implies #[trigger] s[k] == s[k - 1] + 4096 by {
        lemma_set_run_values(s, j, n, k - j);
        lemma_set_run_values(s, j, n, k - 1 - j);
    }
}

/// Any free run in the set of an ordered page sequence starts at some index.
proof fn lemma_run_free_has_index(s: Seq<u64>, b: int, n: int) -> (j: int)
    requires
        aligned_sorted(s),
        1 <= n,
        page_aligned(b),
        0 <= b,
        run_free(s.to_set(), b, n),
    ensures
        0 <= j < s.len(),
        s[j] == b,
        run_at(s, j, n),
{
    assert(page_run(b, n).contains(b as u64));
    assert(s.to_set().contains(b as u64));
    assert(s.contains(b as u64));
    let j = choose|j: int| 0 <= j < s.len() && s[j] == b as u64;
    lemma_set_run_at(s, j, n);
    j
}

proof fn lemma_remove_run_kept(s: Seq<u64>, i: int, n: int, m: int)
    requires
        aligned_sorted(s),
        run_at(s, i, n),
        0 <= m < s.len(),
        !(i <= m < i + n),
    ensures
        !page_run(s[i] as int, n).contains(s[m]),
{
    lemma_run_values(s, i, n, n - 1);
    if m >= i + n {
        assert(s[m] > s[i + n - 1]);
        assert(page_aligned(s[m] as int));
    } else {
        assert(s[m] < s[i]);
    }
}

proof fn lemma_remove_run_set(s: Seq<u64>, i: int, n: int)
    requires
        aligned_sorted(s),
        run_at(s, i, n),
    ensures
        (s.take(i) + s.skip(i + n)).to_set() == s.to_set().difference(page_run(s[i] as int, n)),
{
    let t = s.take(i) + s.skip(i + n);
    let d = s.to_set().difference(page_run(s[i] as int, n));
    assert forall|x: u64| t.to_set().contains(x) implies d.contains(x) by {
        assert(t.contains(x));
        let m = choose|m: int| 0 <= m < t.len() && t[m] == x;
        let om = if m < i { m } else { m + n };
        assert(t[m] == s[om]);
        assert(s.contains(x));
        lemma_remove_run_kept(s, i, n, om);
    }
    assert forall|x: u64| d.contains(x) implies t.to_set().contains(x) by {
        assert(s.contains(x));
        let m = choose|m: int| 0 <= m < s.len() && s[m] == x;
        if i <= m < i + n {
            lemma_run_values(s, i, n, m - i);
            assert(page_run(s[i] as int, n).contains(x));
        } else if m < i {
            assert(t[m] == x);
        } else {
            assert(t[m - n] == x);
        }
        assert(t.contains(x));
    }
    assert(t.to_set() =~= d);
}

proof fn lemma_insert_run_set(s: Seq<u64>, p: int, a: int, n: nat)
    requires
        0 <= p <= s.len(),
        0 <= a,
        page_aligned(a),
        a + n * 4096 <= 0x1_0000_0000_0000_0000,
    ensures
        (s.take(p) + run_seq(a, n) + s.skip(p)).to_set() == s.to_set().union(page_run(a, n as int)),
{
    let r = run_seq(a, n);
    let t = s.take(p) + r + s.skip(p);
    lemma_run_seq_set(a, n);
    assert forall|x: u64| t.to_set().contains(x) <==> s.to_set().union(page_run(a, n as int)).contains(x) by {
        if t.contains(x) {
            let m = choose|m: int| 0 <= m < t.len() && t[m] == x;
            if m < p {
                assert(s[m] == x);
                assert(s.contains(x));
            } else if m < p + n {
                assert(r[m - p] == x);
                assert(r.contains(x));
                assert(r.to_set().contains(x));
            } else {
                assert(s[m - n] == x);
                assert(s.contains(x));
            }
        }
        if s.contains(x) {
            let m = choose|m: int| 0 <= m < s.len() && s[m] == x;
            if m < p {
                assert(t[m] == x);
            } else {
                assert(t[m + n] == x);
            }
            assert(t.contains(x));
        }
        if page_run(a, n as int).contains(x) {
            assert(r.to_set().contains(x));
            assert(r.contains(x));
            let k = choose|k: int| 0 <= k < r.len() && r[k] == x;
            assert(t[p + k] == x);
            assert(t.contains(x));
        }
    }
    assert(t.to_set() =~= s.to_set().union(page_run(a, n as int)));
}

/// Utility function, primarily used to check if addresses are page aligned.
pub fn is_multiple(addr: u64, size: u64) -> (r: bool)
    requires
        power_of_two(size),
    ensures
        r == (addr % size == 0),
{
    let ghost n = choose|n: nat| n < 64 && size == pow2(n);
    proof {
        lemma_u64_pow2_no_overflow(n);
        lemma_pow2_pos(n);
        lemma_u64_low_bits_mask_is_mod(addr, n);
        assert(low_bits_mask(n) == pow2(n) - 1);
    }
    addr & (size - 1) == 0
}

/// Abstraction of a physical page of memory: the address of its first byte.
#[derive(Copy, Clone, Debug, PartialEq, Eq, Structural)]
pub struct Page {
    pub addr: u64,
}

/// Why a run of pages could not be taken from the pool.
pub enum PageError {
    NoGap,
}

/// A page pool over `[bottom, top)`, tracking its free pages in address order.
pub struct Pool {
    free: Vec<u64>,
    bottom: u64,
    top: u64,
}

impl Pool {
    /// Pool invariant: bounds are page aligned, free pages are aligned, inside
    /// the bounds and strictly increasing.
    pub closed spec fn wf(&self) -> bool {
        &&& page_aligned(self.bottom as int)
        &&& page_aligned(self.top as int)
        &&& self.bottom <= self.top
        &&& strictly_sorted(self.free@)
        &&& forall|i: int|
            0 <= i < self.free@.len() ==> page_aligned(#[trigger] self.free@[i] as int)
                && self.bottom <= self.free@[i] < self.top
    }

    pub closed spec fn free_seq(&self) -> Seq<u64> {
        self.free@
    }

    pub closed spec fn spec_bottom(&self) -> u64 {
        self.bottom
    }

    pub closed spec fn spec_top(&self) -> u64 {
        self.top
    }

    /// Set up the pool with every page of `[bottom, top)` free.
    pub fn new(bottom: u64, top: u64, chunk_size: u64) -> (p: Self)
        requires
            page_aligned(bottom as int),
            page_aligned(top as int),
            bottom < top,
            chunk_size == PAGE_SIZE,
        ensures
            p.wf(),
            p.spec_bottom() == bottom,
            p.spec_top() == top,
            p.free_seq() == run_seq(bottom as int, ((top - bottom) / 4096) as nat),
    {
        let mut free: Vec<u64> = Vec::new();
        let mut pa = bottom;
        let ghost count: nat = 0;
        while pa < top
            invariant
                page_aligned(bottom as int),
                page_aligned(top as int),
                bottom <= pa <= top,
                page_aligned(pa as int),
                pa == bottom + count * 4096,
                chunk_size == 4096,
                free@ == run_seq(bottom as int, count),
            decreases top - pa,
        {
            free.push(pa);
            proof {
                assert(free@ =~= run_seq(bottom as int, count + 1));
                count = count + 1;
            }
            pa = pa + chunk_size;
        }
        proof {
            assert(count == (top - bottom) / 4096);
        }
        Pool { free, bottom, top }
    }

    /// Take the lowest run of `num_pages` consecutive free pages.
    pub fn alloc_pages(&mut self, num_pages: usize) -> (r: Result<Page, PageError>)
        requires
            old(self).wf(),
            num_pages >= 1,
        ensures
            final(self).wf(),
            final(self).spec_bottom() == old(self).spec_bottom(),
            final(self).spec_top() == old(self).spec_top(),
            match r {
                Ok(p) => exists|i: int|
                    {
                        &&& run_at(old(self).free_seq(), i, num_pages as int)
                        &&& no_run_before(old(self).free_seq(), i, num_pages as int)
                        &&& p.addr == old(self).free_seq()[i]
                        &&& final(self).free_seq() == old(self).free_seq().take(i)
                            + old(self).free_seq().skip(i + num_pages)
                    },
                Err(_) => no_run_before(
                    old(self).free_seq(),
                    old(self).free_seq().len() as int,
                    num_pages as int,
                ) && final(self).free_seq() == old(self).free_seq(),
            },
    {
        let ghost s = self.free@;
        let len = self.free.len();
        let mut start: usize = 0;
        let mut idx: usize = 0;
        while idx < len && idx - start < num_pages
            invariant
                self.wf(),
                self.free@ == s,
                len == s.len(),
                num_pages >= 1,
                start <= idx <= len,
                idx - start <= num_pages,
                forall|k: int| start < k < idx ==> #[trigger] s[k] == s[k - 1] + 4096,
                no_run_before(s, start as int, num_pages as int),
            decreases len - idx,
        {
            if idx > start && self.free[idx] != self.free[idx - 1] + PAGE_SIZE {
                assert forall|j: int| 0 <= j < idx implies !#[trigger] run_at(
                    s,
                    j,
                    num_pages as int,
                ) by {
                    if j >= start {
                        assert(j < idx < j + num_pages);
                    }
                }
                start = idx;
            }
            idx = idx + 1;
        }
        if idx - start == num_pages {
            let addr = self.free[start];
            let mut removed: usize = 0;
            while removed < num_pages
                invariant
                    self.bottom == old(self).bottom,
                    self.top == old(self).top,
                    s == old(self).free@,
                    start + num_pages <= s.len(),
                    removed <= num_pages,
                    self.free@ == s.take(start as int) + s.skip(start + removed),
                decreases num_pages - removed,
            {
                self.free.remove(start);
                proof {
                    assert(self.free@ =~= s.take(start as int) + s.skip(start + removed + 1));
                }
                removed = removed + 1;
            }
            proof {
                let t = self.free@;
                assert forall|a: int, b: int| 0 <= a < b < t.len() implies t[a] < t[b] by {
                    let ia = if a < start { a } else { a + num_pages };
                    let ib = if b < start { b } else { b + num_pages };
                    assert(t[a] == s[ia]);
                    assert(t[b] == s[ib]);
                }
                assert forall|a: int| 0 <= a < t.len() implies page_aligned(#[trigger] t[a] as int)
                    && self.bottom <= t[a] < self.top by {
                    let ia = if a < start { a } else { a + num_pages };
                    assert(t[a] == s[ia]);
                }
                assert(run_at(s, start as int, num_pages as int));
                assert(self.free@ == s.take(start as int) + s.skip(start + num_pages));
                assert(s == old(self).free_seq());
                let i = start as int;
                assert({
                    &&& run_at(old(self).free_seq(), i, num_pages as int)
                    &&& no_run_before(old(self).free_seq(), i, num_pages as int)
                    &&& addr == old(self).free_seq()[i]
                    &&& self.free_seq() == old(self).free_seq().take(i)
                        + old(self).free_seq().skip(i + num_pages)
                });
            }
            Ok(Page { addr })
        } else {
            Err(PageError::NoGap)
        }
    }

    /// Return the run of `num_pages` pages starting at `addr` to the pool,
    /// in address order. The run must be pages of the pool that are not free:
    /// the free list holds each page of the pool at most once.
    pub fn free_pages(&mut self, addr: u64, num_pages: usize) -> (r: Result<(), VmError>)
        requires
            old(self).wf(),
            num_pages >= 1,
            page_aligned(addr as int),
            old(self).spec_bottom() <= addr,
            addr + num_pages * 4096 <= old(self).spec_top(),
            forall|i: int|
                0 <= i < old(self).free_seq().len() ==> !(addr <= #[trigger] old(
                    self,
                ).free_seq()[i] < addr + num_pages * 4096),
        ensures
            final(self).wf(),
            final(self).spec_bottom() == old(self).spec_bottom(),
            final(self).spec_top() == old(self).spec_top(),
            r is Ok,
            exists|p: int|
                {
                    &&& 0 <= p <= old(self).free_seq().len()
                    &&& forall|i: int| 0 <= i < p ==> #[trigger] old(self).free_seq()[i] < addr
                    &&& forall|i: int|
                        p <= i < old(self).free_seq().len() ==> #[trigger] old(self).free_seq()[i]
                            >= addr + num_pages * 4096
                    &&& final(self).free_seq() == old(self).free_seq().take(p) + run_seq(
                        addr as int,
                        num_pages as nat,
                    ) + old(self).free_seq().skip(p)
                },
    {
        let ghost s = self.free@;
        let n = num_pages as u64;
        assert(addr + num_pages * 4096 <= self.top);
        let end = addr + n * PAGE_SIZE;
        let len = self.free.len();
        let mut p: usize = 0;
        while p < len && self.free[p] < addr
            invariant
                self.free@ == s,
                self.bottom == old(self).bottom,
                self.top == old(self).top,
                len == s.len(),
                p <= len,
                forall|i: int| 0 <= i < p ==> #[trigger] s[i] < addr,
            decreases len - p,
        {
            p = p + 1;
        }
        proof {
            if p < len {
                assert(s == old(self).free_seq());
                assert(!(addr <= s[p as int] < end));
            }
            assert forall|i: int| p <= i < len implies #[trigger] s[i] >= end by {
                if i > p {
                    assert(s[p as int] < s[i]);
                }
            }
            assert forall|i: int| 0 <= i < len implies !(addr <= #[trigger] s[i] < end) by {
                if i >= p {
                    assert(s[i] >= end);
                }
            }
        }
        let mut k: usize = 0;
        while k < num_pages
            invariant
                self.bottom == old(self).bottom,
                self.top == old(self).top,
                s == old(self).free@,
                k <= num_pages,
                p <= len == s.len(),
                end == addr + num_pages * 4096,
                end <= self.top,
                self.free@ == s.take(p as int) + run_seq(addr as int, k as nat) + s.skip(
                    p as int,
                ),
            decreases num_pages - k,
        {
            let page = addr + (k as u64) * PAGE_SIZE;
            assert(self.free@.len() == len + k);
            let cur_len = self.free.len();
            assert(p + k <= cur_len);
            self.free.insert(p + k, page);
            proof {
                assert(self.free@ =~= s.take(p as int) + run_seq(addr as int, (k + 1) as nat)
                    + s.skip(p as int));
            }
            k = k + 1;
        }
        proof {
            let t = self.free@;
            let rn = run_seq(addr as int, num_pages as nat);
            assert(t.len() == len + num_pages);
            assert forall|a: int| 0 <= a < t.len() implies page_aligned(#[trigger] t[a] as int)
                && self.bottom <= t[a] < self.top by {
                if a < p {
                    assert(t[a] == s[a]);
                } else if a < p + num_pages {
                    assert(t[a] == rn[a - p]);
                } else {
                    assert(t[a] == s[a - num_pages]);
                }
            }
            assert forall|a: int, b: int| 0 <= a < b < t.len() implies t[a] < t[b] by {
                if b < p {
                    assert(t[a] == s[a] && t[b] == s[b]);
                } else if b < p + num_pages {
                    assert(t[b] == rn[b - p]);
                    if a < p {
                        assert(t[a] == s[a]);
                    } else {
                        assert(t[a] == rn[a - p]);
                    }
                } else {
                    assert(t[b] == s[b - num_pages]);
                    if a < p {
                        assert(t[a] == s[a]);
                    } else if a < p + num_pages {
                        assert(t[a] == rn[a - p]);
                    } else {
                        assert(t[a] == s[a - num_pages]);
                    }
                }
            }
            assert(s == old(self).free_seq());
            let pp = p as int;
            assert({
                &&& 0 <= pp <= old(self).free_seq().len()
                &&& forall|i: int| 0 <= i < pp ==> #[trigger] old(self).free_seq()[i] < addr
                &&& forall|i: int|
                    pp <= i < old(self).free_seq().len() ==> #[trigger] old(self).free_seq()[i]
                        >= addr + num_pages * 4096
                &&& self.free_seq() == old(self).free_seq().take(pp) + run_seq(
                    addr as int,
                    num_pages as nat,
                ) + old(self).free_seq().skip(pp)
            });
        }
        Ok(())
    }
}

/// Kernel page pool.
pub struct PagePool {
    pool: Pool,
}

impl PagePool {
    /// Pool invariant.
    pub closed spec fn wf(&self) -> bool {
        self.pool.wf()
    }

    /// The set of free page addresses.
    pub closed spec fn free(&self) -> Set<u64> {
        self.pool.free_seq().to_set()
    }

    /// Lowest address managed by the pool.
    pub closed spec fn bottom(&self) -> u64 {
        self.pool.spec_bottom()
    }

    /// One past the highest address managed by the pool.
    pub closed spec fn top(&self) -> u64 {
        self.pool.spec_top()
    }

    /// One past the highest address managed by the pool.
    pub fn top_addr(&self) -> (r: u64)
        ensures
            r == self.top(),
    {
        self.pool.top
    }

    /// Lowest address managed by the pool.
    pub fn bottom_addr(&self) -> (r: u64)
        ensures
            r == self.bottom(),
    {
        self.pool.bottom
    }

    /// Whether some page is free.
    pub fn has_free(&self) -> (r: bool)
        ensures
            r == (self.free() != Set::<u64>::empty()),
    {
        let r = self.pool.free.len() > 0;
        proof {
            let s = self.pool.free@;
            if r {
                assert(s.to_set().contains(s[0]));
            } else {
                assert(s.to_set() =~= Set::<u64>::empty());
            }
        }
        r
    }

    /// Whether no page of the `n` pages from `p` is free.
    pub fn run_taken(&self, p: u64, n: u64) -> (r: bool)
        requires
            self.wf(),
            page_aligned(p as int),
            p + n * 4096 <= u64::MAX,
        ensures
            r == page_run(p as int, n as int).disjoint(self.free()),
    {
        let ghost s = self.pool.free@;
        let end = p + n * PAGE_SIZE;
        let mut i: usize = 0;
        while i < self.pool.free.len()
            invariant
                s == self.pool.free@,
                self.wf(),
                end == p + n * 4096,
                i <= s.len(),
                forall|k: int| 0 <= k < i ==> !(p <= #[trigger] s[k] < end),
            decreases s.len() - i,
        {
            let x = self.pool.free[i];
            if p <= x && x < end {
                proof {
                    assert(s.contains(x));
                    assert(page_aligned(x as int));
                    assert(page_run(p as int, n as int).contains(x));
                    assert(self.free().contains(x));
                }
                return false;
            }
            i = i + 1;
        }
        proof {
            assert forall|x: u64| page_run(p as int, n as int).contains(x) implies !self.free().contains(x) by {
                if s.contains(x) {
                    let k = choose|k: int| 0 <= k < s.len() && s[k] == x;
                }
            }
        }
        true
    }

    /// Every free page is page aligned and lies in `[bottom, top)`.
    pub proof fn lemma_free_in_bounds(&self, x: u64)
        requires
            self.wf(),
            self.free().contains(x),
        ensures
            page_aligned(x as int),
            self.bottom() <= x < self.top(),
    {
        let s = self.pool.free_seq();
        assert(s.contains(x));
        let i = choose|i: int| 0 <= i < s.len() && s[i] == x;
        assert(page_aligned(s[i] as int));
    }

    /// Finitely many pages are free.
    pub proof fn lemma_free_finite(&self)
        ensures
            self.free().finite(),
    {
        vstd::seq_lib::seq_to_set_is_finite(self.pool.free_seq());
    }

    /// Create a new pool over `[bottom, top)` with every page free.
    pub fn new(bottom: u64, top: u64) -> (p: Self)
        requires
            page_aligned(bottom as int),
            page_aligned(top as int),
            bottom < top,
        ensures
            p.wf(),
            p.bottom() == bottom,
            p.top() == top,
            p.free() == page_run(bottom as int, (top - bottom) / 4096),
    {
        let pool = Pool::new(bottom, top, PAGE_SIZE);
        proof {
            lemma_run_seq_set(bottom as int, ((top - bottom) / 4096) as nat);
        }
        PagePool { pool }
    }

    /// Allocate the lowest free page. Fails with `OutOfPages` exactly when no
    /// page is free.
    pub fn palloc(&mut self) -> (r: Result<Page, VmError>)
        requires
            old(self).wf(),
        ensures
            final(self).wf(),
            final(self).bottom() == old(self).bottom(),
            final(self).top() == old(self).top(),
            match r {
                Ok(p) => {
                    &&& old(self).free().contains(p.addr)
                    &&& forall|x: u64| old(self).free().contains(x) ==> p.addr <= x
                    &&& final(self).free() == old(self).free().remove(p.addr)
                },
                Err(e) => {
                    &&& e == VmError::OutOfPages
                    &&& old(self).free() == Set::<u64>::empty()
                    &&& final(self).free() == old(self).free()
                },
            },
    {
        let ghost s = self.pool.free_seq();
        match self.pool.alloc_pages(1) {
            Err(_) => {
                proof {
                    assert forall|x: u64| !s.to_set().contains(x) by {
                        if s.contains(x) {
                            let j = choose|j: int| 0 <= j < s.len() && s[j] == x;
                            assert(run_at(s, j, 1));
                        }
                    }
                    assert(s.to_set() =~= Set::<u64>::empty());
                }
                Err(VmError::OutOfPages)
            },
            Ok(page) => {
                proof {
                    let i = choose|i: int|
                        {
                            &&& run_at(s, i, 1)
                            &&& no_run_before(s, i, 1)
                            &&& page.addr == s[i]
                            &&& self.pool.free_seq() == s.take(i) + s.skip(i + 1)
                        };
                    lemma_remove_run_set(s, i, 1);
                    assert(page_run(s[i] as int, 1) =~= set![page.addr]);
                    assert(s.to_set().difference(set![page.addr]) =~= s.to_set().remove(page.addr));
                    assert(s.contains(page.addr));
                    assert forall|x: u64| s.to_set().contains(x) implies page.addr <= x by {
                        assert(s.contains(x));
                        let j = choose|j: int| 0 <= j < s.len() && s[j] == x;
                        if j < i {
                            assert(run_at(s, j, 1));
                        }
                    }
                }
                Ok(page)
            },
        }
    }

    /// Free a page of physical memory by putting it back in the pool, in
    /// address order. The page must be a page of the pool that is not free.
    pub fn pfree(&mut self, page: Page) -> (r: Result<(), VmError>)
        requires
            old(self).wf(),
            page_aligned(page.addr as int),
            old(self).bottom() <= page.addr < old(self).top(),
            !old(self).free().contains(page.addr),
        ensures
            final(self).wf(),
            final(self).bottom() == old(self).bottom(),
            final(self).top() == old(self).top(),
            r is Ok,
            final(self).free() == old(self).free().insert(page.addr),
    {
        proof {
            assert(page_run(page.addr as int, 1).contains(page.addr));
            assert(page_run(page.addr as int, 1) =~= set![page.addr]);
        }
        self.pfree_plural(page.addr, 1)
    }

    /// Allocate the lowest run of `num_pages` contiguous free pages, returning
    /// the address of its first page.
    pub fn palloc_plural(&mut self, num_pages: usize) -> (r: Result<u64, VmError>)
        requires
            old(self).wf(),
            num_pages != 0,
        ensures
            final(self).wf(),
            final(self).bottom() == old(self).bottom(),
            final(self).top() == old(self).top(),
            match r {
                Ok(a) => {
                    &&& page_aligned(a as int)
                    &&& run_free(old(self).free(), a as int, num_pages as int)
                    &&& forall|b: int|
                        0 <= b < a && page_aligned(b) ==> !run_free(
                            old(self).free(),
                            b,
                            num_pages as int,
                        )
                    &&& final(self).free() == old(self).free().difference(
                        page_run(a as int, num_pages as int),
                    )
                },
                Err(e) => {
                    &&& e == VmError::OutOfPages
                    &&& forall|b: int|
                        0 <= b && page_aligned(b) ==> !run_free(old(self).free(), b, num_pages as int)
                    &&& final(self).free() == old(self).free()
                },
            },
    {
        let ghost s = self.pool.free_seq();
        match self.pool.alloc_pages(num_pages) {
            Err(_) => {
                proof {
                    assert forall|b: int|
                        0 <= b && page_aligned(b) implies !run_free(s.to_set(), b, num_pages as int) by {
                        if run_free(s.to_set(), b, num_pages as int) {
                            let j = lemma_run_free_has_index(s, b, num_pages as int);
                        }
                    }
                }
                Err(VmError::OutOfPages)
            },
            Ok(page) => {
                proof {
                    let i = choose|i: int|
                        {
                            &&& run_at(s, i, num_pages as int)
                            &&& no_run_before(s, i, num_pages as int)
                            &&& page.addr == s[i]
                            &&& self.pool.free_seq() == s.take(i) + s.skip(i + num_pages)
                        };
                    lemma_remove_run_set(s, i, num_pages as int);
                    lemma_run_subset(s, i, num_pages as int);
                    assert forall|b: int|
                        0 <= b < page.addr && page_aligned(b) implies !run_free(
                            s.to_set(),
                            b,
                            num_pages as int,
                        ) by {
                        if run_free(s.to_set(), b, num_pages as int) {
                            let j = lemma_run_free_has_index(s, b, num_pages as int);
                            if j >= i {
                                if j > i {
                                    assert(s[i] < s[j]);
                                }
                            }
                        }
                    }
                }
                Ok(page.addr)
            },
        }
    }

    /// Return the run of `num_pages` pages starting at `page` to the pool,
    /// in address order. The run must be pages of the pool none of which is
    /// free.
    pub fn pfree_plural(&mut self, page: u64, num_pages: usize) -> (r: Result<(), VmError>)
        requires
            old(self).wf(),
            num_pages != 0,
            page_aligned(page as int),
            old(self).bottom() <= page,
            page + num_pages * 4096 <= old(self).top(),
            page_run(page as int, num_pages as int).disjoint(old(self).free()),
        ensures
            final(self).wf(),
            final(self).bottom() == old(self).bottom(),
            final(self).top() == old(self).top(),
            r is Ok,
            final(self).free() == old(self).free().union(page_run(page as int, num_pages as int)),
    {
        let ghost s = self.pool.free_seq();
        proof {
            let run = page_run(page as int, num_pages as int);
            assert forall|i: int| 0 <= i < s.len() implies !(page <= #[trigger] s[i] < page
                + num_pages * 4096) by {
                assert(s.contains(s[i]));
                assert(s.to_set().contains(s[i]));
                assert(page_aligned(s[i] as int));
                if page <= s[i] < page + num_pages * 4096 {
                    assert(run.contains(s[i]));
                }
            }
        }
        let r = self.pool.free_pages(page, num_pages);
        proof {
            let run = page_run(page as int, num_pages as int);
            let in_range = self.pool.spec_bottom() <= page && page + num_pages * 4096
                <= self.pool.spec_top();
            assert(run.disjoint(s.to_set()) <==> forall|i: int|
                0 <= i < s.len() ==> !(page <= #[trigger] s[i] < page + num_pages * 4096)) by {
                if run.disjoint(s.to_set()) {
                    assert forall|i: int| 0 <= i < s.len() implies !(page <= #[trigger] s[i] < page
                        + num_pages * 4096) by {
                        assert(s.contains(s[i]));
                        assert(s.to_set().contains(s[i]));
                        assert(page_aligned(s[i] as int));
                    }
                }
                if forall|i: int| 0 <= i < s.len() ==> !(page <= #[trigger] s[i] < page + num_pages * 4096) {
                    assert forall|x: u64| run.contains(x) implies !s.to_set().contains(x) by {
                        if s.contains(x) {
                            let j = choose|j: int| 0 <= j < s.len() && s[j] == x;
                        }
                    }
                }
            }
            if r is Ok {
                let p = choose|p: int|
                    {
                        &&& 0 <= p <= s.len()
                        &&& forall|i: int| 0 <= i < p ==> #[trigger] s[i] < page
                        &&& forall|i: int|
                            p <= i < s.len() ==> #[trigger] s[i] >= page + num_pages * 4096
                        &&& self.pool.free_seq() == s.take(p) + run_seq(
                            page as int,
                            num_pages as nat,
                        ) + s.skip(p)
                    };
                lemma_insert_run_set(s, p, page as int, num_pages as nat);
            }
        }
        r
    }
}

/// A page taken by `palloc` can be given back with `pfree`, and giving it
/// back restores the pool.
pub proof fn law_pfree_undoes_palloc(before: &PagePool, after: &PagePool, page: u64)
    requires
        before.wf(),
        after.wf(),
        after.bottom() == before.bottom(),
        after.top() == before.top(),
        before.free().contains(page),
        after.free() == before.free().remove(page),
    ensures
        page_aligned(page as int),
        after.bottom() <= page < after.top(),
        !after.free().contains(page),
        after.free().insert(page) == before.free(),
{
    before.lemma_free_in_bounds(page);
    assert(after.free().insert(page) =~= before.free());
}

/// A run taken by `palloc_plural` can be given back with `pfree_plural`, and
/// giving it back restores the pool.
pub proof fn law_pfree_plural_undoes_palloc_plural(
    before: &PagePool,
    after: &PagePool,
    a: u64,
    n: int,
)
    requires
        before.wf(),
        after.wf(),
        after.bottom() == before.bottom(),
        after.top() == before.top(),
        1 <= n,
        page_aligned(a as int),
        run_free(before.free(), a as int, n),
        after.free() == before.free().difference(page_run(a as int, n)),
    ensures
        after.bottom() <= a,
        a + n * 4096 <= after.top(),
        page_run(a as int, n).disjoint(after.free()),
        after.free().union(page_run(a as int, n)) == before.free(),
{
    assert(page_run(a as int, n).contains(a));
    before.lemma_free_in_bounds(a);
    let last = (a + (n - 1) * 4096) as u64;
    assert(page_run(a as int, n).contains(last));
    before.lemma_free_in_bounds(last);
    assert(after.free().union(page_run(a as int, n)) =~= before.free());
}

} // verus!
