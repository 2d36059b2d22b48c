//! Kernel virtual memory allocator for sub-page allocations.
//!
//! The allocator is made of zones, one physical page each. A zone holds an
//! 8 byte zone header (the link to the next zone and the number of chunks in
//! use), then chunks that tile the rest of the page: each chunk is an 8 byte
//! header followed by its data. A header holds the chunk size in bits 0-11
//! and the in-use flag in bit 12. Allocations are rounded up to a multiple
//! of 8 bytes, and may be at most `MAX_CHUNK_SIZE` bytes.
use vstd::prelude::*;
use crate::vm::palloc::{PagePool, Page, page_aligned, page_run, law_pfree_undoes_palloc};
use crate::vm::ptable::pa_top;
use crate::vm::VmError;

verus! {

/// `PAGE_SIZE` less a zone header and a chunk header.
pub const MAX_CHUNK_SIZE: u64 = 4080;

/// Size of a chunk header.
pub const HEADER_SIZE: u64 = 8;

/// Size of a zone header.
pub const ZONE_SIZE: u64 = 8;

/// In-use flag of a chunk header.
pub const HEADER_USED: u64 = 0x1000;

/// Most chunks of a zone that can be in use.
pub const MAX_REFS: usize = 510;

/// Why an allocator operation failed.
#[derive(Copy, Clone, Debug, PartialEq, Eq, Structural)]
pub enum KallocError {
    MaxRefs,
    MinRefs,
    NullZone,
    OOM,
    Void,
}

/// A chunk header word: size in bits 0-11, in-use flag in bit 12.
#[derive(Copy, Clone, Debug, PartialEq, Eq, Structural)]
pub struct Header {
    pub fields: u64,
}

impl Header {
    /// Size of the chunk's data.
    pub open spec fn size(&self) -> u64 {
        self.fields & 0xFFF
    }

    /// The chunk is not in use.
    pub open spec fn free(&self) -> bool {
        self.fields & HEADER_USED == 0
    }

    /// Only size and flag bits are set.
    pub open spec fn clean(&self) -> bool {
        self.fields < 0x2000
    }

    /// A free chunk of `size` bytes.
    pub fn new(size: u64) -> (h: Self)
        requires
            size <= MAX_CHUNK_SIZE,
        ensures
            h.fields == size,
            h.size() == size,
            h.free(),
            h.clean(),
    {
        proof {
            assert(size & 0xFFF == size && size & 0x1000 == 0) by (bit_vector)
                requires
                    size <= 4080,
            ;
        }
        Header { fields: size }
    }

    pub fn chunk_size(&self) -> (r: u64)
        ensures
            r == self.size(),
            r <= 0xFFF,
    {
        proof {
            let f = self.fields;
            assert(f & 0xFFF <= 0xFFF) by (bit_vector);
        }
        self.fields & 0xFFF
    }

    pub fn is_free(&self) -> (r: bool)
        ensures
            r == self.free(),
    {
        self.fields & HEADER_USED == 0
    }

    /// Mark the chunk in use; its size stays.
    pub fn set_used(&mut self)
        requires
            old(self).clean(),
        ensures
            final(self).size() == old(self).size(),
            !final(self).free(),
            final(self).clean(),
    {
        let f = self.fields;
        proof {
            assert((f | 0x1000) & 0xFFF == f & 0xFFF && (f | 0x1000) & 0x1000 != 0 && (f | 0x1000)
                < 0x2000) by (bit_vector)
                requires
                    f < 0x2000,
            ;
        }
        self.fields = f | HEADER_USED;
    }

    /// Mark the chunk free; its size stays.
    pub fn set_unused(&mut self)
        requires
            old(self).clean(),
        ensures
            final(self).size() == old(self).size(),
            final(self).free(),
            final(self).clean(),
    {
        let f = self.fields;
        proof {
            assert((f & !0x1000u64) & 0xFFF == f & 0xFFF && (f & !0x1000u64) & 0x1000 == 0 && (f
                & !0x1000u64) < 0x2000) by (bit_vector)
                requires
                    f < 0x2000,
            ;
        }
        self.fields = f & !HEADER_USED;
    }

    /// Set the size; the flag stays.
    pub fn set_size(&mut self, size: u64)
        requires
            old(self).clean(),
            size <= 0xFFF,
        ensures
            final(self).size() == size,
            final(self).free() == old(self).free(),
            final(self).clean(),
    {
        let f = self.fields;
        proof {
            assert(((f & !0xFFFu64) | size) & 0xFFF == size && (((f & !0xFFFu64) | size) & 0x1000
                == 0) == (f & 0x1000 == 0) && ((f & !0xFFFu64) | size) < 0x2000) by (bit_vector)
                requires
                    f < 0x2000,
                    size <= 0xFFF,
            ;
        }
        self.fields = (f & !(0x1000 - 1)) | size;
    }
}

/// A chunk of a zone: where its header lies in the page, and the header.
#[derive(Copy, Clone, Debug, PartialEq, Eq, Structural)]
pub struct Chunk {
    pub offset: u64,
    pub head: Header,
}

/// Chunk `i + 1` starts right after chunk `i`.
pub open spec fn adjacent(s: Seq<Chunk>, i: int) -> bool {
    s[i + 1].offset == s[i].offset + HEADER_SIZE + s[i].head.size()
}

/// The chunks tile the page after the zone header, in order, with clean
/// headers and sizes that are multiples of 8.
pub open spec fn tiles(s: Seq<Chunk>) -> bool {
    &&& s.len() >= 1
    &&& s[0].offset == ZONE_SIZE
    &&& forall|i: int| 0 <= i < s.len() - 1 ==> #[trigger] adjacent(s, i)
    &&& s.last().offset + HEADER_SIZE + s.last().head.size() == 4096
    &&& forall|i: int|
        0 <= i < s.len() ==> (#[trigger] s[i]).head.clean() && s[i].head.size() % 8 == 0 && (
        !s[i].head.free() ==> s[i].head.size() >= 8)
}

/// Number of chunks in use.
pub open spec fn used_count(s: Seq<Chunk>) -> nat
    decreases s.len(),
{
    if s.len() == 0 {
        0
    } else {
        used_count(s.drop_last()) + if s.last().head.free() {
            0nat
        } else {
            1nat
        }
    }
}

/// The allocation at `a` of `size` bytes went to zone `z` of `after`, the
/// first zone with room: the zones before it have none (their free runs
/// merged); in `z` it took the first chunk that fit and its count of chunks
/// in use went up by one. When no zone had room, `z` is a new zone last in
/// line, on the lowest free page of the pool.
pub open spec fn zone_took(
    before: Kalloc,
    pool_before: PagePool,
    after: Kalloc,
    pool_after: PagePool,
    z: int,
    a: u64,
    size: u64,
) -> bool {
    let zs = after.spec_zones();
    &&& forall|y: int| 0 <= y < z ==> !zone_has_room(#[trigger] zs[y], size)
    &&& zs[z].spec_base() < a < zs[z].spec_base() + 4096
    &&& first_fit_chunk(zs[z].spec_base(), zs[z].spec_chunks(), a, size)
    &&& z < before.spec_zones().len() ==> {
        &&& split_rest(zs[z].spec_base(), before.spec_zones()[z].spec_chunks(), zs[z].spec_chunks(), a, size)
        &&& zs.len() == before.spec_zones().len()
        &&& zs[z].spec_refs() == before.spec_zones()[z].spec_refs() + 1
        &&& pool_after.free() == pool_before.free()
    }
    &&& z == before.spec_zones().len() ==> {
        &&& split_rest(
            zs[z].spec_base(),
            seq![Chunk { offset: ZONE_SIZE, head: Header { fields: MAX_CHUNK_SIZE } }],
            zs[z].spec_chunks(),
            a,
            size,
        )
        &&& zs.len() == z + 1
        &&& zs[z].spec_refs() == 1
        &&& pool_before.free().contains(zs[z].spec_base())
        &&& forall|x: u64| #[trigger] pool_before.free().contains(x) ==> zs[z].spec_base() <= x
        &&& pool_after.free() == pool_before.free().remove(zs[z].spec_base())
    }
}

/// Zone `after` is `before` with the chunk whose data is at `a`, chunk
/// `i`, free again: it keeps its place; when no chunk stays in use or no
/// free chunk follows it, its size and the other chunks are as they were,
/// else it absorbs the free chunk after it, header included.
pub open spec fn chunk_freed_at(before: Zone, after: Zone, a: u64, i: int) -> bool {
    let s0 = before.spec_chunks();
    let s1 = after.spec_chunks();
    let merged = after.spec_refs() != 0 && i + 1 < s0.len() && s0[i + 1].head.free();
    &&& 0 <= i < s0.len()
    &&& before.spec_base() + s0[i].offset + HEADER_SIZE == a
    &&& !s0[i].head.free()
    &&& i < s1.len()
    &&& s1[i].offset == s0[i].offset
    &&& s1[i].head.free()
    &&& forall|k: int| 0 <= k < i ==> #[trigger] s1[k] == s0[k]
    &&& !merged ==> {
        &&& s1.len() == s0.len()
        &&& s1[i].head.size() == s0[i].head.size()
        &&& forall|k: int| i < k < s0.len() ==> #[trigger] s1[k] == s0[k]
    }
    &&& merged ==> {
        &&& s1.len() == s0.len() - 1
        &&& s1[i].head.size() == s0[i].head.size() + HEADER_SIZE + s0[i + 1].head.size()
        &&& forall|k: int| i < k < s1.len() ==> #[trigger] s1[k] == s0[k + 1]
    }
}

/// The chunk whose data is at `a` was freed: `chunk_freed_at` for some
/// chunk.
pub open spec fn chunk_freed(before: Zone, after: Zone, a: u64) -> bool {
    exists|i: int| #[trigger] chunk_freed_at(before, after, a, i)
}

/// Some free chunk of the zone holds `size` bytes.
pub open spec fn zone_has_room(z: Zone, size: u64) -> bool {
    exists|k: int|
        0 <= k < z.spec_chunks().len() && (#[trigger] z.spec_chunks()[k]).head.free()
            && z.spec_chunks()[k].head.size() >= size
}

/// Address `a` is the data of the chunk of `s` that first fit `size`
/// bytes, now in use and of exactly that size: every free chunk before it
/// is smaller.
pub open spec fn first_fit_chunk(base: u64, s: Seq<Chunk>, a: u64, size: u64) -> bool {
    exists|i: int|
        0 <= i < s.len() && base + (#[trigger] s[i]).offset + HEADER_SIZE == a && !s[i].head.free()
            && s[i].head.size() == size && forall|k: int|
            0 <= k < i && (#[trigger] s[k]).head.free() ==> s[k].head.size() < size
}

/// Where the chunk `i` of `s` ends: its offset, header and data.
pub open spec fn chunk_end(s: Seq<Chunk>, i: int) -> int {
    s[i].offset + HEADER_SIZE + s[i].head.size()
}

/// Chunk `i` of `s2`, whose data is at `a`, took `size` bytes, and what
/// follows it is the end of `s0`, the zone before: its last `n` chunks
/// unchanged, preceded, when the chunk was larger than `size`, by one free
/// chunk holding the rest up to them (or up to the end of the page).
pub open spec fn rest_kept(base: u64, s0: Seq<Chunk>, s2: Seq<Chunk>, a: u64, size: u64, i: int, n: int) -> bool {
    let next = if n > 0 {
        s0[s0.len() - n].offset as int
    } else {
        4096
    };
    &&& 0 <= i < s2.len()
    &&& 0 <= n <= s0.len()
    &&& base + s2[i].offset + HEADER_SIZE == a
    &&& s2.skip(s2.len() - n) == s0.skip(s0.len() - n)
    &&& s2.len() - n == i + 1 ==> s2[i].offset + HEADER_SIZE + size == next
    &&& s2.len() - n == i + 2 ==> {
        &&& s2[i + 1].offset == s2[i].offset + HEADER_SIZE + size
        &&& s2[i + 1].head.free()
        &&& chunk_end(s2, i + 1) == next
    }
    &&& s2.len() - n == i + 1 || s2.len() - n == i + 2
}

/// The allocation at `a` split its chunk as `rest_kept` says.
pub open spec fn split_rest(base: u64, s0: Seq<Chunk>, s2: Seq<Chunk>, a: u64, size: u64) -> bool {
    exists|i: int, n: int| #[trigger] rest_kept(base, s0, s2, a, size, i, n)
}

/// The allocations a zone at `base` holds: data address and size of each
/// chunk in use.
pub open spec fn live_of(base: u64, s: Seq<Chunk>) -> Set<(u64, u64)> {
    Set::new(
        |p: (u64, u64)|
            exists|i: int|
                0 <= i < s.len() && !(#[trigger] s[i]).head.free() && p == (
                    (base + s[i].offset + HEADER_SIZE) as u64,
                    s[i].head.size(),
                ),
    )
}

proof fn lemma_offsets_increase(s: Seq<Chunk>, i: int, j: int)
    requires
        tiles(s),
        0 <= i < j < s.len(),
    ensures
        s[i].offset + HEADER_SIZE + s[i].head.size() <= s[j].offset,
        s[j].offset >= s[i].offset + 8 * (j - i),
        s[j].offset >= s[i].offset + HEADER_SIZE + s[i].head.size() + 8 * (j - i - 1),
    decreases j - i,
{
    assert(adjacent(s, j - 1));
    if i < j - 1 {
        lemma_offsets_increase(s, i, j - 1);
    }
}

/// Every chunk lies inside the page.
proof fn lemma_chunk_in_page(s: Seq<Chunk>, i: int)
    requires
        tiles(s),
        0 <= i < s.len(),
    ensures
        8 <= s[i].offset,
        s[i].offset + HEADER_SIZE + s[i].head.size() <= 4096,
        s[i].offset >= 8 + 8 * i,
{
    if i > 0 {
        lemma_offsets_increase(s, 0, i);
    }
    if i < s.len() - 1 {
        lemma_offsets_increase(s, i, s.len() - 1);
    }
}

proof fn lemma_used_count_bound(s: Seq<Chunk>, i: int)
    requires
        0 <= i < s.len(),
        s[i].head.free(),
    ensures
        used_count(s) < s.len(),
    decreases s.len(),
{
    if i < s.len() - 1 {
        lemma_used_count_bound(s.drop_last(), i);
    } else {
        lemma_used_count_le(s.drop_last());
    }
}

proof fn lemma_used_count_le(s: Seq<Chunk>)
    ensures
        used_count(s) <= s.len(),
    decreases s.len(),
{
    if s.len() > 0 {
        lemma_used_count_le(s.drop_last());
    }
}

proof fn lemma_used_count_update(s: Seq<Chunk>, i: int, c: Chunk)
    requires
        0 <= i < s.len(),
    ensures
        used_count(s.update(i, c)) + (if s[i].head.free() {
            0int
        } else {
            1int
        }) == used_count(s) + (if c.head.free() {
            0int
        } else {
            1int
        }),
    decreases s.len(),
{
    if i < s.len() - 1 {
        assert(s.update(i, c).drop_last() =~= s.drop_last().update(i, c));
        lemma_used_count_update(s.drop_last(), i, c);
    } else {
        assert(s.update(i, c).drop_last() =~= s.drop_last());
    }
}

proof fn lemma_used_count_remove(s: Seq<Chunk>, i: int)
    requires
        0 <= i < s.len(),
        s[i].head.free(),
    ensures
        used_count(s.remove(i)) == used_count(s),
    decreases s.len(),
{
    if i < s.len() - 1 {
        assert(s.remove(i).drop_last() =~= s.drop_last().remove(i));
        lemma_used_count_remove(s.drop_last(), i);
    } else {
        assert(s.remove(i) =~= s.drop_last());
    }
}

proof fn lemma_used_count_insert(s: Seq<Chunk>, i: int, c: Chunk)
    requires
        0 <= i <= s.len(),
        c.head.free(),
    ensures
        used_count(s.insert(i, c)) == used_count(s),
    decreases s.len(),
{
    if i < s.len() {
        assert(s.insert(i, c).drop_last() =~= s.drop_last().insert(i, c));
        lemma_used_count_insert(s.drop_last(), i, c);
    } else {
        assert(s.insert(i, c).drop_last() =~= s);
    }
}

/// One page of the allocator: its address, the number of chunks in use, and
/// its chunks in address order.
pub struct Zone {
    base: u64,
    refs: usize,
    chunks: Vec<Chunk>,
}

impl Zone {
    pub closed spec fn spec_base(&self) -> u64 {
        self.base
    }

    pub closed spec fn spec_refs(&self) -> usize {
        self.refs
    }

    pub closed spec fn spec_chunks(&self) -> Seq<Chunk> {
        self.chunks@
    }

    /// Allocations held in the zone.
    pub closed spec fn live(&self) -> Set<(u64, u64)> {
        live_of(self.base, self.chunks@)
    }

    /// The chunks tile the page and `refs` counts those in use.
    pub closed spec fn wf(&self) -> bool {
        &&& page_aligned(self.base as int)
        &&& self.base + 4096 <= u64::MAX
        &&& tiles(self.chunks@)
        &&& self.refs == used_count(self.chunks@)
    }

    /// A zone over the page at `base` holding one free chunk of
    /// `MAX_CHUNK_SIZE` bytes.
    pub fn new(base: u64) -> (z: Self)
        requires
            page_aligned(base as int),
            base + 4096 <= u64::MAX,
        ensures
            z.wf(),
            z.spec_base() == base,
            z.spec_refs() == 0,
            z.live() == Set::<(u64, u64)>::empty(),
            z.spec_chunks() == seq![Chunk { offset: ZONE_SIZE, head: Header { fields: MAX_CHUNK_SIZE } }],
    {
        let mut chunks: Vec<Chunk> = Vec::new();
        chunks.push(Chunk { offset: ZONE_SIZE, head: Header::new(MAX_CHUNK_SIZE) });
        let z = Zone { base, refs: 0, chunks };
        proof {
            assert(used_count(z.chunks@.drop_last()) == 0);
            assert(z.live() =~= Set::<(u64, u64)>::empty());
        }
        z
    }

    /// Address of the zone's page.
    pub fn base_addr(&self) -> (r: u64)
        ensures
            r == self.spec_base(),
    {
        self.base
    }

    /// Number of chunks, in address order.
    pub fn num_chunks(&self) -> (r: usize)
        ensures
            r == self.spec_chunks().len(),
    {
        self.chunks.len()
    }

    /// Chunk `i`.
    pub fn chunk(&self, i: usize) -> (c: Chunk)
        requires
            i < self.spec_chunks().len(),
        ensures
            c == self.spec_chunks()[i as int],
    {
        self.chunks[i]
    }

    /// Number of chunks in use.
    pub fn get_refs(&self) -> (r: usize)
        ensures
            r == self.spec_refs(),
    {
        self.refs
    }

    /// Count one more chunk in use; refused with `MaxRefs` past `MAX_REFS`.
    fn increment_refs(&mut self) -> (r: Result<(), KallocError>)
        ensures
            final(self).base == old(self).base,
            final(self).chunks@ == old(self).chunks@,
            old(self).refs + 1 > MAX_REFS ==> r == Err::<(), KallocError>(KallocError::MaxRefs)
                && final(self).refs == old(self).refs,
            old(self).refs + 1 <= MAX_REFS ==> r is Ok && final(self).refs == old(self).refs + 1,
    {
        if self.refs >= MAX_REFS {
            Err(KallocError::MaxRefs)
        } else {
            self.refs = self.refs + 1;
            Ok(())
        }
    }

    /// Count one chunk fewer in use, giving the new count; refused with
    /// `MinRefs` when none is in use.
    fn decrement_refs(&mut self) -> (r: Result<usize, KallocError>)
        ensures
            final(self).base == old(self).base,
            final(self).chunks@ == old(self).chunks@,
            old(self).refs == 0 ==> r == Err::<usize, KallocError>(KallocError::MinRefs)
                && final(self).refs == 0,
            old(self).refs > 0 ==> r == Ok::<usize, KallocError>((old(self).refs - 1) as usize)
                && final(self).refs == old(self).refs - 1,
    {
        if self.refs == 0 {
            Err(KallocError::MinRefs)
        } else {
            self.refs = self.refs - 1;
            Ok(self.refs)
        }
    }

    /// The data address of chunk `i`.
    pub closed spec fn data_addr(&self, i: int) -> u64 {
        (self.base + self.chunks@[i].offset + HEADER_SIZE) as u64
    }

    /// No allocation of the zone starts at `a`.
    pub open spec fn not_live_at(&self, a: u64) -> bool {
        forall|sz: u64| !self.live().contains((a, sz))
    }

    proof fn lemma_distinct_addrs(&self, i: int, j: int)
        requires
            self.wf(),
            0 <= i < self.chunks@.len(),
            0 <= j < self.chunks@.len(),
            i != j,
        ensures
            self.data_addr(i) != self.data_addr(j),
    {
        lemma_chunk_in_page(self.chunks@, i);
        lemma_chunk_in_page(self.chunks@, j);
        if i < j {
            lemma_offsets_increase(self.chunks@, i, j);
        } else {
            lemma_offsets_increase(self.chunks@, j, i);
        }
    }

    /// Put the free chunk `i`, of at least `size` bytes, in use with exactly
    /// `size` bytes; what is left becomes a free chunk right after it. Gives
    /// the data address.
    #[verifier::rlimit(50)]
    fn alloc_chunk(&mut self, i: usize, size: u64) -> (a: u64)
        requires
            old(self).wf(),
            i < old(self).chunks@.len(),
            old(self).chunks@[i as int].head.free(),
            old(self).chunks@[i as int].head.size() >= size,
            8 <= size <= MAX_CHUNK_SIZE,
            size % 8 == 0,
        ensures
            final(self).wf(),
            final(self).base == old(self).base,
            a == old(self).data_addr(i as int),
            old(self).not_live_at(a),
            final(self).live() == old(self).live().insert((a, size)),
            final(self).refs == old(self).refs + 1,
            i < final(self).chunks@.len(),
            final(self).chunks@[i as int].offset == old(self).chunks@[i as int].offset,
            !final(self).chunks@[i as int].head.free(),
            final(self).chunks@[i as int].head.size() == size,
            forall|k: int| 0 <= k < i ==> final(self).chunks@[k] == old(self).chunks@[k],
            old(self).chunks@[i as int].head.size() == size ==> {
                &&& final(self).chunks@.len() == old(self).chunks@.len()
                &&& final(self).chunks@.skip(i + 1) == old(self).chunks@.skip(i + 1)
            },
            old(self).chunks@[i as int].head.size() != size ==> {
                &&& final(self).chunks@.len() == old(self).chunks@.len() + 1
                &&& final(self).chunks@.skip(i + 2) == old(self).chunks@.skip(i + 1)
                &&& final(self).chunks@[i + 1].offset == old(self).chunks@[i as int].offset + HEADER_SIZE + size
                &&& final(self).chunks@[i + 1].head.free()
                &&& final(self).chunks@[i + 1].head.size() == old(self).chunks@[i as int].head.size() - size - HEADER_SIZE
            },
    {
        let ghost s0 = self.chunks@;
        proof {
            lemma_used_count_bound(s0, i as int);
            lemma_chunk_in_page(s0, s0.len() - 1);
            if (i as int) < s0.len() - 1 {
                lemma_offsets_increase(s0, i as int, s0.len() - 1);
            }
            lemma_chunk_in_page(s0, i as int);
            assert forall|sz: u64| !self.live().contains((self.data_addr(i as int), sz)) by {
                if self.live().contains((self.data_addr(i as int), sz)) {
                    let k = choose|k: int|
                        0 <= k < s0.len() && !(#[trigger] s0[k]).head.free() && (
                        self.data_addr(i as int),
                        sz,
                    ) == ((self.base + s0[k].offset + HEADER_SIZE) as u64, s0[k].head.size());
                    self.lemma_distinct_addrs(i as int, k);
                }
            }
        }
        proof {
            assert(self.refs + 1 <= MAX_REFS);
        }
        let _ = self.increment_refs();
        let mut c = self.chunks[i];
        let old_size = c.head.chunk_size();
        c.head.set_used();
        let a = self.base + c.offset + HEADER_SIZE;
        if size != old_size {
            proof {
                assert(old_size - size >= 8) by (nonlinear_arith)
                    requires
                        old_size % 8 == 0,
                        size % 8 == 0,
                        old_size > size,
                ;
            }
            c.head.set_size(size);
            self.chunks.set(i, c);
            let rest = Chunk { offset: c.offset + HEADER_SIZE + size, head: Header::new(old_size - size - HEADER_SIZE) };
            let ghost s1 = self.chunks@;
            self.chunks.insert(i + 1, rest);
            proof {
                let s2 = self.chunks@;
                lemma_used_count_update(s0, i as int, c);
                lemma_used_count_insert(s1, i + 1, rest);
                assert(s1 == s0.update(i as int, c));
                assert(s2 == s1.insert(i + 1, rest));
                assert((old_size - size - 8) % 8 == 0) by (nonlinear_arith)
                    requires
                        old_size % 8 == 0,
                        size % 8 == 0,
                        old_size - size >= 8,
                ;
                assert forall|k: int| 0 <= k < s2.len() - 1 implies #[trigger] adjacent(s2, k) by {
                    if k < i {
                        assert(adjacent(s0, k));
                    } else if k > i + 1 {
                        assert(adjacent(s0, k - 1));
                    } else if k == i + 1 {
                        assert(adjacent(s0, i as int));
                    }
                }
                assert forall|k: int| 0 <= k < s2.len() implies (#[trigger] s2[k]).head.clean()
                    && s2[k].head.size() % 8 == 0 && (!s2[k].head.free() ==> s2[k].head.size() >= 8) by {
                    if k < i {
                        assert(s2[k] == s0[k]);
                    } else if k > i + 1 {
                        assert(s2[k] == s0[k - 1]);
                    }
                }
                if (i as int) == s0.len() - 1 {
                    assert(s2.last() == rest);
                } else {
                    assert(s2.last() == s0.last());
                }
                assert(s2.skip(i + 2) =~= s0.skip(i + 1));
                assert(self.live() =~= old(self).live().insert((a, size))) by {
                    assert forall|p: (u64, u64)| self.live().contains(p) implies old(self).live().insert(
                        (a, size),
                    ).contains(p) by {
                        let k = choose|k: int|
                            0 <= k < s2.len() && !(#[trigger] s2[k]).head.free() && p == (
                                (self.base + s2[k].offset + HEADER_SIZE) as u64,
                                s2[k].head.size(),
                            );
                        if k < i {
                            assert(s0[k] == s2[k]);
                        } else if k > i + 1 {
                            assert(s0[k - 1] == s2[k]);
                        }
                    }
                    assert forall|p: (u64, u64)| old(self).live().insert((a, size)).contains(
                        p,
                    ) implies self.live().contains(p) by {
                        if p == (a, size) {
                            assert(s2[i as int] == c);
                        } else {
                            let k = choose|k: int|
                                0 <= k < s0.len() && !(#[trigger] s0[k]).head.free() && p == (
                                    (self.base + s0[k].offset + HEADER_SIZE) as u64,
                                    s0[k].head.size(),
                                );
                            if k < i {
                                assert(s2[k] == s0[k]);
                            } else {
                                assert(s2[k + 1] == s0[k]);
                            }
                        }
                    }
                }
            }
        } else {
            self.chunks.set(i, c);
            proof {
                let s2 = self.chunks@;
                assert(s2.skip(i + 1) =~= s0.skip(i + 1));
                lemma_used_count_update(s0, i as int, c);
                assert forall|k: int| 0 <= k < s2.len() - 1 implies #[trigger] adjacent(s2, k) by {
                    assert(adjacent(s0, k));
                }
                assert forall|k: int| 0 <= k < s2.len() implies (#[trigger] s2[k]).head.clean()
                    && s2[k].head.size() % 8 == 0 && (!s2[k].head.free() ==> s2[k].head.size() >= 8) by {
                    if k != i {
                        assert(s2[k] == s0[k]);
                    }
                }
                assert(self.live() =~= old(self).live().insert((a, size))) by {
                    assert forall|p: (u64, u64)| self.live().contains(p) implies old(self).live().insert(
                        (a, size),
                    ).contains(p) by {
                        let k = choose|k: int|
                            0 <= k < s2.len() && !(#[trigger] s2[k]).head.free() && p == (
                                (self.base + s2[k].offset + HEADER_SIZE) as u64,
                                s2[k].head.size(),
                            );
                        if k != i {
                            assert(s0[k] == s2[k]);
                        }
                    }
                    assert forall|p: (u64, u64)| old(self).live().insert((a, size)).contains(
                        p,
                    ) implies self.live().contains(p) by {
                        if p == (a, size) {
                            assert(s2[i as int] == c);
                        } else {
                            let k = choose|k: int|
                                0 <= k < s0.len() && !(#[trigger] s0[k]).head.free() && p == (
                                    (self.base + s0[k].offset + HEADER_SIZE) as u64,
                                    s0[k].head.size(),
                                );
                            assert(s2[k] == s0[k]);
                        }
                    }
                }
            }
        }
        proof {
            assert(a == old(self).data_addr(i as int));
            assert forall|sz: u64| !old(self).live().contains((a, sz)) by {
                assert(!old(self).live().contains((old(self).data_addr(i as int), sz)));
            }
        }
        a
    }

    /// Merge the free chunk `i + 1` into the free chunk `i`.
    #[verifier::rlimit(30)]
    fn merge_next(&mut self, i: usize)
        requires
            old(self).wf(),
            i + 1 < old(self).chunks@.len(),
            old(self).chunks@[i as int].head.free(),
            old(self).chunks@[i + 1].head.free(),
        ensures
            final(self).wf(),
            final(self).base == old(self).base,
            final(self).refs == old(self).refs,
            final(self).live() == old(self).live(),
            final(self).chunks@.len() == old(self).chunks@.len() - 1,
            forall|k: int| 0 <= k < i ==> final(self).chunks@[k] == old(self).chunks@[k],
            final(self).chunks@[i as int].head.free(),
            final(self).chunks@[i as int].head.size() == old(self).chunks@[i as int].head.size()
                + HEADER_SIZE + old(self).chunks@[i + 1].head.size(),
            final(self).chunks@[i as int].offset == old(self).chunks@[i as int].offset,
            forall|k: int|
                i < k < final(self).chunks@.len() ==> final(self).chunks@[k] == old(self).chunks@[k + 1],
    {
        let ghost s0 = self.chunks@;
        proof {
            assert(adjacent(s0, i as int));
            lemma_chunk_in_page(s0, i as int);
            lemma_chunk_in_page(s0, i + 1);
        }
        let next = self.chunks[i + 1];
        let mut c = self.chunks[i];
        let merged = c.head.chunk_size() + HEADER_SIZE + next.head.chunk_size();
        c.head.set_size(merged);
        self.chunks.set(i, c);
        let ghost s1 = self.chunks@;
        let _ = self.chunks.remove(i + 1);
        proof {
            let s2 = self.chunks@;
            lemma_used_count_update(s0, i as int, c);
            lemma_used_count_remove(s1, i + 1);
            assert(s2 == s1.remove(i + 1));
            assert forall|k: int| 0 <= k < s2.len() - 1 implies #[trigger] adjacent(s2, k) by {
                if k < i {
                    assert(adjacent(s0, k));
                } else if k > i {
                    assert(adjacent(s0, k + 1));
                } else {
                    assert(adjacent(s0, i + 1));
                }
            }
            assert forall|k: int| 0 <= k < s2.len() implies (#[trigger] s2[k]).head.clean()
                && s2[k].head.size() % 8 == 0 && (!s2[k].head.free() ==> s2[k].head.size() >= 8) by {
                if k < i {
                    assert(s2[k] == s0[k]);
                } else if k > i {
                    assert(s2[k] == s0[k + 1]);
                }
            }
            if i + 1 == s0.len() - 1 {
                assert(s2.last() == c);
            } else {
                assert(s2.last() == s0.last());
            }
            assert(self.live() =~= old(self).live()) by {
                assert forall|p: (u64, u64)| self.live().contains(p) implies old(self).live().contains(p) by {
                    let k = choose|k: int|
                        0 <= k < s2.len() && !(#[trigger] s2[k]).head.free() && p == (
                            (self.base + s2[k].offset + HEADER_SIZE) as u64,
                            s2[k].head.size(),
                        );
                    if k < i {
                        assert(s0[k] == s2[k]);
                    } else {
                        assert(s0[k + 1] == s2[k]);
                    }
                }
                assert forall|p: (u64, u64)| old(self).live().contains(p) implies self.live().contains(p) by {
                    let k = choose|k: int|
                        0 <= k < s0.len() && !(#[trigger] s0[k]).head.free() && p == (
                            (self.base + s0[k].offset + HEADER_SIZE) as u64,
                            s0[k].head.size(),
                        );
                    if k < i {
                        assert(s2[k] == s0[k]);
                    } else {
                        assert(s2[k - 1] == s0[k]);
                    }
                }
            }
        }
    }

    /// First fit: take the first free chunk of at least `size` bytes,
    /// merging runs of free chunks met on the way. Gives the data address of
    /// the allocation, or `None` when no free chunk is large enough.
    pub fn scan(&mut self, size: u64) -> (r: Option<u64>)
        requires
            old(self).wf(),
            8 <= size <= MAX_CHUNK_SIZE,
            size % 8 == 0,
        ensures
            final(self).wf(),
            final(self).spec_base() == old(self).spec_base(),
            r matches Some(a) ==> {
                &&& old(self).not_live_at(a)
                &&& final(self).live() == old(self).live().insert((a, size))
                &&& old(self).spec_base() < a < old(self).spec_base() + 4096
                &&& final(self).spec_refs() == old(self).spec_refs() + 1
                &&& first_fit_chunk(final(self).spec_base(), final(self).spec_chunks(), a, size)
                &&& split_rest(final(self).spec_base(), old(self).spec_chunks(), final(self).spec_chunks(), a, size)
            },
            r is None ==> final(self).spec_refs() == old(self).spec_refs(),
            r is None ==> final(self).live() == old(self).live() && forall|k: int|
                0 <= k < final(self).spec_chunks().len() && (#[trigger] final(self).spec_chunks()[k]).head.free()
                    ==> final(self).spec_chunks()[k].head.size() < size,
    {
        let ghost s0 = self.chunks@;
        let mut i: usize = 0;
        while i < self.chunks.len()
            invariant
                s0 == old(self).chunks@,
                self.chunks@.len() <= s0.len(),
                i < self.chunks@.len() ==> self.chunks@.skip(i + 1) == s0.skip(
                    s0.len() - (self.chunks@.len() - i - 1),
                ),
                self.wf(),
                self.base == old(self).base,
                self.refs == old(self).refs,
                self.live() == old(self).live(),
                8 <= size <= MAX_CHUNK_SIZE,
                size % 8 == 0,
                i <= self.chunks@.len(),
                forall|k: int|
                    0 <= k < i && (#[trigger] self.chunks@[k]).head.free() ==> self.chunks@[k].head.size()
                        < size,
            decreases 2 * self.chunks@.len() - i,
        {
            let c = self.chunks[i];
            if c.head.chunk_size() < size || !c.head.is_free() {
                let ghost sb = self.chunks@;
                if c.head.is_free() && i + 1 < self.chunks.len() && self.chunks[i + 1].head.is_free() {
                    self.merge_next(i);
                    proof {
                        let m = sb.len() - i - 1;
                        assert(self.chunks@.skip(i + 1) =~= sb.skip(i + 1).skip(1));
                        assert(s0.skip(s0.len() - m).skip(1) =~= s0.skip(s0.len() - (m - 1)));
                    }
                } else {
                    i = i + 1;
                    proof {
                        if i < self.chunks@.len() {
                            let m = sb.len() - i;
                            assert(self.chunks@.skip(i + 1) =~= sb.skip(i as int).skip(1));
                            assert(s0.skip(s0.len() - m).skip(1) =~= s0.skip(s0.len() - (m - 1)));
                        }
                    }
                }
            } else {
                proof {
                    lemma_chunk_in_page(self.chunks@, i as int);
                }
                let ghost s1 = self.chunks@;
                let a = self.alloc_chunk(i, size);
                proof {
                    assert forall|k: int|
                        0 <= k < i && (#[trigger] self.chunks@[k]).head.free() implies self.chunks@[k].head.size()
                            < size by {
                        assert(self.chunks@[k] == s1[k]);
                    }
                    assert(first_fit_chunk(self.base, self.chunks@, a, size));
                    let s2 = self.chunks@;
                    let n = s1.len() - i - 1;
                    let ii = i as int;
                    if n > 0 {
                        assert(adjacent(s1, ii));
                        assert(s1.skip(ii + 1)[0] == s1[ii + 1]);
                        assert(s0.skip(s0.len() - n)[0] == s0[s0.len() - n]);
                    }
                    if s1[ii].head.size() != size {
                        assert(s2.skip(s2.len() - n) == s1.skip(ii + 1));
                    } else {
                        assert(s2.skip(s2.len() - n) == s1.skip(ii + 1));
                    }
                    assert(rest_kept(self.base, s0, s2, a, size, ii, n));
                }
                return Some(a);
            }
        }
        None
    }

    /// Give back the allocation at data address `a`. When chunks stay in use,
    /// the freed chunk absorbs the chunk after it if that one is free. Gives
    /// the number of chunks still in use.
    #[verifier::rlimit(30)]
    pub fn free_chunk(&mut self, a: u64) -> (refs: usize)
        requires
            old(self).wf(),
            exists|sz: u64| old(self).live().contains((a, sz)),
        ensures
            final(self).wf(),
            final(self).spec_base() == old(self).spec_base(),
            refs == final(self).spec_refs(),
            refs == old(self).spec_refs() - 1,
            forall|p: (u64, u64)|
                #[trigger] final(self).live().contains(p) <==> old(self).live().contains(p) && p.0
                    != a,
            chunk_freed(*old(self), *final(self), a),
    {
        let ghost s0 = self.chunks@;
        let ghost sz = choose|sz: u64| old(self).live().contains((a, sz));
        let ghost i0 = choose|k: int|
            0 <= k < s0.len() && !(#[trigger] s0[k]).head.free() && (a, sz) == (
                (self.base + s0[k].offset + HEADER_SIZE) as u64,
                s0[k].head.size(),
            );
        let mut i: usize = 0;
        while i < self.chunks.len()
            invariant
                self.chunks@ == s0,
                *self == *old(self),
                self.wf(),
                0 <= i0 < s0.len(),
                a == self.data_addr(i0),
                i <= i0,
            ensures
                i == i0,
            decreases s0.len() - i,
        {
            proof {
                lemma_chunk_in_page(s0, i as int);
                if i as int != i0 {
                    self.lemma_distinct_addrs(i as int, i0);
                }
            }
            if self.base + self.chunks[i].offset + HEADER_SIZE == a {
                break;
            }
            i = i + 1;
        }
        let mut c = self.chunks[i];
        c.head.set_unused();
        self.chunks.set(i, c);
        let ghost s1 = self.chunks@;
        proof {
            lemma_used_count_update(s0, i as int, c);
        }
        let count = match self.decrement_refs() {
            Ok(n) => n,
            Err(_) => 0,
        };
        proof {
            lemma_used_count_update(s0, i as int, c);
            lemma_used_count_le(s0);
            assert forall|k: int| 0 <= k < s1.len() - 1 implies #[trigger] adjacent(s1, k) by {
                assert(adjacent(s0, k));
            }
            assert forall|k: int| 0 <= k < s1.len() implies (#[trigger] s1[k]).head.clean()
                && s1[k].head.size() % 8 == 0 && (!s1[k].head.free() ==> s1[k].head.size() >= 8) by {
                if k != i {
                    assert(s1[k] == s0[k]);
                }
            }
            assert forall|p: (u64, u64)|
                #[trigger] self.live().contains(p) <==> old(self).live().contains(p) && p.0 != a by {
                if self.live().contains(p) {
                    let k = choose|k: int|
                        0 <= k < s1.len() && !(#[trigger] s1[k]).head.free() && p == (
                            (self.base + s1[k].offset + HEADER_SIZE) as u64,
                            s1[k].head.size(),
                        );
                    assert(k != i);
                    assert(s0[k] == s1[k]);
                    self.lemma_distinct_addrs(i as int, k);
                }
                if old(self).live().contains(p) && p.0 != a {
                    let k = choose|k: int|
                        0 <= k < s0.len() && !(#[trigger] s0[k]).head.free() && p == (
                            (self.base + s0[k].offset + HEADER_SIZE) as u64,
                            s0[k].head.size(),
                        );
                    assert(k != i);
                    assert(s1[k] == s0[k]);
                }
            }
        }
        let n = self.chunks.len();
        if count != 0 && i < n - 1 && self.chunks[i + 1].head.is_free() {
            self.merge_next(i);
            proof {
                assert(s1[i as int + 1] == s0[i as int + 1]);
            }
        }
        proof {
            let ii = i as int;
            let s2 = self.chunks@;
            assert(s0 == old(self).spec_chunks());
            assert(s2 == self.spec_chunks());
            lemma_chunk_in_page(s0, ii);
            assert(ii == i0);
            assert(old(self).spec_base() + s0[ii].offset + HEADER_SIZE == a);
            assert(!s0[ii].head.free());
            assert(ii < s2.len());
            assert(s2[ii].offset == s0[ii].offset);
            assert(s2[ii].head.free());
            assert(forall|k: int| 0 <= k < ii ==> #[trigger] s2[k] == s0[k]);
            assert(chunk_freed_at(*old(self), *self, a, ii));
        }
        count
    }

    /// Allocations lie inside the zone page, after the zone header.
    #[verifier::spinoff_prover]
    #[verifier::rlimit(30)]
    pub proof fn lemma_live_in_page(&self, p: (u64, u64))
        requires
            self.wf(),
            self.live().contains(p),
        ensures
            self.spec_base() + 16 <= p.0,
            p.0 + p.1 <= self.spec_base() + 4096,
            p.1 >= 8,
            p.0 % 8 == 0,
    {
        let s = self.chunks@;
        let k = choose|k: int|
            0 <= k < s.len() && !(#[trigger] s[k]).head.free() && p == (
                (self.base + s[k].offset + HEADER_SIZE) as u64,
                s[k].head.size(),
            );
        lemma_chunk_in_page(s, k);
        if k > 0 {
            assert(adjacent(s, k - 1));
            lemma_chunk_in_page(s, k - 1);
        }
        lemma_offset_aligned(s, k);
    }

    /// Two allocations of a zone never overlap.
    pub proof fn lemma_zone_disjoint(&self, p: (u64, u64), q: (u64, u64))
        requires
            self.wf(),
            self.live().contains(p),
            self.live().contains(q),
            p != q,
        ensures
            p.0 + p.1 <= q.0 || q.0 + q.1 <= p.0,
    {
        let s = self.chunks@;
        let i = choose|i: int|
            0 <= i < s.len() && !(#[trigger] s[i]).head.free() && p == (
                (self.base + s[i].offset + HEADER_SIZE) as u64,
                s[i].head.size(),
            );
        let j = choose|j: int|
            0 <= j < s.len() && !(#[trigger] s[j]).head.free() && q == (
                (self.base + s[j].offset + HEADER_SIZE) as u64,
                s[j].head.size(),
            );
        lemma_chunk_in_page(s, i);
        lemma_chunk_in_page(s, j);
        if i < j {
            lemma_offsets_increase(s, i, j);
        } else if j < i {
            lemma_offsets_increase(s, j, i);
        }
    }

    /// A zone with no chunk in use holds no allocation.
    pub proof fn lemma_unused_empty(&self)
        requires
            self.wf(),
            self.spec_refs() == 0,
        ensures
            self.live() == Set::<(u64, u64)>::empty(),
    {
        let s = self.chunks@;
        assert forall|p: (u64, u64)| !self.live().contains(p) by {
            if self.live().contains(p) {
                let k = choose|k: int|
                    0 <= k < s.len() && !(#[trigger] s[k]).head.free() && p == (
                        (self.base + s[k].offset + HEADER_SIZE) as u64,
                        s[k].head.size(),
                    );
                let c = Chunk { offset: s[k].offset, head: Header { fields: 0 } };
                assert(0u64 & 0x1000u64 == 0) by (bit_vector);
                lemma_used_count_update(s, k, c);
            }
        }
        assert(self.live() =~= Set::<(u64, u64)>::empty());
    }

    /// A zone with a chunk in use holds an allocation.
    pub proof fn lemma_used_nonempty(&self) -> (p: (u64, u64))
        requires
            self.wf(),
            self.spec_refs() > 0,
        ensures
            self.live().contains(p),
    {
        let s = self.chunks@;
        let k = lemma_used_witness(s);
        let p = ((self.base + s[k].offset + HEADER_SIZE) as u64, s[k].head.size());
        assert(self.live().contains(p));
        p
    }
}

proof fn lemma_used_witness(s: Seq<Chunk>) -> (k: int)
    requires
        used_count(s) > 0,
    ensures
        0 <= k < s.len(),
        !s[k].head.free(),
    decreases s.len(),
{
    if s.last().head.free() {
        let k = lemma_used_witness(s.drop_last());
        assert(s.drop_last()[k] == s[k]);
        k
    } else {
        s.len() - 1
    }
}

proof fn lemma_offset_aligned(s: Seq<Chunk>, k: int)
    requires
        tiles(s),
        0 <= k < s.len(),
    ensures
        s[k].offset % 8 == 0,
    decreases k,
{
    if k > 0 {
        assert(adjacent(s, k - 1));
        let prev = s[k - 1];
        assert(prev.head.size() % 8 == 0);
        lemma_offset_aligned(s, k - 1);
        assert((prev.offset + 8 + prev.head.size()) % 8 == 0) by (nonlinear_arith)
            requires
                prev.offset % 8 == 0,
                prev.head.size() % 8 == 0,
        ;
    }
}

/// `size` rounded up to a multiple of 8.
pub open spec fn round8(size: u64) -> u64 {
    ((size + 7) / 8 * 8) as u64
}

/// Kernel virtual memory allocator: its zones, the first one first.
pub struct Kalloc {
    zones: Vec<Zone>,
}

impl Kalloc {
    /// The zones, in order.
    pub closed spec fn spec_zones(&self) -> Seq<Zone> {
        self.zones@
    }

    /// The allocations held: data address and size of each.
    pub closed spec fn live(&self) -> Set<(u64, u64)> {
        Set::new(
            |p: (u64, u64)|
                exists|z: int| 0 <= z < self.zones@.len() && (#[trigger] self.zones@[z]).live().contains(p),
        )
    }

    /// No allocation starts at `a`.
    pub open spec fn not_live_at(&self, a: u64) -> bool {
        forall|sz: u64| !self.live().contains((a, sz))
    }

    /// There is at least one zone; zones are well formed, on distinct pages.
    pub closed spec fn wf(&self) -> bool {
        &&& self.zones@.len() >= 1
        &&& forall|z: int| 0 <= z < self.zones@.len() ==> (#[trigger] self.zones@[z]).wf()
        &&& forall|z: int, y: int|
            0 <= z < self.zones@.len() && 0 <= y < self.zones@.len() && z != y ==> (#[trigger] self.zones@[z]).spec_base()
                != (#[trigger] self.zones@[y]).spec_base()
    }

    /// The zone pages come from `pool`: they are inside it and not free.
    pub closed spec fn holds_pages(&self, pool: &PagePool) -> bool {
        forall|z: int|
            0 <= z < self.zones@.len() ==> pool.bottom() <= (#[trigger] self.zones@[z]).spec_base()
                < pool.top() && !pool.free().contains(self.zones@[z].spec_base())
    }

    /// An allocator whose only zone is the page at `start`.
    pub fn new(start: Page) -> (k: Self)
        requires
            page_aligned(start.addr as int),
            start.addr + 4096 <= u64::MAX,
        ensures
            k.wf(),
            k.live() == Set::<(u64, u64)>::empty(),
            k.spec_zones().len() == 1,
            k.spec_zones()[0].spec_base() == start.addr,
            k.spec_zones()[0].spec_refs() == 0,
            k.spec_zones()[0].spec_chunks() == seq![
                Chunk { offset: ZONE_SIZE, head: Header { fields: MAX_CHUNK_SIZE } },
            ],
    {
        let mut zones: Vec<Zone> = Vec::new();
        zones.push(Zone::new(start.addr));
        let k = Kalloc { zones };
        proof {
            assert(k.live() =~= Set::<(u64, u64)>::empty());
        }
        k
    }

    /// Run `scan` on zone `z`: the allocation lies in that zone's page, and
    /// `None` comes when that zone, its free runs merged, has no free chunk
    /// of `size` bytes. The other zones stay as they were.
    #[verifier::rlimit(30)]
    fn scan_zone(&mut self, z: usize, size: u64) -> (r: Option<u64>)
        requires
            old(self).wf(),
            z < old(self).zones@.len(),
            8 <= size <= MAX_CHUNK_SIZE,
            size % 8 == 0,
        ensures
            final(self).wf(),
            final(self).zones@.len() == old(self).zones@.len(),
            forall|i: int|
                0 <= i < final(self).zones@.len() ==> (#[trigger] final(self).zones@[i]).spec_base()
                    == old(self).zones@[i].spec_base(),
            forall|i: int|
                0 <= i < final(self).zones@.len() && i != z ==> #[trigger] final(self).zones@[i]
                    == old(self).zones@[i],
            r matches Some(a) ==> old(self).zones@[z as int].spec_base() < a
                < old(self).zones@[z as int].spec_base() + 4096,
            r is None ==> !zone_has_room(final(self).zones@[z as int], size),
            r is None ==> final(self).zones@[z as int].spec_refs() == old(self).zones@[z as int].spec_refs(),
            r matches Some(a) ==> final(self).zones@[z as int].spec_refs()
                == old(self).zones@[z as int].spec_refs() + 1 && first_fit_chunk(
                final(self).zones@[z as int].spec_base(),
                final(self).zones@[z as int].spec_chunks(),
                a,
                size,
            ),
            r matches Some(a) ==> old(self).not_live_at(a) && final(self).live() == old(
                self,
            ).live().insert((a, size)) && a % 8 == 0,
            r matches Some(a) ==> split_rest(
                final(self).zones@[z as int].spec_base(),
                old(self).zones@[z as int].spec_chunks(),
                final(self).zones@[z as int].spec_chunks(),
                a,
                size,
            ),
            r is None ==> final(self).live() == old(self).live(),
    {
        let ghost zs = self.zones@;
        let mut zone = self.zones.remove(z);
        let ghost z0 = zone;
        let r = zone.scan(size);
        self.zones.insert(z, zone);
        proof {
            let zs2 = self.zones@;
            assert(zs2 =~= zs.update(z as int, zone));
            assert forall|i: int| 0 <= i < zs2.len() implies (#[trigger] zs2[i]).wf() by {
                if i != z {
                    assert(zs2[i] == zs[i]);
                }
            }
            assert forall|i: int, j: int|
                0 <= i < zs2.len() && 0 <= j < zs2.len() && i != j implies (#[trigger] zs2[i]).spec_base()
                    != (#[trigger] zs2[j]).spec_base() by {
                assert(zs[i].spec_base() != zs[j].spec_base());
            }
            match r {
                Some(a) => {
                    assert forall|sz: u64| !old(self).live().contains((a, sz)) by {
                        if old(self).live().contains((a, sz)) {
                            let y = choose|y: int| 0 <= y < zs.len() && (#[trigger] zs[y]).live().contains((a, sz));
                            if y != z {
                                zs[y].lemma_live_in_page((a, sz));
                                lemma_same_page(zs[y].spec_base(), zs[z as int].spec_base(), a);
                            }
                        }
                    }
                    assert(self.live() =~= old(self).live().insert((a, size))) by {
                        assert forall|p: (u64, u64)| self.live().contains(p) implies old(self).live().insert(
                            (a, size),
                        ).contains(p) by {
                            let y = choose|y: int| 0 <= y < zs2.len() && (#[trigger] zs2[y]).live().contains(p);
                            if y != z {
                                assert(zs[y] == zs2[y]);
                            }
                        }
                        assert forall|p: (u64, u64)| old(self).live().insert((a, size)).contains(
                            p,
                        ) implies self.live().contains(p) by {
                            if p == (a, size) {
                                assert(zs2[z as int].live().contains(p));
                            } else {
                                let y = choose|y: int| 0 <= y < zs.len() && (#[trigger] zs[y]).live().contains(p);
                                assert(zs2[y].live().contains(p));
                            }
                        }
                    }
                    assert(a % 8 == 0) by {
                        zone.lemma_live_in_page((a, size));
                    }
                },
                None => {
                    assert(self.live() =~= old(self).live()) by {
                        assert forall|p: (u64, u64)| self.live().contains(p) implies old(self).live().contains(p) by {
                            let y = choose|y: int| 0 <= y < zs2.len() && (#[trigger] zs2[y]).live().contains(p);
                            if y != z {
                                assert(zs[y] == zs2[y]);
                            }
                        }
                        assert forall|p: (u64, u64)| old(self).live().contains(p) implies self.live().contains(p) by {
                            let y = choose|y: int| 0 <= y < zs.len() && (#[trigger] zs[y]).live().contains(p);
                            assert(zs2[y].live().contains(p));
                        }
                    }
                },
            }
        }
        r
    }

    /// Allocate `size` bytes, rounded up to a multiple of 8: first fit over
    /// the zones in order (`Zone::scan`); when no zone has room, a page is
    /// taken from `pool` for a new zone, which gives the allocation. Gives
    /// the data address. Refused with `Void` for a zero size, and with `OOM`
    /// when no zone has room and the pool has no page.
    #[verifier::rlimit(40)]
    pub fn allocate(&mut self, pool: &mut PagePool, size: u64) -> (r: Result<u64, KallocError>)
        requires
            old(self).wf(),
            old(pool).wf(),
            old(pool).top() <= pa_top(),
            old(self).holds_pages(old(pool)),
            size <= MAX_CHUNK_SIZE,
        ensures
            final(self).wf(),
            final(pool).wf(),
            final(self).holds_pages(final(pool)),
            final(pool).bottom() == old(pool).bottom(),
            final(pool).top() == old(pool).top(),
            r matches Ok(a) ==> size > 0,
            r matches Ok(a) ==> a % 8 == 0,
            r matches Ok(a) ==> old(self).not_live_at(a),
            r matches Ok(a) ==> final(self).live() == old(self).live().insert((a, round8(size))),
            r matches Ok(a) ==> final(pool).free() == old(pool).free() || exists|b: u64|
                #![trigger old(pool).free().contains(b)]
                old(pool).free().contains(b) && final(pool).free() == old(pool).free().remove(b),
            r matches Ok(a) ==> exists|z: int|
                #![trigger final(self).spec_zones()[z]]
                0 <= z < final(self).spec_zones().len() && zone_took(
                    *old(self),
                    *old(pool),
                    *final(self),
                    *final(pool),
                    z,
                    a,
                    round8(size),
                ),
            r matches Err(e) ==> e == KallocError::OOM ==> final(self).spec_zones().len() == old(
                self,
            ).spec_zones().len() && forall|y: int|
                0 <= y < final(self).spec_zones().len() ==> !zone_has_room(
                    #[trigger] final(self).spec_zones()[y],
                    round8(size),
                ),
            r matches Err(e) ==> e == KallocError::Void ==> *final(self) == *old(self) && *final(pool)
                == *old(pool),
            r matches Err(e) ==> {
                &&& final(self).live() == old(self).live()
                &&& final(pool).free() == old(pool).free()
                &&& (e == KallocError::Void && size == 0) || (e == KallocError::OOM && size > 0
                    && old(pool).free() == Set::<u64>::empty())
            },
    {
        if size == 0 {
            return Err(KallocError::Void);
        }
        let req = size;
        let rounded = if req % 8 != 0 {
            (req + 7) & !7
        } else {
            req
        };
        proof {
            let x = (req + 7) as u64;
            assert(x & !7u64 == x - x % 8) by (bit_vector);
            assert(rounded == round8(req) && rounded % 8 == 0 && 8 <= rounded <= MAX_CHUNK_SIZE);
        }
        let ghost k0 = *self;
        let mut z: usize = 0;
        while z < self.zones.len()
            invariant
                self.wf(),
                self.live() == k0.live(),
                self.zones@.len() == k0.zones@.len(),
                forall|i: int|
                    0 <= i < self.zones@.len() ==> (#[trigger] self.zones@[i]).spec_base()
                        == k0.zones@[i].spec_base(),
                k0 == *old(self),
                *pool == *old(pool),
                pool.wf(),
                0 < req,
                self.holds_pages(pool),
                8 <= rounded <= MAX_CHUNK_SIZE,
                rounded % 8 == 0,
                rounded == round8(req),
                req == size,
                z <= self.zones@.len(),
                forall|y: int| 0 <= y < z ==> !zone_has_room(#[trigger] self.zones@[y], rounded),
                forall|y: int| z <= y < self.zones@.len() ==> #[trigger] self.zones@[y] == k0.zones@[y],
            decreases k0.zones@.len() - z,
        {
            let ghost zb = self.zones@;
            match self.scan_zone(z, rounded) {
                Some(a) => {
                    proof {
                        assert forall|y: int| 0 <= y < z implies !zone_has_room(#[trigger] self.zones@[y], rounded) by {
                            assert(self.zones@[y] == zb[y]);
                        }
                        assert(zb[z as int] == k0.zones@[z as int]);
                        assert(zone_took(k0, *old(pool), *self, *pool, z as int, a, round8(size)));
                        assert forall|i: int| 0 <= i < self.zones@.len() implies pool.bottom()
                            <= (#[trigger] self.zones@[i]).spec_base() < pool.top()
                            && !pool.free().contains(self.zones@[i].spec_base()) by {
                            assert(self.zones@[i].spec_base() == k0.zones@[i].spec_base());
                        }
                        assert(a % 8 == 0);
                        assert(k0.not_live_at(a));
                        assert(self.live() == k0.live().insert((a, round8(req))));
                        assert(pool.free() == old(pool).free());
                    }
                    return Ok(a);
                },
                None => {},
            }
            proof {
                assert forall|i: int| 0 <= i < self.zones@.len() implies pool.bottom()
                    <= (#[trigger] self.zones@[i]).spec_base() < pool.top()
                    && !pool.free().contains(self.zones@[i].spec_base()) by {
                    assert(self.zones@[i].spec_base() == k0.zones@[i].spec_base());
                }
                assert forall|y: int| 0 <= y < z + 1 implies !zone_has_room(#[trigger] self.zones@[y], rounded) by {
                    if y < z {
                        assert(self.zones@[y] == zb[y]);
                    }
                }
                assert forall|y: int| z + 1 <= y < self.zones@.len() implies #[trigger] self.zones@[y] == k0.zones@[y] by {
                    assert(self.zones@[y] == zb[y]);
                }
            }
            z = z + 1;
        }
        let ghost kz = *self;
        let ghost p0 = *pool;
        let page = match pool.palloc() {
            Ok(p) => p,
            Err(_) => {
                return Err(KallocError::OOM);
            },
        };
        proof {
            law_pfree_undoes_palloc(&p0, pool, page.addr);
        }
        let mut zone = Zone::new(page.addr);
        let a = zone.alloc_chunk(0, rounded);
        let ghost zs = self.zones@;
        self.zones.push(zone);
        proof {
            let zs2 = self.zones@;
            let n = zs.len();
            assert forall|i: int| 0 <= i < zs2.len() implies (#[trigger] zs2[i]).wf() by {
                if i < n {
                    assert(zs2[i] == zs[i]);
                }
            }
            assert forall|i: int| 0 <= i < n implies (#[trigger] zs[i]).spec_base() != page.addr by {
                assert(!p0.free().contains(zs[i].spec_base()));
            }
            assert forall|i: int, j: int|
                0 <= i < zs2.len() && 0 <= j < zs2.len() && i != j implies (#[trigger] zs2[i]).spec_base()
                    != (#[trigger] zs2[j]).spec_base() by {
                if i < n && j < n {
                    assert(zs[i].spec_base() != zs[j].spec_base());
                } else if i < n {
                    assert(zs[i].spec_base() != page.addr);
                } else if j < n {
                    assert(zs[j].spec_base() != page.addr);
                }
            }
            assert forall|i: int| 0 <= i < zs2.len() implies pool.bottom() <= (#[trigger] zs2[i]).spec_base()
                < pool.top() && !pool.free().contains(zs2[i].spec_base()) by {
                if i < n {
                    assert(zs2[i] == zs[i]);
                }
            }
            zone.lemma_live_in_page((a, rounded));
            assert forall|sz: u64| !old(self).live().contains((a, sz)) by {
                if old(self).live().contains((a, sz)) {
                    let y = choose|y: int| 0 <= y < zs.len() && (#[trigger] zs[y]).live().contains((a, sz));
                    zs[y].lemma_live_in_page((a, sz));
                    lemma_same_page(zs[y].spec_base(), page.addr, a);
                    assert(zs[y].spec_base() != page.addr);
                }
            }
            assert(self.live() =~= old(self).live().insert((a, rounded))) by {
                assert forall|p: (u64, u64)| self.live().contains(p) implies old(self).live().insert(
                    (a, rounded),
                ).contains(p) by {
                    let y = choose|y: int| 0 <= y < zs2.len() && (#[trigger] zs2[y]).live().contains(p);
                    if y < n {
                        assert(zs[y] == zs2[y]);
                    }
                }
                assert forall|p: (u64, u64)| old(self).live().insert((a, rounded)).contains(
                    p,
                ) implies self.live().contains(p) by {
                    if p == (a, rounded) {
                        assert(zs2[n as int].live().contains(p));
                    } else {
                        let y = choose|y: int| 0 <= y < zs.len() && (#[trigger] zs[y]).live().contains(p);
                        assert(zs2[y].live().contains(p));
                    }
                }
            }
            assert(zs2[n as int] == zone);
            assert(zone.chunks@[0].offset == ZONE_SIZE);
            assert(first_fit_chunk(zone.base, zone.chunks@, a, rounded)) by {
                assert(zone.base + zone.chunks@[0].offset + HEADER_SIZE == a);
            }
            assert(split_rest(
                zone.base,
                seq![Chunk { offset: ZONE_SIZE, head: Header { fields: MAX_CHUNK_SIZE } }],
                zone.chunks@,
                a,
                rounded,
            )) by {
                let f = seq![Chunk { offset: ZONE_SIZE, head: Header { fields: MAX_CHUNK_SIZE } }];
                assert(zone.chunks@.skip(zone.chunks@.len() as int) =~= f.skip(1));
                assert(rest_kept(zone.base, f, zone.chunks@, a, rounded, 0, 0));
            }
            assert forall|y: int| 0 <= y < n implies !zone_has_room(#[trigger] zs2[y], rounded) by {
                assert(zs2[y] == zs[y]);
            }
            assert(zone_took(k0, *old(pool), *self, *pool, n as int, a, round8(size)));
        }
        Ok(a)
    }

    /// Whether giving back the allocation at `a` empties a zone other than
    /// the first: no other allocation lies in the page holding `a`, and
    /// that page is not the first zone's.
    pub open spec fn frees_page(&self, a: u64) -> bool {
        &&& zone_page(a) != self.spec_zones()[0].spec_base()
        &&& forall|p: (u64, u64)|
            #[trigger] self.live().contains(p) && p.0 != a ==> zone_page(p.0) != zone_page(a)
    }

    /// Give back the allocation at data address `a`. Its zone is the page
    /// holding `a`. When no chunk of the zone stays in use and the zone is
    /// not the first one, the zone leaves the allocator and its page goes
    /// back to `pool`.
    #[verifier::rlimit(40)]
    pub fn free(&mut self, pool: &mut PagePool, a: u64)
        requires
            old(self).wf(),
            old(pool).wf(),
            old(self).holds_pages(old(pool)),
            exists|sz: u64| old(self).live().contains((a, sz)),
        ensures
            final(self).wf(),
            final(pool).wf(),
            final(self).holds_pages(final(pool)),
            final(pool).bottom() == old(pool).bottom(),
            final(pool).top() == old(pool).top(),
            forall|p: (u64, u64)|
                #[trigger] final(self).live().contains(p) <==> old(self).live().contains(p) && p.0
                    != a,
            final(pool).free() == if old(self).frees_page(a) {
                old(pool).free().insert(zone_page(a))
            } else {
                old(pool).free()
            },
            old(self).frees_page(a) ==> final(self).spec_zones().len() == old(self).spec_zones().len()
                - 1,
            !old(self).frees_page(a) ==> final(self).spec_zones().len() == old(self).spec_zones().len()
                && exists|z: int|
                #![trigger old(self).spec_zones()[z]]
                0 <= z < old(self).spec_zones().len() && old(self).spec_zones()[z].spec_base()
                    == zone_page(a) && final(self).spec_zones()[z].spec_refs() == old(
                    self,
                ).spec_zones()[z].spec_refs() - 1 && chunk_freed(
                    old(self).spec_zones()[z],
                    final(self).spec_zones()[z],
                    a,
                ),
    {
        let ghost zs = self.zones@;
        let ghost sz = choose|sz: u64| old(self).live().contains((a, sz));
        let ghost z0 = choose|y: int| 0 <= y < zs.len() && (#[trigger] zs[y]).live().contains((a, sz));
        proof {
            zs[z0].lemma_live_in_page((a, sz));
            assert(a & !0xfffu64 == a - a % 4096) by (bit_vector);
            assert(zs[z0].spec_base() == a - a % 4096) by (nonlinear_arith)
                requires
                    zs[z0].spec_base() % 4096 == 0,
                    zs[z0].spec_base() + 16 <= a < zs[z0].spec_base() + 4096,
            ;
        }
        let page_base = a & !(0x1000 - 1);
        let mut z: usize = 0;
        while z < self.zones.len()
            invariant
                self.zones@ == zs,
                0 <= z0 < zs.len(),
                zs[z0].spec_base() == page_base,
                z <= z0,
                self.wf(),
            ensures
                z == z0,
            decreases zs.len() - z,
        {
            if self.zones[z].base == page_base {
                break;
            }
            z = z + 1;
        }
        let mut zone = self.zones.remove(z);
        let ghost zone0 = zone;
        let refs = zone.free_chunk(a);
        let ghost zone1 = zone;
        let ghost zs1 = self.zones@;
        if refs == 0 && z != 0 {
            proof {
                zone.lemma_unused_empty();
            }
            let _ = pool.pfree(Page { addr: page_base });
            proof {
                assert(zs1 =~= zs.remove(z as int));
                assert forall|i: int| 0 <= i < zs1.len() implies (#[trigger] zs1[i]).wf() by {
                    if i < z {
                        assert(zs1[i] == zs[i]);
                    } else {
                        assert(zs1[i] == zs[i + 1]);
                    }
                }
                assert forall|i: int, j: int|
                    0 <= i < zs1.len() && 0 <= j < zs1.len() && i != j implies (#[trigger] zs1[i]).spec_base()
                        != (#[trigger] zs1[j]).spec_base() by {
                    let i2 = if i < z { i } else { i + 1 };
                    let j2 = if j < z { j } else { j + 1 };
                    assert(zs1[i] == zs[i2] && zs1[j] == zs[j2]);
                }
                assert forall|i: int| 0 <= i < zs1.len() implies pool.bottom() <= (#[trigger] zs1[i]).spec_base()
                    < pool.top() && !pool.free().contains(zs1[i].spec_base()) by {
                    let i2 = if i < z { i } else { i + 1 };
                    assert(zs1[i] == zs[i2]);
                    assert(zs[i2].spec_base() != page_base);
                }
                assert forall|p: (u64, u64)|
                    #[trigger] self.live().contains(p) <==> old(self).live().contains(p) && p.0 != a by {
                    if self.live().contains(p) {
                        let y = choose|y: int| 0 <= y < zs1.len() && (#[trigger] zs1[y]).live().contains(p);
                        let y2 = if y < z { y } else { y + 1 };
                        assert(zs1[y] == zs[y2]);
                        zs[y2].lemma_live_in_page(p);
                        if p.0 == a {
                            lemma_same_page(zs[y2].spec_base(), page_base, a);
                        }
                    }
                    if old(self).live().contains(p) && p.0 != a {
                        let y = choose|y: int| 0 <= y < zs.len() && (#[trigger] zs[y]).live().contains(p);
                        if y == z {
                            assert(zone.live().contains(p));
                        } else {
                            let y1 = if y < z { y } else { y - 1 };
                            assert(zs1[y1] == zs[y]);
                        }
                    }
                }
                assert(old(self).frees_page(a)) by {
                    assert(zs[0].spec_base() != zs[z as int].spec_base());
                    assert forall|p: (u64, u64)|
                        #[trigger] old(self).live().contains(p) && p.0 != a implies zone_page(p.0)
                        != zone_page(a) by {
                        assert(self.live().contains(p));
                        let y = choose|y: int| 0 <= y < zs1.len() && (#[trigger] zs1[y]).live().contains(p);
                        let y2 = if y < z { y } else { y + 1 };
                        assert(zs1[y] == zs[y2]);
                        zs[y2].lemma_live_in_page(p);
                        lemma_zone_page(zs[y2].spec_base(), p.0);
                    }
                }
            }
        } else {
            self.zones.insert(z, zone);
            proof {
                let zs2 = self.zones@;
                assert(zs2 =~= zs.update(z as int, zone));
                assert forall|i: int| 0 <= i < zs2.len() implies (#[trigger] zs2[i]).wf() by {
                    if i != z {
                        assert(zs2[i] == zs[i]);
                    }
                }
                assert forall|i: int, j: int|
                    0 <= i < zs2.len() && 0 <= j < zs2.len() && i != j implies (#[trigger] zs2[i]).spec_base()
                        != (#[trigger] zs2[j]).spec_base() by {
                    assert(zs[i].spec_base() != zs[j].spec_base());
                }
                assert forall|i: int| 0 <= i < zs2.len() implies pool.bottom() <= (#[trigger] zs2[i]).spec_base()
                    < pool.top() && !pool.free().contains(zs2[i].spec_base()) by {
                    assert(zs2[i].spec_base() == zs[i].spec_base());
                }
                assert forall|p: (u64, u64)|
                    #[trigger] self.live().contains(p) <==> old(self).live().contains(p) && p.0 != a by {
                    if self.live().contains(p) {
                        let y = choose|y: int| 0 <= y < zs2.len() && (#[trigger] zs2[y]).live().contains(p);
                        if y != z {
                            assert(zs2[y] == zs[y]);
                            zs[y].lemma_live_in_page(p);
                            if p.0 == a {
                                lemma_same_page(zs[y].spec_base(), page_base, a);
                            }
                        }
                    }
                    if old(self).live().contains(p) && p.0 != a {
                        let y = choose|y: int| 0 <= y < zs.len() && (#[trigger] zs[y]).live().contains(p);
                        assert(zs2[y].live().contains(p));
                    }
                }
                assert(zs2[z as int] == zone1);
                assert(zs[z as int].spec_base() == zone_page(a)) by {
                    lemma_zone_page(page_base, a);
                }
                assert(!old(self).frees_page(a)) by {
                    if z != 0 {
                        let p = zone1.lemma_used_nonempty();
                        assert(zone0.live().contains(p) && p.0 != a);
                        assert(zs[z as int].live().contains(p));
                        assert(old(self).live().contains(p));
                        zone0.lemma_live_in_page(p);
                        lemma_zone_page(page_base, p.0);
                        lemma_zone_page(page_base, a);
                    }
                }
                assert(zs[z as int] == zone0);
                assert(chunk_freed(zs[z as int], zs2[z as int], a));
                assert(zs2[z as int].spec_refs() == zs[z as int].spec_refs() - 1);
                assert(old(self).spec_zones()[z as int].spec_base() == zone_page(a));
            }
        }
    }

    /// Whether a zone lies on a page of the `n` pages from `p`.
    pub fn owns_any(&self, p: u64, n: u64) -> (r: bool)
        requires
            self.wf(),
            p + n * 4096 <= u64::MAX,
        ensures
            r == exists|b: u64| #[trigger] page_run(p as int, n as int).contains(b) && self.owns_page(b),
    {
        let end = p + n * 4096;
        let mut z: usize = 0;
        while z < self.zones.len()
            invariant
                self.wf(),
                end == p + n * 4096,
                z <= self.zones@.len(),
                forall|y: int| 0 <= y < z ==> !(p <= (#[trigger] self.zones@[y]).spec_base() < end),
            decreases self.zones@.len() - z,
        {
            let b = self.zones[z].base;
            if p <= b && b < end {
                proof {
                    assert(self.zones@[z as int].wf());
                    assert(page_run(p as int, n as int).contains(b));
                    assert(self.owns_page(b));
                }
                return true;
            }
            z = z + 1;
        }
        proof {
            assert forall|b: u64| page_run(p as int, n as int).contains(b) implies !self.owns_page(b) by {
                if self.owns_page(b) {
                    let y = choose|y: int| 0 <= y < self.zones@.len() && (#[trigger] self.zones@[y]).spec_base() == b;
                }
            }
        }
        false
    }

    /// Whether an allocation starts at `a`.
    pub fn holds(&self, a: u64) -> (r: bool)
        requires
            self.wf(),
        ensures
            r == exists|sz: u64| self.live().contains((a, sz)),
    {
        let mut z: usize = 0;
        while z < self.zones.len()
            invariant
                self.wf(),
                z <= self.zones@.len(),
                forall|y: int, sz: u64|
                    #![trigger self.zones@[y].live().contains((a, sz))]
                    0 <= y < z ==> !self.zones@[y].live().contains((a, sz)),
            decreases self.zones@.len() - z,
        {
            let zone = &self.zones[z];
            let ghost cs = zone.chunks@;
            let mut i: usize = 0;
            while i < zone.chunks.len()
                invariant
                    cs == zone.chunks@,
                    zone.wf(),
                    z < self.zones@.len(),
                    *zone == self.zones@[z as int],
                    i <= cs.len(),
                    forall|k: int|
                        0 <= k < i && !(#[trigger] cs[k]).head.free() ==> (zone.base + cs[k].offset
                            + HEADER_SIZE) as u64 != a,
                decreases cs.len() - i,
            {
                let c = zone.chunks[i];
                proof {
                    lemma_chunk_in_page(cs, i as int);
                }
                if !c.head.is_free() && zone.base + c.offset + HEADER_SIZE == a {
                    proof {
                        assert(cs[i as int] == c);
                        assert(zone.live().contains((a, c.head.size())));
                        let pp = (a, c.head.size());
                        assert(self.zones@[z as int].live().contains(pp));
                        assert(self.live().contains(pp));
                    }
                    return true;
                }
                i = i + 1;
            }
            proof {
                assert forall|sz: u64| !zone.live().contains((a, sz)) by {
                    if zone.live().contains((a, sz)) {
                        let k = choose|k: int|
                            0 <= k < cs.len() && !(#[trigger] cs[k]).head.free() && (a, sz) == (
                                (zone.base + cs[k].offset + HEADER_SIZE) as u64,
                                cs[k].head.size(),
                            );
                        lemma_chunk_in_page(cs, k);
                    }
                }
            }
            z = z + 1;
        }
        proof {
            assert forall|sz: u64| !self.live().contains((a, sz)) by {
                if self.live().contains((a, sz)) {
                    let y = choose|y: int| 0 <= y < self.zones@.len() && (#[trigger] self.zones@[y]).live().contains((a, sz));
                }
            }
        }
        false
    }

    /// Number of zones, in order.
    pub fn num_zones(&self) -> (r: usize)
        ensures
            r == self.spec_zones().len(),
    {
        self.zones.len()
    }

    /// Zone `z`.
    pub fn zone(&self, z: usize) -> (r: &Zone)
        requires
            z < self.spec_zones().len(),
        ensures
            *r == self.spec_zones()[z as int],
    {
        &self.zones[z]
    }

    /// A page of `pool` holds a zone.
    pub closed spec fn owns_page(&self, b: u64) -> bool {
        exists|z: int| 0 <= z < self.zones@.len() && (#[trigger] self.zones@[z]).spec_base() == b
    }

    /// The zone pages stay held when the pool only gives out pages, or
    /// takes back pages that hold no zone.
    pub proof fn lemma_holds_pages_moved(&self, p0: &PagePool, p1: &PagePool)
        requires
            self.holds_pages(p0),
            p1.bottom() == p0.bottom(),
            p1.top() == p0.top(),
            forall|b: u64| #[trigger] p1.free().contains(b) ==> p0.free().contains(b) || !self.owns_page(b),
        ensures
            self.holds_pages(p1),
    {
        assert forall|z: int| 0 <= z < self.zones@.len() implies p1.bottom() <= (#[trigger] self.zones@[z]).spec_base()
            < p1.top() && !p1.free().contains(self.zones@[z].spec_base()) by {
            if p1.free().contains(self.zones@[z].spec_base()) {
                assert(!self.owns_page(self.zones@[z].spec_base()));
            }
        }
    }

    /// A single zone on a page of the pool that is not free is held.
    pub proof fn lemma_holds_single(&self, pool: &PagePool)
        requires
            self.spec_zones().len() == 1,
            pool.bottom() <= self.spec_zones()[0].spec_base() < pool.top(),
            !pool.free().contains(self.spec_zones()[0].spec_base()),
        ensures
            self.holds_pages(pool),
    {
    }

    /// Two allocations never overlap.
    pub proof fn law_live_disjoint(&self, p: (u64, u64), q: (u64, u64))
        requires
            self.wf(),
            self.live().contains(p),
            self.live().contains(q),
            p != q,
        ensures
            p.0 + p.1 <= q.0 || q.0 + q.1 <= p.0,
    {
        let zs = self.zones@;
        let y = choose|y: int| 0 <= y < zs.len() && (#[trigger] zs[y]).live().contains(p);
        let z = choose|z: int| 0 <= z < zs.len() && (#[trigger] zs[z]).live().contains(q);
        zs[y].lemma_live_in_page(p);
        zs[z].lemma_live_in_page(q);
        if y == z {
            zs[y].lemma_zone_disjoint(p, q);
        } else {
            assert(zs[y].spec_base() != zs[z].spec_base());
            lemma_pages_apart(zs[y].spec_base(), zs[z].spec_base());
        }
    }
}

/// Distinct pages do not overlap.
proof fn lemma_pages_apart(b1: u64, b2: u64)
    requires
        b1 % 4096 == 0,
        b2 % 4096 == 0,
        b1 != b2,
    ensures
        b1 + 4096 <= b2 || b2 + 4096 <= b1,
{
    assert(b1 + 4096 <= b2 || b2 + 4096 <= b1) by (nonlinear_arith)
        requires
            b1 % 4096 == 0,
            b2 % 4096 == 0,
            b1 != b2,
    ;
}

/// Freeing an allocation undoes making it: the allocations are those held
/// before.
pub proof fn law_free_undoes_allocate(k0: &Kalloc, k1: &Kalloc, k2: &Kalloc, a: u64, size: u64)
    requires
        k0.not_live_at(a),
        k1.live() == k0.live().insert((a, size)),
        forall|p: (u64, u64)| #[trigger] k2.live().contains(p) <==> k1.live().contains(p) && p.0 != a,
    ensures
        k2.live() == k0.live(),
{
    assert(k2.live() =~= k0.live()) by {
        assert forall|p: (u64, u64)| k0.live().contains(p) implies k2.live().contains(p) by {
            if p.0 == a {
                assert(!k0.live().contains((a, p.1)));
            }
        }
    }
}

/// Two pages that hold the same address are the same page.
/// The page that holds address `a`.
pub open spec fn zone_page(a: u64) -> u64 {
    (a - a % 4096) as u64
}

proof fn lemma_zone_page(b: u64, a: u64)
    requires
        b % 4096 == 0,
        b <= a < b + 4096,
    ensures
        zone_page(a) == b,
{
    assert(a - a % 4096 == b) by (nonlinear_arith)
        requires
            b % 4096 == 0,
            b <= a < b + 4096,
    ;
}

proof fn lemma_same_page(b1: u64, b2: u64, a: u64)
    requires
        b1 % 4096 == 0,
        b2 % 4096 == 0,
        b1 <= a < b1 + 4096,
        b2 <= a < b2 + 4096,
    ensures
        b1 == b2,
{
    assert(b1 == b2) by (nonlinear_arith)
        requires
            b1 % 4096 == 0,
            b2 % 4096 == 0,
            b1 <= a < b1 + 4096,
            b2 <= a < b2 + 4096,
    ;
}

} // verus!
