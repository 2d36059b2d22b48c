//! A heap over one region of memory: a list of chunks that tile the region,
//! each a header followed by padding and user data. Allocations are matched
//! to the layout they were made for.
use vstd::prelude::*;
use vstd::arithmetic::power2::pow2;
use vstd::bits::{low_bits_mask, lemma_u64_low_bits_mask_is_mod, lemma_u64_pow2_no_overflow};

verus! {

/// Bytes taken by a chunk header.
pub const CHUNK_HEADER_SIZE: usize = 40;

/// The least alignment of user data: the smallest power of two that holds a
/// chunk header, so that every data address is aligned for any request of
/// that alignment or less.
pub const MIN_DATA_ALIGN: usize = 64;

/// A request: how many bytes, at what alignment.
#[derive(Copy, Clone, Debug, PartialEq, Eq, Structural)]
pub struct ChunkLayout {
    pub size: usize,
    pub align: usize,
}

/// `size` rounded up to a multiple of `align`.
pub open spec fn align_up(size: int, align: int) -> int {
    if size % align != 0 {
        size - size % align + align
    } else {
        size
    }
}

/// `a` is a power of two, as the alignment of every `Layout` is.
pub open spec fn is_pow2(a: usize) -> bool {
    exists|n: nat| n < 64 && a as int == pow2(n)
}

/// The alignments a heap request may ask for: at most `MIN_DATA_ALIGN`, or
/// a power of two.
pub open spec fn align_ok(layout: ChunkLayout) -> bool {
    layout.align > 0 && (layout.align <= MIN_DATA_ALIGN || is_pow2(layout.align))
}

/// The internal alignment of an admitted request is a power of two.
proof fn lemma_internal_align_pow2(layout: ChunkLayout)
    requires
        align_ok(layout),
    ensures
        is_pow2(internal_align(layout) as usize),
{
    vstd::arithmetic::power2::lemma2_to64();
    if layout.align <= MIN_DATA_ALIGN {
        assert(64 == pow2(6));
    }
}

/// `x` moved up by masking with `align - 1`: its low bits cleared and one
/// `align` added when any was set. For a power of two this is `align_up`.
pub open spec fn mask_up(x: usize, align: usize) -> int {
    if x & ((align - 1) as usize) != 0 {
        (x & !((align - 1) as usize)) + align
    } else {
        x as int
    }
}

/// The low bits of `x` under the mask `align - 1`.
pub open spec fn mask_low(x: usize, align: usize) -> usize {
    x & ((align - 1) as usize)
}

/// Clearing the bits of a mask takes off what the mask keeps.
proof fn lemma_mask_bits(x: usize, m: usize)
    by (bit_vector)
    ensures
        x & !m <= x,
        x & m <= m,
        x & !m == x - (x & m),
{
}

/// For a power of two, masking rounds as `align_up` does, and the low bits
/// are the remainder.
pub proof fn lemma_mask_up_pow2(x: usize, align: usize, n: nat)
    requires
        n < 64,
        align as int == pow2(n),
    ensures
        mask_up(x, align) == align_up(x as int, align as int),
        mask_low(x, align) == x % align,
{
    lemma_u64_pow2_no_overflow(n);
    let m = (align - 1) as usize;
    let x64 = x as u64;
    let m64 = m as u64;
    lemma_u64_low_bits_mask_is_mod(x64, n);
    assert(m64 == low_bits_mask(n) as u64);
    assert((x & m) as u64 == x64 & m64) by (bit_vector)
        requires
            x64 == x as u64,
            m64 == m as u64,
    ;
    lemma_mask_bits(x, m);
}

/// Whether `addr` lies outside `[heap_start, heap_end)`.
pub fn out_of_bounds(addr: usize, heap_start: usize, heap_end: usize) -> (r: bool)
    ensures
        r == (addr < heap_start || addr >= heap_end),
{
    addr < heap_start || addr >= heap_end
}

/// Book-keeping of a chunk: its size with header, the layout it was
/// allocated for, whether it is free, and the bytes of padding between the
/// header and the user data.
#[derive(Copy, Clone, Debug, PartialEq, Eq, Structural)]
pub struct KChunkHeader {
    pub size: usize,
    pub layout: ChunkLayout,
    pub is_free: bool,
    pub alignment_offset: usize,
}

impl KChunkHeader {
    /// A free chunk of `size` bytes, header included.
    pub fn init_free(&mut self, size: usize)
        ensures
            final(self).size == size,
            final(self).is_free,
            final(self).alignment_offset == 0,
            final(self).layout == old(self).layout,
    {
        self.size = size;
        self.is_free = true;
        self.alignment_offset = 0;
    }

    pub fn size(&self) -> (r: usize)
        ensures
            r == self.size,
    {
        self.size
    }

    /// Bytes after the header: padding and user data.
    pub fn size_with_padding(&self) -> (r: usize)
        requires
            self.size >= CHUNK_HEADER_SIZE,
        ensures
            r == self.size - CHUNK_HEADER_SIZE,
    {
        self.size - CHUNK_HEADER_SIZE
    }

    /// Bytes the user may use.
    pub fn user_size(&self) -> (r: usize)
        requires
            self.size >= CHUNK_HEADER_SIZE + self.alignment_offset,
        ensures
            r == self.size - CHUNK_HEADER_SIZE - self.alignment_offset,
    {
        self.size - CHUNK_HEADER_SIZE - self.alignment_offset
    }

    /// Whether the chunk was allocated for `layout`.
    pub fn matches_layout(&self, layout: &ChunkLayout) -> (r: bool)
        ensures
            r == (self.layout == *layout),
    {
        self.layout.size == layout.size && self.layout.align == layout.align
    }
}

proof fn lemma_mod_le(x: int, m: int)
    requires
        x >= 0,
        m > 0,
    ensures
        0 <= x % m <= x,
        x % m < m,
{
    vstd::arithmetic::div_mod::lemma_fundamental_div_mod(x, m);
    vstd::arithmetic::div_mod::lemma_mod_bound(x, m);
    assert(m * (x / m) >= 0) by (nonlinear_arith)
        requires
            x >= 0,
            m > 0,
    ;
}

/// Rounding up gives the least multiple of `align` that is at least `size`.
pub proof fn law_align_up(size: int, align: int)
    requires
        size >= 0,
        align > 0,
    ensures
        align_up(size, align) % align == 0,
        size <= align_up(size, align) < size + align,
        forall|m: int| size <= m && #[trigger] (m % align) == 0 ==> align_up(size, align) <= m,
{
    vstd::arithmetic::div_mod::lemma_fundamental_div_mod(size, align);
    if size % align != 0 {
        vstd::arithmetic::div_mod::lemma_mod_multiples_basic(size / align + 1, align);
        assert(size - size % align + align == (size / align + 1) * align) by (nonlinear_arith)
            requires
                size == align * (size / align) + size % align,
        ;
    }
    assert forall|m: int| size <= m && #[trigger] (m % align) == 0 implies align_up(size, align) <= m by {
        vstd::arithmetic::div_mod::lemma_fundamental_div_mod(m, align);
        if size % align != 0 {
            assert(m / align > size / align) by (nonlinear_arith)
                requires
                    size == align * (size / align) + size % align,
                    m == align * (m / align),
                    size <= m,
                    size % align > 0,
                    align > 0,
            ;
            assert(align_up(size, align) <= m) by (nonlinear_arith)
                requires
                    size == align * (size / align) + size % align,
                    m == align * (m / align),
                    m / align >= size / align + 1,
                    align > 0,
                    align_up(size, align) == size - size % align + align,
            ;
        }
    }
}

/// A chunk: the address of its header, and the header.
#[derive(Copy, Clone, Debug, PartialEq, Eq, Structural)]
pub struct Chunk {
    pub addr: usize,
    pub head: KChunkHeader,
}

/// Where the user data of a chunk starts.
pub open spec fn user_data(c: Chunk) -> int {
    c.addr + CHUNK_HEADER_SIZE + c.head.alignment_offset
}

/// Chunk `i` and the chunk after it are both free.
pub open spec fn free_pair(s: Seq<Chunk>, i: int) -> bool {
    s[i].head.is_free && s[i + 1].head.is_free
}

/// No two neighbouring chunks are both free: free neighbours were merged.
pub open spec fn coalesced(s: Seq<Chunk>) -> bool {
    forall|i: int| 0 <= i < s.len() - 1 ==> !#[trigger] free_pair(s, i)
}

/// Chunk `i + 1` starts where chunk `i` ends.
pub open spec fn adjacent(s: Seq<Chunk>, i: int) -> bool {
    s[i + 1].addr == s[i].addr + s[i].head.size
}

/// A chunk holds its header and padding, and, in use, its user data.
pub open spec fn chunk_ok(c: Chunk) -> bool {
    &&& c.head.size >= CHUNK_HEADER_SIZE + c.head.alignment_offset
    &&& !c.head.is_free ==> CHUNK_HEADER_SIZE + c.head.alignment_offset + c.head.layout.size
        <= c.head.size
}

/// The chunks tile `[start, end)` in order.
pub open spec fn heap_tiles(s: Seq<Chunk>, start: int, end: int) -> bool {
    &&& s.len() >= 1
    &&& s[0].addr == start
    &&& forall|i: int| 0 <= i < s.len() - 1 ==> #[trigger] adjacent(s, i)
    &&& s.last().addr + s.last().head.size == end
    &&& forall|i: int| 0 <= i < s.len() ==> chunk_ok(#[trigger] s[i])
}

/// The alignment chunks are laid out with: the request's, and at least
/// `MIN_DATA_ALIGN`.
pub open spec fn internal_align(layout: ChunkLayout) -> int {
    if layout.align > MIN_DATA_ALIGN {
        layout.align as int
    } else {
        MIN_DATA_ALIGN as int
    }
}

/// Bytes after the header of `c` that `layout` needs, alignment included.
pub open spec fn required(c: Chunk, layout: ChunkLayout) -> int {
    align_up(c.addr + CHUNK_HEADER_SIZE, internal_align(layout)) + layout.size - (c.addr
        + CHUNK_HEADER_SIZE)
}

/// The chunk is free and large enough for `layout`.
pub open spec fn fits(c: Chunk, layout: ChunkLayout) -> bool {
    c.head.is_free && c.head.size - CHUNK_HEADER_SIZE >= required(c, layout)
}

/// The allocations of a list of chunks: user data address and layout of
/// each chunk in use.
pub open spec fn heap_live(s: Seq<Chunk>) -> Set<(int, ChunkLayout)> {
    Set::new(
        |p: (int, ChunkLayout)|
            exists|i: int|
                0 <= i < s.len() && !(#[trigger] s[i]).head.is_free && p == (user_data(s[i]), s[i].head.layout),
    )
}

proof fn lemma_heap_order(s: Seq<Chunk>, start: int, end: int, i: int, j: int)
    requires
        heap_tiles(s, start, end),
        0 <= i < j < s.len(),
    ensures
        s[i].addr + s[i].head.size <= s[j].addr,
    decreases j - i,
{
    assert(adjacent(s, j - 1));
    assert(chunk_ok(s[j - 1]));
    if i < j - 1 {
        lemma_heap_order(s, start, end, i, j - 1);
    }
}

/// Two chunks of a heap with the same user data address are one chunk.
proof fn lemma_user_data_unique(s: Seq<Chunk>, start: int, end: int, i: int, j: int)
    requires
        heap_tiles(s, start, end),
        0 <= i < s.len(),
        0 <= j < s.len(),
        user_data(s[i]) == user_data(s[j]),
    ensures
        i == j,
{
    if i < j {
        lemma_heap_order(s, start, end, i, j);
        assert(chunk_ok(s[i]));
    } else if j < i {
        lemma_heap_order(s, start, end, j, i);
        assert(chunk_ok(s[j]));
    }
}

/// The size chunk `i` reaches once the free chunk after it, if any, joins
/// it.
pub open spec fn grown_size(s: Seq<Chunk>, i: int) -> int {
    if i + 1 < s.len() && s[i + 1].head.is_free {
        s[i].head.size + s[i + 1].head.size
    } else {
        s[i].head.size as int
    }
}

/// The allocation in chunk `i`, made for `layout`, can grow or shrink to
/// `new_size` bytes where it is: the chunk, grown by a free chunk after it,
/// has more room after its padding than the new size rounded up to the
/// alignment.
pub open spec fn room_in_place(s: Seq<Chunk>, i: int, layout: ChunkLayout, new_size: int) -> bool {
    grown_size(s, i) - CHUNK_HEADER_SIZE - s[i].head.alignment_offset > align_up(
        new_size,
        internal_align(layout),
    )
}

/// Chunk `j` is the first chunk with room for `layout`, chunk `skip` left
/// aside.
pub open spec fn first_fit_except(s: Seq<Chunk>, skip: int, layout: ChunkLayout, j: int) -> bool {
    &&& 0 <= j < s.len()
    &&& j != skip
    &&& fits(s[j], layout)
    &&& forall|k: int| 0 <= k < j && k != skip ==> !fits(#[trigger] s[k], layout)
}

proof fn lemma_heap_bounds(s: Seq<Chunk>, start: int, end: int, i: int)
    requires
        heap_tiles(s, start, end),
        0 <= i < s.len(),
    ensures
        start <= s[i].addr,
        s[i].addr + s[i].head.size <= end,
{
    if i > 0 {
        lemma_heap_order(s, start, end, 0, i);
    }
    if i < s.len() - 1 {
        lemma_heap_order(s, start, end, i, s.len() - 1);
    }
}

/// One heap: the region `[heap_start, heap_end)` and its chunks in order.
pub struct Kalloc {
    heap_start: usize,
    heap_end: usize,
    chunks: Vec<Chunk>,
}

impl Kalloc {
    /// Round `size` up by the mask `align - 1`: to a multiple of `align`
    /// when it is a power of two.
    pub fn adjust_size_with_align(size: usize, align: usize) -> (r: usize)
        requires
            align > 0,
            size + align <= usize::MAX,
        ensures
            r == mask_up(size, align),
            is_pow2(align) ==> r == align_up(
                size as int,
                align as int,
            ),
    {
        let mask: usize = align - 1;
        proof {
            lemma_mask_bits(size, mask);
            if is_pow2(align) {
                let n = choose|n: nat| n < 64 && align as int == pow2(n);
                lemma_mask_up_pow2(size, align, n);
            }
        }
        if size & mask != 0 {
            (size & !mask) + align
        } else {
            size
        }
    }

    /// Move `ptr` forward by the mask `align - 1`: to the next multiple of
    /// `align` when it is a power of two. Gives the new address and
    /// `align` less the low bits (0 when none was set).
    pub fn adjust_ptr_with_align(ptr: usize, align: usize) -> (r: (usize, usize))
        requires
            align > 0,
            ptr + align <= usize::MAX,
        ensures
            r.0 == mask_up(ptr, align),
            r.1 == if mask_low(ptr, align) != 0 {
                align - mask_low(ptr, align)
            } else {
                0
            },
            is_pow2(align) ==> {
                &&& r.0 == align_up(ptr as int, align as int)
                &&& r.1 == r.0 - ptr
            },
    {
        let mask: usize = align - 1;
        proof {
            lemma_mask_bits(ptr, mask);
            if is_pow2(align) {
                let n = choose|n: nat| n < 64 && align as int == pow2(n);
                lemma_mask_up_pow2(ptr, align, n);
                lemma_mod_le(ptr as int, align as int);
            }
        }
        if ptr & mask != 0 {
            ((ptr & !mask) + align, align - (ptr & mask))
        } else {
            (ptr, 0)
        }
    }

    pub closed spec fn spec_start(&self) -> usize {
        self.heap_start
    }

    pub closed spec fn spec_end(&self) -> usize {
        self.heap_end
    }

    pub closed spec fn spec_chunks(&self) -> Seq<Chunk> {
        self.chunks@
    }

    /// The allocations held: user data address and layout of each.
    pub closed spec fn live(&self) -> Set<(int, ChunkLayout)> {
        heap_live(self.chunks@)
    }

    pub closed spec fn wf(&self) -> bool {
        heap_tiles(self.chunks@, self.heap_start as int, self.heap_end as int)
    }

    /// Free neighbours were merged.
    pub open spec fn is_coalesced(&self) -> bool {
        coalesced(self.spec_chunks())
    }

    /// A heap over `[start, end)`: one free chunk.
    pub fn new(start: usize, end: usize) -> (k: Self)
        requires
            start + CHUNK_HEADER_SIZE <= end,
        ensures
            k.wf(),
            k.spec_start() == start,
            k.spec_end() == end,
            k.live() == Set::<(int, ChunkLayout)>::empty(),
            k.is_coalesced(),
            k.spec_chunks() == seq![
                Chunk {
                    addr: start,
                    head: KChunkHeader {
                        size: (end - start) as usize,
                        layout: ChunkLayout { size: 0, align: 1 },
                        is_free: true,
                        alignment_offset: 0,
                    },
                },
            ],
    {
        let head = KChunkHeader {
            size: end - start,
            layout: ChunkLayout { size: 0, align: 1 },
            is_free: true,
            alignment_offset: 0,
        };
        let mut chunks: Vec<Chunk> = Vec::new();
        chunks.push(Chunk { addr: start, head });
        let k = Kalloc { heap_start: start, heap_end: end, chunks };
        proof {
            assert(k.live() =~= Set::<(int, ChunkLayout)>::empty());
        }
        k
    }

    /// No allocation has its user data at `a`.
    pub open spec fn not_live_at(&self, a: int) -> bool {
        forall|l: ChunkLayout| !self.live().contains((a, l))
    }

    /// First fit: `layout` goes into the first free chunk with room for it,
    /// its data aligned to `internal_align(layout)`. A chunk with room for
    /// twice as much (and another header) is split, the rest becoming a free
    /// chunk after it. Gives the data address, or 0 when no chunk has room.
    #[verifier::rlimit(60)]
    pub fn allocate(&mut self, layout: ChunkLayout) -> (r: usize)
        requires
            old(self).wf(),
            align_ok(layout),
            old(self).spec_end() + layout.size + internal_align(layout) <= usize::MAX,
        ensures
            final(self).wf(),
            final(self).spec_start() == old(self).spec_start(),
            final(self).spec_end() == old(self).spec_end(),
            old(self).is_coalesced() ==> final(self).is_coalesced(),
            r == 0 ==> *final(self) == *old(self) && forall|i: int|
                0 <= i < old(self).spec_chunks().len() ==> !fits(
                    #[trigger] old(self).spec_chunks()[i],
                    layout,
                ),
            r != 0 ==> {
                &&& exists|i: int|
                    0 <= i < old(self).spec_chunks().len() && fits(
                        #[trigger] old(self).spec_chunks()[i],
                        layout,
                    ) && (forall|j: int|
                        0 <= j < i ==> !fits(#[trigger] old(self).spec_chunks()[j], layout)) && r
                        == align_up(
                        old(self).spec_chunks()[i].addr + CHUNK_HEADER_SIZE,
                        internal_align(layout),
                    )
                &&& old(self).not_live_at(r as int)
                &&& final(self).live() == old(self).live().insert((r as int, layout))
            },
    {
        let ia: usize = if layout.align > MIN_DATA_ALIGN {
            layout.align
        } else {
            MIN_DATA_ALIGN
        };
        let ghost s0 = self.chunks@;
        proof {
            lemma_internal_align_pow2(layout);
        }
        let mut i: usize = 0;
        while i < self.chunks.len()
            invariant
                self.chunks@ == s0,
                *self == *old(self),
                self.wf(),
                ia == internal_align(layout),
                is_pow2(ia),
                layout.align > 0,
                self.heap_end + layout.size + ia <= usize::MAX,
                i <= s0.len(),
                forall|j: int| 0 <= j < i ==> !fits(#[trigger] s0[j], layout),
            decreases s0.len() - i,
        {
            let c = self.chunks[i];
            proof {
                lemma_heap_bounds(s0, self.heap_start as int, self.heap_end as int, i as int);
                assert(chunk_ok(s0[i as int]));
            }
            let start_of_padding = c.addr + CHUNK_HEADER_SIZE;
            let (aligned, off) = Self::adjust_ptr_with_align(start_of_padding, ia);
            proof {
                law_align_up(start_of_padding as int, ia as int);
            }
            let required = aligned + layout.size - start_of_padding;
            let padded = c.head.size - CHUNK_HEADER_SIZE;
            if padded >= required && c.head.is_free {
                let split = padded - required >= required && padded - required >= CHUNK_HEADER_SIZE;
                let new_size = if split {
                    required + CHUNK_HEADER_SIZE
                } else {
                    c.head.size
                };
                let used = Chunk {
                    addr: c.addr,
                    head: KChunkHeader {
                        size: new_size,
                        layout,
                        is_free: false,
                        alignment_offset: off,
                    },
                };
                self.chunks.set(i, used);
                let ghost s1 = self.chunks@;
                if split {
                    let rest = Chunk {
                        addr: c.addr + required + CHUNK_HEADER_SIZE,
                        head: KChunkHeader {
                            size: c.head.size - required - CHUNK_HEADER_SIZE,
                            layout: c.head.layout,
                            is_free: true,
                            alignment_offset: 0,
                        },
                    };
                    self.chunks.insert(i + 1, rest);
                }
                proof {
                    let s2 = self.chunks@;
                    let k_of = |k: int| if split && k > i + 1 { k - 1 } else { k };
                    assert forall|k: int| 0 <= k < s2.len() - 1 implies #[trigger] adjacent(s2, k) by {
                        if split {
                            if k < i {
                                assert(adjacent(s0, k));
                            } else if k > i + 1 {
                                assert(adjacent(s0, k - 1));
                            } else if k == i + 1 {
                                assert(adjacent(s0, i as int));
                            }
                        } else {
                            assert(adjacent(s0, k));
                        }
                    }
                    assert forall|k: int| 0 <= k < s2.len() implies chunk_ok(#[trigger] s2[k]) by {
                        if k != i && !(split && k == i + 1) {
                            assert(s2[k] == s0[k_of(k)]);
                        }
                    }
                    if split {
                        if (i as int) == s0.len() - 1 {
                            assert(s2.last() == s2[i + 1]);
                        } else {
                            assert(s2.last() == s0.last());
                        }
                    } else {
                        assert(s2.last() == if (i as int) == s0.len() - 1 { used } else { s0.last() });
                    }
                    assert forall|l: ChunkLayout| !old(self).live().contains((aligned as int, l)) by {
                        if old(self).live().contains((aligned as int, l)) {
                            let k = choose|k: int|
                                0 <= k < s0.len() && !(#[trigger] s0[k]).head.is_free && (aligned as int, l)
                                    == (user_data(s0[k]), s0[k].head.layout);
                            assert(chunk_ok(s0[k]));
                            if k < i {
                                lemma_heap_order(s0, self.heap_start as int, self.heap_end as int, k, i as int);
                            } else if k > i {
                                lemma_heap_order(s0, self.heap_start as int, self.heap_end as int, i as int, k);
                            }
                        }
                    }
                    assert(self.live() =~= old(self).live().insert((aligned as int, layout))) by {
                        assert forall|p: (int, ChunkLayout)| self.live().contains(p) implies old(self).live().insert(
                            (aligned as int, layout),
                        ).contains(p) by {
                            let k = choose|k: int|
                                0 <= k < s2.len() && !(#[trigger] s2[k]).head.is_free && p == (
                                    user_data(s2[k]),
                                    s2[k].head.layout,
                                );
                            if k != i {
                                assert(s2[k] == s0[k_of(k)]);
                            }
                        }
                        assert forall|p: (int, ChunkLayout)| old(self).live().insert(
                            (aligned as int, layout),
                        ).contains(p) implies self.live().contains(p) by {
                            if p == (aligned as int, layout) {
                                assert(s2[i as int] == used);
                            } else {
                                let k = choose|k: int|
                                    0 <= k < s0.len() && !(#[trigger] s0[k]).head.is_free && p == (
                                        user_data(s0[k]),
                                        s0[k].head.layout,
                                    );
                                if split && k > i {
                                    assert(s2[k + 1] == s0[k]);
                                } else {
                                    assert(s2[k] == s0[k]);
                                }
                            }
                        }
                    }
                    assert(fits(s0[i as int], layout));
                    assert(s0 == old(self).spec_chunks());
                    assert(0 <= i < old(self).spec_chunks().len() && fits(old(self).spec_chunks()[i as int], layout)
                        && (forall|j: int| 0 <= j < i ==> !fits(#[trigger] old(self).spec_chunks()[j], layout))
                        && aligned == align_up(
                        old(self).spec_chunks()[i as int].addr + CHUNK_HEADER_SIZE,
                        internal_align(layout),
                    ));
                }
                proof {
                    let s2 = self.chunks@;
                    let ii = i as int;
                    assert(s0[ii].head.is_free);
                    assert(!s2[ii].head.is_free);
                    if coalesced(s0) {
                        assert forall|k: int| 0 <= k < s2.len() - 1 implies !#[trigger] free_pair(s2, k) by {
                            if k == ii - 1 || k == ii {
                            } else if split {
                                if k < ii - 1 {
                                    assert(s2[k] == s0[k] && s2[k + 1] == s0[k + 1]);
                                    assert(!free_pair(s0, k));
                                } else if k == ii + 1 {
                                    assert(s2[ii + 2] == s0[ii + 1]);
                                    assert(!free_pair(s0, ii));
                                } else {
                                    assert(s2[k] == s0[k - 1] && s2[k + 1] == s0[k]);
                                    assert(!free_pair(s0, k - 1));
                                }
                            } else {
                                assert(s2[k] == s0[k] && s2[k + 1] == s0[k + 1]);
                                assert(!free_pair(s0, k));
                            }
                        }
                    }
                }
                return aligned;
            }
            i = i + 1;
        }
        0
    }

    proof fn lemma_user_data_distinct(&self, i: int, j: int)
        requires
            self.wf(),
            0 <= i < j < self.chunks@.len(),
        ensures
            user_data(self.chunks@[i]) < user_data(self.chunks@[j]),
    {
        let s = self.chunks@;
        lemma_heap_order(s, self.heap_start as int, self.heap_end as int, i, j);
        assert(chunk_ok(s[i]));
        assert(chunk_ok(s[j]));
    }

    /// Index of the chunk holding the allocation at `ptr` for `layout`.
    fn find_chunk(&self, ptr: usize, layout: ChunkLayout) -> (i: usize)
        requires
            self.wf(),
            self.live().contains((ptr as int, layout)),
        ensures
            i < self.chunks@.len(),
            !self.chunks@[i as int].head.is_free,
            user_data(self.chunks@[i as int]) == ptr,
            self.chunks@[i as int].head.layout == layout,
    {
        let ghost s = self.chunks@;
        let ghost k = choose|k: int|
            0 <= k < s.len() && !(#[trigger] s[k]).head.is_free && (ptr as int, layout) == (
                user_data(s[k]),
                s[k].head.layout,
            );
        let mut i: usize = 0;
        while i < self.chunks.len()
            invariant
                self.chunks@ == s,
                self.wf(),
                0 <= k < s.len(),
                !s[k].head.is_free,
                user_data(s[k]) == ptr,
                s[k].head.layout == layout,
                i <= k,
            ensures
                i == k,
            decreases s.len() - i,
        {
            let c = self.chunks[i];
            proof {
                lemma_heap_bounds(s, self.heap_start as int, self.heap_end as int, i as int);
                assert(chunk_ok(s[i as int]));
                if (i as int) < k {
                    self.lemma_user_data_distinct(i as int, k);
                }
            }
            if c.head.matches_layout(&layout) && c.addr + CHUNK_HEADER_SIZE + c.head.alignment_offset == ptr {
                break;
            }
            i = i + 1;
        }
        i
    }

    /// Mark the chunk `i`, in use, free.
    #[verifier::rlimit(30)]
    fn set_free_at(&mut self, i: usize)
        requires
            old(self).wf(),
            i < old(self).chunks@.len(),
            !old(self).chunks@[i as int].head.is_free,
        ensures
            final(self).wf(),
            final(self).heap_start == old(self).heap_start,
            final(self).heap_end == old(self).heap_end,
            final(self).chunks@.len() == old(self).chunks@.len(),
            final(self).chunks@[i as int].head.is_free,
            final(self).chunks@[i as int].addr == old(self).chunks@[i as int].addr,
            final(self).chunks@[i as int].head.size == old(self).chunks@[i as int].head.size,
            final(self).chunks@[i as int].head.alignment_offset == old(self).chunks@[i as int].head.alignment_offset,
            final(self).chunks@[i as int].head.layout == old(self).chunks@[i as int].head.layout,
            forall|k: int| 0 <= k < old(self).chunks@.len() && k != i ==> final(self).chunks@[k] == old(self).chunks@[k],
            final(self).live() == old(self).live().remove(
                (user_data(old(self).chunks@[i as int]), old(self).chunks@[i as int].head.layout),
            ),
    {
        let ghost s0 = self.chunks@;
        let mut c = self.chunks[i];
        c.head.is_free = true;
        self.chunks.set(i, c);
        proof {
            let s1 = self.chunks@;
            let gone = (user_data(s0[i as int]), s0[i as int].head.layout);
            assert forall|k: int| 0 <= k < s1.len() - 1 implies #[trigger] adjacent(s1, k) by {
                assert(adjacent(s0, k));
            }
            assert forall|k: int| 0 <= k < s1.len() implies chunk_ok(#[trigger] s1[k]) by {
                assert(chunk_ok(s0[k]));
            }
            assert(self.live() =~= old(self).live().remove(gone)) by {
                assert forall|p: (int, ChunkLayout)| self.live().contains(p) implies old(self).live().remove(gone).contains(p) by {
                    let k = choose|k: int|
                        0 <= k < s1.len() && !(#[trigger] s1[k]).head.is_free && p == (
                            user_data(s1[k]),
                            s1[k].head.layout,
                        );
                    assert(k != i);
                    assert(s1[k] == s0[k]);
                    if k < i {
                        old(self).lemma_user_data_distinct(k, i as int);
                    } else {
                        old(self).lemma_user_data_distinct(i as int, k);
                    }
                }
                assert forall|p: (int, ChunkLayout)| old(self).live().remove(gone).contains(p) implies self.live().contains(p) by {
                    let k = choose|k: int|
                        0 <= k < s0.len() && !(#[trigger] s0[k]).head.is_free && p == (
                            user_data(s0[k]),
                            s0[k].head.layout,
                        );
                    assert(k != i);
                    assert(s1[k] == s0[k]);
                }
            }
        }
    }

    /// The free chunk `i` absorbs the free chunk after it.
    #[verifier::rlimit(30)]
    fn merge_at(&mut self, i: usize)
        requires
            old(self).wf(),
            i + 1 < old(self).chunks@.len(),
            old(self).chunks@[i as int].head.is_free,
            old(self).chunks@[i + 1].head.is_free,
        ensures
            final(self).wf(),
            final(self).heap_start == old(self).heap_start,
            final(self).heap_end == old(self).heap_end,
            final(self).live() == old(self).live(),
            final(self).chunks@.len() == old(self).chunks@.len() - 1,
            forall|k: int| 0 <= k < i ==> final(self).chunks@[k] == old(self).chunks@[k],
            final(self).chunks@[i as int].head.is_free,
            final(self).chunks@[i as int].addr == old(self).chunks@[i as int].addr,
            final(self).chunks@[i as int].head.alignment_offset == old(self).chunks@[i as int].head.alignment_offset,
            final(self).chunks@[i as int].head.layout == old(self).chunks@[i as int].head.layout,
            final(self).chunks@[i as int].head.size == old(self).chunks@[i as int].head.size + old(self).chunks@[i + 1].head.size,
            forall|k: int| i < k < final(self).chunks@.len() ==> final(self).chunks@[k] == old(self).chunks@[k + 1],
    {
        let ghost s0 = self.chunks@;
        proof {
            assert(adjacent(s0, i as int));
            lemma_heap_bounds(s0, self.heap_start as int, self.heap_end as int, i + 1);
        }
        let _n = self.chunks.len();
        let next = self.chunks[i + 1];
        let mut c = self.chunks[i];
        c.head.size = c.head.size + next.head.size;
        self.chunks.set(i, c);
        let ghost s1 = self.chunks@;
        let _ = self.chunks.remove(i + 1);
        proof {
            let s2 = self.chunks@;
            assert(s2 == s1.remove(i + 1));
            assert forall|k: int| 0 <= k < s2.len() - 1 implies #[trigger] adjacent(s2, k) by {
                if k < i {
                    assert(adjacent(s0, k));
                } else if k > i {
                    assert(adjacent(s0, k + 1));
                } else {
                    assert(adjacent(s0, i + 1));
                }
            }
            assert forall|k: int| 0 <= k < s2.len() implies chunk_ok(#[trigger] s2[k]) by {
                if k < i {
                    assert(chunk_ok(s0[k]));
                } else if k > i {
                    assert(s2[k] == s0[k + 1]);
                    assert(chunk_ok(s0[k + 1]));
                } else {
                    assert(chunk_ok(s0[i as int]));
                }
            }
            if i + 1 == s0.len() - 1 {
                assert(s2.last() == c);
            } else {
                assert(s2.last() == s0.last());
            }
            assert(self.live() =~= old(self).live()) by {
                assert forall|p: (int, ChunkLayout)| self.live().contains(p) implies old(self).live().contains(p) by {
                    let k = choose|k: int|
                        0 <= k < s2.len() && !(#[trigger] s2[k]).head.is_free && p == (
                            user_data(s2[k]),
                            s2[k].head.layout,
                        );
                    if k < i {
                        assert(s0[k] == s2[k]);
                    } else {
                        assert(s0[k + 1] == s2[k]);
                    }
                }
                assert forall|p: (int, ChunkLayout)| old(self).live().contains(p) implies self.live().contains(p) by {
                    let k = choose|k: int|
                        0 <= k < s0.len() && !(#[trigger] s0[k]).head.is_free && p == (
                            user_data(s0[k]),
                            s0[k].head.layout,
                        );
                    if k < i {
                        assert(s2[k] == s0[k]);
                    } else {
                        assert(s2[k - 1] == s0[k]);
                    }
                }
            }
        }
    }

    /// Give back the allocation at `ptr` made for `layout`. Its chunk becomes
    /// free and merges with free neighbours.
    pub fn deallocate(&mut self, ptr: usize, layout: ChunkLayout)
        requires
            old(self).wf(),
            old(self).live().contains((ptr as int, layout)),
        ensures
            final(self).wf(),
            final(self).spec_start() == old(self).spec_start(),
            final(self).spec_end() == old(self).spec_end(),
            final(self).live() == old(self).live().remove((ptr as int, layout)),
            old(self).is_coalesced() ==> final(self).is_coalesced(),
    {
        let ghost s0 = self.chunks@;
        let i = self.find_chunk(ptr, layout);
        self.set_free_at(i);
        let ghost s1 = self.chunks@;
        let n = self.chunks.len();
        let merged = i < n - 1 && self.chunks[i + 1].head.is_free;
        if merged {
            self.merge_at(i);
        }
        let ghost s2 = self.chunks@;
        proof {
            let ii = i as int;
            if coalesced(s0) {
                assert forall|k: int| 0 <= k < s2.len() - 1 && k != ii - 1 implies !#[trigger] free_pair(s2, k) by {
                    if k < ii - 1 {
                        assert(s2[k] == s0[k] && s2[k + 1] == s0[k + 1]);
                        assert(!free_pair(s0, k));
                    } else if k == ii {
                        if merged {
                            assert(s2[ii + 1] == s1[ii + 2]);
                            assert(s1[ii + 2] == s0[ii + 2]);
                            assert(!free_pair(s0, ii + 1));
                        } else {
                            assert(s2[ii + 1] == s1[ii + 1]);
                        }
                    } else {
                        if merged {
                            assert(s2[k] == s1[k + 1] && s2[k + 1] == s1[k + 2]);
                            assert(s1[k + 1] == s0[k + 1] && s1[k + 2] == s0[k + 2]);
                            assert(!free_pair(s0, k + 1));
                        } else {
                            assert(s2[k] == s0[k] && s2[k + 1] == s0[k + 1]);
                            assert(!free_pair(s0, k));
                        }
                    }
                }
            }
        }
        if i > 0 && self.chunks[i - 1].head.is_free {
            self.merge_at(i - 1);
            proof {
                let ii = i as int;
                let s3 = self.chunks@;
                if coalesced(s0) {
                    assert forall|k: int| 0 <= k < s3.len() - 1 implies !#[trigger] free_pair(s3, k) by {
                        if k < ii - 2 {
                            assert(s3[k] == s2[k] && s3[k + 1] == s2[k + 1]);
                            assert(!free_pair(s2, k));
                        } else if k == ii - 2 {
                            assert(s3[k] == s0[k]);
                            assert(s2[ii - 1] == s0[ii - 1]);
                            assert(!free_pair(s0, k));
                        } else if k == ii - 1 {
                            assert(s3[ii] == s2[ii + 1]);
                            assert(!free_pair(s2, ii));
                        } else {
                            assert(s3[k] == s2[k + 1] && s3[k + 1] == s2[k + 2]);
                            assert(!free_pair(s2, k + 1));
                        }
                    }
                }
            }
        } else {
            proof {
                let ii = i as int;
                if coalesced(s0) && ii > 0 {
                    assert(!free_pair(s2, ii - 1));
                }
            }
        }
    }

    /// Mark the free chunk `i` in use again for `layout`, its data where it
    /// was.
    #[verifier::rlimit(30)]
    fn set_used_at(&mut self, i: usize, layout: ChunkLayout)
        requires
            old(self).wf(),
            i < old(self).chunks@.len(),
            old(self).chunks@[i as int].head.is_free,
            CHUNK_HEADER_SIZE + old(self).chunks@[i as int].head.alignment_offset + layout.size
                <= old(self).chunks@[i as int].head.size,
        ensures
            final(self).wf(),
            final(self).heap_start == old(self).heap_start,
            final(self).heap_end == old(self).heap_end,
            final(self).chunks@.len() == old(self).chunks@.len(),
            final(self).chunks@[i as int].addr == old(self).chunks@[i as int].addr,
            final(self).chunks@[i as int].head.alignment_offset == old(self).chunks@[i as int].head.alignment_offset,
            final(self).chunks@[i as int].head.size == old(self).chunks@[i as int].head.size,
            !final(self).chunks@[i as int].head.is_free,
            forall|k: int| 0 <= k < old(self).chunks@.len() && k != i ==> final(self).chunks@[k] == old(self).chunks@[k],
            final(self).live() == old(self).live().insert((user_data(old(self).chunks@[i as int]), layout)),
    {
        let ghost s0 = self.chunks@;
        let mut c = self.chunks[i];
        c.head.is_free = false;
        c.head.layout = layout;
        self.chunks.set(i, c);
        proof {
            let s1 = self.chunks@;
            let added = (user_data(s0[i as int]), layout);
            assert forall|k: int| 0 <= k < s1.len() - 1 implies #[trigger] adjacent(s1, k) by {
                assert(adjacent(s0, k));
            }
            assert forall|k: int| 0 <= k < s1.len() implies chunk_ok(#[trigger] s1[k]) by {
                assert(chunk_ok(s0[k]));
            }
            assert(self.live() =~= old(self).live().insert(added)) by {
                assert forall|p: (int, ChunkLayout)| self.live().contains(p) implies old(self).live().insert(added).contains(p) by {
                    let k = choose|k: int|
                        0 <= k < s1.len() && !(#[trigger] s1[k]).head.is_free && p == (
                            user_data(s1[k]),
                            s1[k].head.layout,
                        );
                    if k != i {
                        assert(s1[k] == s0[k]);
                    }
                }
                assert forall|p: (int, ChunkLayout)| old(self).live().insert(added).contains(p) implies self.live().contains(p) by {
                    if p == added {
                        assert(s1[i as int] == c);
                    } else {
                        let k = choose|k: int|
                            0 <= k < s0.len() && !(#[trigger] s0[k]).head.is_free && p == (
                                user_data(s0[k]),
                                s0[k].head.layout,
                            );
                        assert(s1[k] == s0[k]);
                    }
                }
            }
        }
    }

    /// Resize the allocation at `ptr`, made for `layout`, to `new_size`
    /// bytes. Its chunk is freed and merged with a free chunk after it; if
    /// that leaves room after its padding, the allocation stays in place.
    /// Otherwise a new allocation is made (`allocate`), the old chunk is
    /// freed, and the caller moves the data. Gives the new address and how
    /// many bytes to move (0 when in place), or `None` when no chunk has room,
    /// the allocation then being left as it was.
    #[verifier::rlimit(40)]
    pub fn reallocate(&mut self, ptr: usize, layout: ChunkLayout, new_size: usize) -> (r: Option<
        (usize, usize),
    >)
        requires
            old(self).wf(),
            old(self).live().contains((ptr as int, layout)),
            align_ok(layout),
            old(self).spec_end() + new_size + internal_align(layout) <= usize::MAX,
        ensures
            final(self).wf(),
            final(self).spec_start() == old(self).spec_start(),
            final(self).spec_end() == old(self).spec_end(),
            r matches Some((p, n)) ==> {
                &&& final(self).live() == old(self).live().remove((ptr as int, layout)).insert(
                    (p as int, ChunkLayout { size: new_size, align: layout.align }),
                )
                &&& p == ptr ==> n == 0
                &&& p != ptr ==> old(self).not_live_at(p as int) && n == if layout.size
                    < new_size {
                    layout.size
                } else {
                    new_size
                }
            },
            r is None ==> final(self).live() == old(self).live(),
            forall|i: int|
                0 <= i < old(self).spec_chunks().len() && user_data(
                    #[trigger] old(self).spec_chunks()[i],
                ) == ptr ==> {
                    let s = old(self).spec_chunks();
                    let nl = ChunkLayout { size: new_size, align: layout.align };
                    &&& room_in_place(s, i, layout, new_size as int) ==> r == Some((ptr, 0usize))
                    &&& !room_in_place(s, i, layout, new_size as int) ==> match r {
                        None => forall|j: int| 0 <= j < s.len() && j != i + 1 ==> !fits(#[trigger] s[j], nl),
                        Some((p, n)) => exists|j: int|
                            #[trigger] first_fit_except(s, i + 1, nl, j) && p == align_up(
                                s[j].addr + CHUNK_HEADER_SIZE,
                                internal_align(nl),
                            ),
                    }
                },
    {
        let ia: usize = if layout.align > MIN_DATA_ALIGN {
            layout.align
        } else {
            MIN_DATA_ALIGN
        };
        proof {
            lemma_internal_align_pow2(layout);
        }
        let internal_size = Self::adjust_size_with_align(new_size, ia);
        let new_layout = ChunkLayout { size: new_size, align: layout.align };
        let ghost s0 = self.chunks@;
        let i = self.find_chunk(ptr, layout);
        proof {
            assert forall|i2: int|
                0 <= i2 < s0.len() && user_data(#[trigger] s0[i2]) == ptr implies i2 == i by {
                lemma_user_data_unique(s0, self.heap_start as int, self.heap_end as int, i2, i as int);
            }
        }
        let ghost c0 = self.chunks@[i as int];
        self.set_free_at(i);
        let ghost s1 = self.chunks@;
        let n = self.chunks.len();
        let merged = i < n - 1 && self.chunks[i + 1].head.is_free;
        if merged {
            self.merge_at(i);
        }
        let ghost s2 = self.chunks@;
        let c = self.chunks[i];
        proof {
            assert(chunk_ok(self.chunks@[i as int]));
            if i + 1 < s0.len() {
                assert(s1[i + 1] == s0[i + 1]);
            }
            assert(c.head.size == grown_size(s0, i as int));
        }
        if c.head.size - CHUNK_HEADER_SIZE - c.head.alignment_offset > internal_size {
            proof {
                law_align_up(new_size as int, ia as int);
            }
            self.set_used_at(i, new_layout);
            return Some((ptr, 0));
        }
        self.set_used_at(i, layout);
        let ghost s3 = self.chunks@;
        proof {
            assert(self.live() =~= old(self).live());
            // Chunks of the resized heap, against those before.
            assert forall|k: int| 0 <= k < s3.len() && k != i implies #[trigger] s3[k] == (if merged
                && k > i {
                s0[k + 1]
            } else {
                s0[k]
            }) by {
                if k < i {
                    assert(s2[k] == s1[k]);
                } else if merged {
                    assert(s2[k] == s1[k + 1]);
                } else {
                    assert(s2[k] == s1[k]);
                }
            }
            assert(s3.len() == if merged { s0.len() - 1 } else { s0.len() as int });
        }
        let dest = self.allocate(new_layout);
        if dest == 0 {
            proof {
                assert forall|j: int| 0 <= j < s0.len() && j != i + 1 implies !fits(#[trigger] s0[j], new_layout) by {
                    assert(self.spec_chunks() == s3);
                    if j < i {
                        assert(s3[j] == s0[j]);
                        assert(!fits(self.spec_chunks()[j], new_layout));
                    } else if j > i {
                        if merged {
                            assert(s3[j - 1] == s0[j]);
                            assert(!fits(self.spec_chunks()[j - 1], new_layout));
                        } else {
                            assert(s3[j] == s0[j]);
                            assert(!fits(self.spec_chunks()[j], new_layout));
                        }
                    }
                }
            }
            return None;
        }
        proof {
            let k = choose|k: int|
                0 <= k < s3.len() && fits(#[trigger] s3[k], new_layout) && (forall|j: int|
                    0 <= j < k ==> !fits(#[trigger] s3[j], new_layout)) && dest == align_up(
                    s3[k].addr + CHUNK_HEADER_SIZE,
                    internal_align(new_layout),
                );
            assert(k != i);
            let j = if merged && k > i { k + 1 } else { k };
            assert(s3[k] == s0[j]);
            assert forall|j2: int| 0 <= j2 < j && j2 != i + 1 implies !fits(#[trigger] s0[j2], new_layout) by {
                if j2 < i {
                    assert(s3[j2] == s0[j2]);
                    assert(!fits(s3[j2], new_layout));
                } else if j2 > i {
                    if merged {
                        assert(s3[j2 - 1] == s0[j2]);
                        assert(!fits(s3[j2 - 1], new_layout));
                    } else {
                        assert(s3[j2] == s0[j2]);
                        assert(!fits(s3[j2], new_layout));
                    }
                }
            }
            assert(j != i + 1 || !merged);
            if j == i + 1 {
                assert(!s0[i + 1].head.is_free);
            }
            assert(first_fit_except(s0, i + 1, new_layout, j));
        }
        let ghost k1 = *self;
        let j = self.find_chunk(ptr, layout);
        self.set_free_at(j);
        proof {
            assert(self.live() =~= old(self).live().remove((ptr as int, layout)).insert(
                (dest as int, new_layout),
            ));
        }
        let moved = if layout.size < new_size {
            layout.size
        } else {
            new_size
        };
        Some((dest, moved))
    }

    /// Once every allocation is given back, a heap whose free neighbours
    /// were merged is one free chunk over all of `[start, end)`: any request
    /// that fits an empty heap fits it.
    pub proof fn law_empty_heap_is_one_chunk(&self)
        requires
            self.wf(),
            self.is_coalesced(),
            self.live() == Set::<(int, ChunkLayout)>::empty(),
        ensures
            self.spec_chunks().len() == 1,
            self.spec_chunks()[0].addr == self.spec_start(),
            self.spec_chunks()[0].head.size == self.spec_end() - self.spec_start(),
            self.spec_chunks()[0].head.is_free,
    {
        let s = self.chunks@;
        assert forall|i: int| 0 <= i < s.len() implies (#[trigger] s[i]).head.is_free by {
            if !s[i].head.is_free {
                assert(heap_live(s).contains((user_data(s[i]), s[i].head.layout)));
            }
        }
        if s.len() > 1 {
            assert(s[0].head.is_free && s[1].head.is_free);
            assert(free_pair(s, 0));
        }
    }

    /// The user data of two allocations never overlap, and each lies inside
    /// the heap.
    pub proof fn law_live_disjoint(&self, p: (int, ChunkLayout), q: (int, ChunkLayout))
        requires
            self.wf(),
            self.live().contains(p),
            self.live().contains(q),
            p != q,
        ensures
            p.0 + p.1.size <= q.0 || q.0 + q.1.size <= p.0,
            self.spec_start() <= p.0,
            p.0 + p.1.size <= self.spec_end(),
    {
        let s = self.chunks@;
        let i = choose|i: int|
            0 <= i < s.len() && !(#[trigger] s[i]).head.is_free && p == (user_data(s[i]), s[i].head.layout);
        let j = choose|j: int|
            0 <= j < s.len() && !(#[trigger] s[j]).head.is_free && q == (user_data(s[j]), s[j].head.layout);
        assert(chunk_ok(s[i]));
        assert(chunk_ok(s[j]));
        lemma_heap_bounds(s, self.heap_start as int, self.heap_end as int, i);
        if i < j {
            lemma_heap_order(s, self.heap_start as int, self.heap_end as int, i, j);
        } else if j < i {
            lemma_heap_order(s, self.heap_start as int, self.heap_end as int, j, i);
        }
    }
}

/// Deallocating undoes allocating: the allocations are those held before.
pub proof fn law_deallocate_undoes_allocate(
    k0: &Kalloc,
    k1: &Kalloc,
    k2: &Kalloc,
    a: int,
    layout: ChunkLayout,
)
    requires
        k0.not_live_at(a),
        k1.live() == k0.live().insert((a, layout)),
        k2.live() == k1.live().remove((a, layout)),
    ensures
        k2.live() == k0.live(),
{
    assert(k2.live() =~= k0.live()) by {
        assert(!k0.live().contains((a, layout)));
    }
}

} // verus!
