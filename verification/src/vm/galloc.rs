//! General allocation of small power-of-two sized pieces out of pages.
//!
//! Pages are arranged in a tree of headers. An indirect header has a level
//! (level n links to level n - 1; level 1 links to data pages), a valid mask
//! of its down links, and for each link a mask of the 8 byte units in use on
//! the data page it points to. A request for `size` bytes takes a naturally
//! aligned run of `round_up(size) / 8` units of a data page.
use vstd::prelude::*;
use vstd::arithmetic::power2::{pow2, lemma_pow2_unfold, lemma_pow2_strictly_increases, lemma2_to64};
use crate::vm::palloc::{PagePool, page_aligned};
use crate::vm::VmError;

verus! {

/// A mask of the `n` lowest bits.
pub open spec fn low_mask(n: nat) -> u64 {
    if n >= 64 {
        u64::MAX
    } else {
        (pow2(n) - 1) as u64
    }
}

/// Bit `i` of `x` is set.
pub open spec fn bit_set(x: u64, i: nat) -> bool {
    (x >> i) & 1 == 1
}

/// A mask with the `num_ones` lowest bits set.
pub fn make_mask(num_ones: u64) -> (r: u64)
    ensures
        r == low_mask(num_ones as nat),
{
    let mut out: u64 = 0;
    let mut n = num_ones;
    proof {
        lemma2_to64();
        vstd::arithmetic::power2::lemma2_to64_rest();
    }
    while n > 0
        invariant
            n <= num_ones,
            out == low_mask((num_ones - n) as nat),
        decreases n,
    {
        let ghost j = (num_ones - n) as nat;
        proof {
            lemma2_to64();
            vstd::arithmetic::power2::lemma2_to64_rest();
            vstd::arithmetic::power2::lemma_pow2_pos(j);
            if j < 63 {
                lemma_pow2_unfold(j + 1);
                lemma_pow2_strictly_increases(j, 63);
                assert(pow2(63) == 0x8000_0000_0000_0000);
                assert(pow2(j) < 0x8000_0000_0000_0000);
                assert(out == pow2(j) - 1);
                assert(out < 0x8000_0000_0000_0000);
                assert((out << 1) | 1 == 2 * out + 1) by (bit_vector)
                    requires
                        out < 0x8000_0000_0000_0000u64,
                ;
            } else if j == 63 {
                lemma_pow2_unfold(64);
                assert(out == 0x7fff_ffff_ffff_ffffu64);
                assert((out << 1) | 1 == u64::MAX) by (bit_vector)
                    requires
                        out == 0x7fff_ffff_ffff_ffffu64,
                ;
            } else {
                assert((u64::MAX << 1) | 1 == u64::MAX) by (bit_vector);
            }
        }
        out = (out << 1) | 1;
        n = n - 1;
    }
    out
}

/// Doubling `p` until it reaches `s`.
pub open spec fn grow_pow2(s: nat, p: nat) -> nat
    decreases s - p,
{
    if p == 0 || p >= s {
        p
    } else if 2 * p >= s {
        2 * p
    } else {
        grow_pow2(s, 2 * p)
    }
}

/// The power of two that fits `s`: the least one at least `s`.
pub fn round_up(s: u64) -> (r: u64)
    requires
        1 <= s <= 0x8000_0000_0000_0000,
    ensures
        exists|k: nat| k < 64 && r == pow2(k),
        s <= r,
        r == 1 || r < 2 * s,
        r == grow_pow2(s as nat, 1),
{
    let mut p: u64 = 1;
    let ghost mut k: nat = 0;
    proof {
        lemma2_to64();
        vstd::arithmetic::power2::lemma2_to64_rest();
    }
    while p < s
        invariant
            1 <= s <= 0x8000_0000_0000_0000,
            k < 64,
            p == pow2(k),
            p == 1 || p < 2 * s,
            grow_pow2(s as nat, p as nat) == grow_pow2(s as nat, 1),
        decreases 64 - k,
    {
        proof {
            lemma_pow2_unfold(k + 1);
            lemma2_to64();
            vstd::arithmetic::power2::lemma2_to64_rest();
            if k >= 63 {
                if k > 63 {
                    lemma_pow2_strictly_increases(63, k);
                }
                assert(false);
            }
        }
        p = p * 2;
        proof {
            k = k + 1;
        }
    }
    p
}

/// Units of 8 bytes that a request of `size` bytes takes: its power of two
/// in units, at least one.
pub open spec fn request_units(size: nat) -> nat {
    let u = grow_pow2(size, 1) / 8;
    if u == 0 {
        1
    } else {
        u
    }
}

/// The `units` bits of `mask` from bit `i` on are clear.
pub open spec fn run_clear(mask: u64, i: nat, units: nat) -> bool {
    (mask >> i) & low_mask(units) == 0
}

/// Find where a request of `size` bytes fits in a data page whose units in
/// use are `dl_mask`: the first run of `request_units(size)` clear bits that
/// starts at a multiple of that count.
pub fn search_data_layer(size: u64, dl_mask: u64) -> (r: Option<u64>)
    requires
        1 <= size <= 4096,
    ensures
        match r {
            Some(i) => {
                &&& i < 64
                &&& (i as nat) % request_units(size as nat) == 0
                &&& run_clear(dl_mask, i as nat, request_units(size as nat))
                &&& forall|j: nat|
                    j < i && j % request_units(size as nat) == 0 ==> !#[trigger] run_clear(
                        dl_mask,
                        j,
                        request_units(size as nat),
                    )
            },
            None => forall|j: nat|
                j < 64 && j % request_units(size as nat) == 0 ==> !#[trigger] run_clear(
                    dl_mask,
                    j,
                    request_units(size as nat),
                ),
        },
{
    let r = round_up(size);
    let units = if r / 8 == 0 {
        1
    } else {
        r / 8
    };
    let search_mask = make_mask(units);
    let mut i: u64 = 0;
    while i < 64
        invariant
            units == request_units(size as nat),
            units >= 1,
            units <= 1024,
            search_mask == low_mask(units as nat),
            i % units == 0,
            i < 64 + units,
            forall|j: nat| j < i && j % (units as nat) == 0 ==> !#[trigger] run_clear(dl_mask, j, units as nat),
        decreases 64 + units - i,
    {
        if (dl_mask >> i) & search_mask == 0 {
            return Some(i);
        }
        proof {
            assert forall|j: nat| j < i + units && j % (units as nat) == 0 implies !#[trigger] run_clear(
                dl_mask,
                j,
                units as nat,
            ) by {
                if j >= i {
                    assert(j == i) by (nonlinear_arith)
                        requires
                            i <= j < i + units,
                            j % (units as nat) == 0,
                            i % units == 0,
                            units >= 1,
                    ;
                }
            }
            vstd::arithmetic::div_mod::lemma_mod_adds(i as int, units as int, units as int);
            vstd::arithmetic::div_mod::lemma_mod_self_0(units as int);
        }
        i = i + units;
    }
    None
}

/// Index of the lowest set bit of `field`, if any.
pub fn lowest_set_bit(field: u64) -> (r: Option<u64>)
    ensures
        match r {
            Some(i) => i < 64 && bit_set(field, i as nat) && forall|j: nat|
                j < i ==> !#[trigger] bit_set(field, j),
            None => forall|j: nat| j < 64 ==> !#[trigger] bit_set(field, j),
        },
{
    let mut i: u64 = 0;
    while i < 64 && (field >> i) & 1 == 0
        invariant
            i <= 64,
            forall|j: nat| j < i ==> !#[trigger] bit_set(field, j),
        decreases 64 - i,
    {
        i = i + 1;
    }
    if i == 64 {
        None
    } else {
        proof {
            let x = field >> i;
            assert(x & 1 != 0 ==> x & 1 == 1) by (bit_vector);
        }
        Some(i)
    }
}

/// Index of the highest set bit of `field`, if any.
pub fn highest_set_bit(field: u64) -> (r: Option<u64>)
    ensures
        match r {
            Some(i) => i < 64 && bit_set(field, i as nat) && forall|j: nat|
                i < j < 64 ==> !#[trigger] bit_set(field, j),
            None => forall|j: nat| j < 64 ==> !#[trigger] bit_set(field, j),
        },
{
    let mut i: u64 = 64;
    while i > 0
        invariant
            i <= 64,
            forall|j: nat| i <= j < 64 ==> !#[trigger] bit_set(field, j),
        decreases i,
    {
        if (field >> (i - 1)) & 1 == 1 {
            return Some(i - 1);
        }
        i = i - 1;
    }
    None
}

} // verus!

verus! {

/// Down links in a header.
pub const LINKS: usize = 32;

/// A down link of a header: unused, a data page with the mask of its 8 byte
/// units in use, or a header one level down.
pub enum GLink {
    Empty,
    Data { page: u64, mask: u64 },
    Down(Box<GHeader>),
}

/// A header of the tree: the page it lives on, its level, and its links.
pub struct GHeader {
    pub page: u64,
    pub level: u64,
    pub links: Vec<GLink>,
}

/// The pages under a link, depth first: `(true, page, 0)` for a header page,
/// `(false, page, mask)` for a data page.
pub open spec fn link_items(l: GLink) -> Seq<(bool, u64, u64)>
    decreases l,
{
    match l {
        GLink::Empty => Seq::empty(),
        GLink::Data { page, mask } => seq![(false, page, mask)],
        GLink::Down(c) => seq![(true, c.page, 0u64)] + seq_items(c.links@),
    }
}

/// The pages under a sequence of links, depth first.
pub open spec fn seq_items(s: Seq<GLink>) -> Seq<(bool, u64, u64)>
    decreases s,
{
    if s.len() == 0 {
        Seq::empty()
    } else {
        seq_items(s.drop_last()) + link_items(s.last())
    }
}

/// Links fit a header of `level`: data pages under level 1, headers of the
/// level below under higher levels.
pub open spec fn link_wf(l: GLink, level: u64) -> bool
    decreases l,
{
    match l {
        GLink::Empty => true,
        GLink::Data { .. } => level == 1,
        GLink::Down(c) => level > 1 && c.level == level - 1 && c.links@.len() == LINKS && seq_wf(
            c.links@,
            c.level,
        ),
    }
}

pub open spec fn seq_wf(s: Seq<GLink>, level: u64) -> bool
    decreases s,
{
    if s.len() == 0 {
        true
    } else {
        seq_wf(s.drop_last(), level) && link_wf(s.last(), level)
    }
}


proof fn lemma_seq_items_append(a: Seq<GLink>, b: Seq<GLink>, level: u64)
    ensures
        seq_items(a + b) == seq_items(a) + seq_items(b),
        seq_wf(a + b, level) == (seq_wf(a, level) && seq_wf(b, level)),
    decreases b.len(),
{
    if b.len() == 0 {
        assert(a + b =~= a);
        assert(seq_items(b) =~= Seq::<(bool, u64, u64)>::empty());
        assert(seq_items(a) + seq_items(b) =~= seq_items(a));
    } else {
        lemma_seq_items_append(a, b.drop_last(), level);
        assert((a + b).drop_last() =~= a + b.drop_last());
        assert((a + b).last() == b.last());
        assert(seq_items(a + b) =~= seq_items(a) + seq_items(b));
    }
}

proof fn lemma_seq_single(x: GLink, level: u64)
    ensures
        seq_items(seq![x]) == link_items(x),
        seq_wf(seq![x], level) == link_wf(x, level),
{
    assert(seq![x].drop_last() =~= Seq::<GLink>::empty());
    assert(seq![x].last() == x);
    assert(seq_wf(Seq::<GLink>::empty(), level));
    assert(seq_items(Seq::<GLink>::empty()) + link_items(x) =~= link_items(x));
}

/// Links split around position `i`.
proof fn lemma_seq_split(s: Seq<GLink>, i: int, level: u64)
    requires
        0 <= i < s.len(),
    ensures
        seq_items(s) == seq_items(s.take(i)) + link_items(s[i]) + seq_items(s.skip(i + 1)),
        seq_wf(s, level) == (seq_wf(s.take(i), level) && link_wf(s[i], level) && seq_wf(
            s.skip(i + 1),
            level,
        )),
{
    assert(s =~= s.take(i) + seq![s[i]] + s.skip(i + 1));
    lemma_seq_items_append(s.take(i) + seq![s[i]], s.skip(i + 1), level);
    lemma_seq_items_append(s.take(i), seq![s[i]], level);
    lemma_seq_single(s[i], level);
}

/// Replacing link `i` replaces its pages in place.
proof fn lemma_seq_update(s: Seq<GLink>, i: int, x: GLink, level: u64)
    requires
        0 <= i < s.len(),
    ensures
        seq_items(s.update(i, x)) == seq_items(s.take(i)) + link_items(x) + seq_items(
            s.skip(i + 1),
        ),
        seq_wf(s.update(i, x), level) == (seq_wf(s.take(i), level) && link_wf(x, level) && seq_wf(
            s.skip(i + 1),
            level,
        )),
{
    lemma_seq_split(s.update(i, x), i, level);
    assert(s.update(i, x).take(i) =~= s.take(i));
    assert(s.update(i, x).skip(i + 1) =~= s.skip(i + 1));
}

/// A well formed sequence has well formed links.
proof fn lemma_seq_wf_each(s: Seq<GLink>, level: u64, i: int)
    requires
        seq_wf(s, level),
        0 <= i < s.len(),
    ensures
        link_wf(s[i], level),
{
    lemma_seq_split(s, i, level);
}

/// Links that are all empty hold no pages.
proof fn lemma_seq_empty(s: Seq<GLink>, level: u64)
    requires
        forall|k: int| 0 <= k < s.len() ==> s[k] is Empty,
    ensures
        seq_items(s) == Seq::<(bool, u64, u64)>::empty(),
        seq_wf(s, level),
    decreases s.len(),
{
    if s.len() > 0 {
        lemma_seq_empty(s.drop_last(), level);
        assert(s.last() is Empty);
        assert(link_items(s.last()) =~= Seq::<(bool, u64, u64)>::empty());
        assert(link_wf(s.last(), level));
        assert(seq_items(s) =~= Seq::<(bool, u64, u64)>::empty());
    }
}


impl GHeader {
    /// Every page of the tree, depth first, this header's first.
    pub open spec fn items(&self) -> Seq<(bool, u64, u64)> {
        seq![(true, self.page, 0u64)] + seq_items(self.links@)
    }

    /// A header of `LINKS` links, each fitting its level.
    pub open spec fn wf(&self) -> bool {
        &&& self.level >= 1
        &&& self.links@.len() == LINKS
        &&& seq_wf(self.links@, self.level)
    }
}

/// Address `a` is a unit of the data page `page` marked in `mask`.
pub open spec fn unit_in(page: u64, mask: u64, a: u64) -> bool {
    &&& page <= a < page + 512
    &&& (a - page) % 8 == 0
    &&& bit_set(mask, ((a - page) / 8) as nat)
}

/// The units in use on the data pages of a list of pages.
pub open spec fn items_used(s: Seq<(bool, u64, u64)>) -> Set<u64> {
    Set::new(|a: u64| exists|k: int| 0 <= k < s.len() && !s[k].0 && #[trigger] unit_in(s[k].1, s[k].2, a))
}

/// The data pages of a list of pages.
pub open spec fn items_data(s: Seq<(bool, u64, u64)>) -> Set<u64> {
    Set::new(|p: u64| exists|k: int| 0 <= k < s.len() && !s[k].0 && #[trigger] s[k].1 == p)
}

/// The page addresses of a list of pages.
pub open spec fn items_pages(s: Seq<(bool, u64, u64)>) -> Seq<u64> {
    s.map_values(|it: (bool, u64, u64)| it.1)
}

/// Pages are distinct and page aligned, and none is free in `free`.
pub open spec fn items_held(s: Seq<(bool, u64, u64)>, free: Set<u64>) -> bool {
    &&& items_pages(s).no_duplicates()
    &&& forall|k: int| 0 <= k < s.len() ==> page_aligned(#[trigger] s[k].1 as int) && !free.contains(s[k].1)
}

/// Units `[first, first + n)` of the data page at `page`, those below the
/// 64th.
pub open spec fn unit_run(page: u64, first: nat, n: nat) -> Set<u64> {
    Set::new(
        |a: u64|
            page + 8 * first <= a < page + 8 * (first + n) && a < page + 512 && (a - page) % 8 == 0,
    )
}

proof fn lemma_items_append(a: Seq<(bool, u64, u64)>, b: Seq<(bool, u64, u64)>)
    ensures
        items_used(a + b) == items_used(a) + items_used(b),
        items_data(a + b) == items_data(a) + items_data(b),
        items_pages(a + b) == items_pages(a) + items_pages(b),
{
    let c = a + b;
    assert forall|x: u64| items_used(c).contains(x) <==> (items_used(a) + items_used(b)).contains(x) by {
        if items_used(c).contains(x) {
            let k = choose|k: int| 0 <= k < c.len() && !c[k].0 && #[trigger] unit_in(c[k].1, c[k].2, x);
            if k < a.len() {
                assert(a[k] == c[k]);
            } else {
                assert(b[k - a.len()] == c[k]);
            }
        }
        if items_used(a).contains(x) {
            let k = choose|k: int| 0 <= k < a.len() && !a[k].0 && #[trigger] unit_in(a[k].1, a[k].2, x);
            assert(c[k] == a[k]);
        }
        if items_used(b).contains(x) {
            let k = choose|k: int| 0 <= k < b.len() && !b[k].0 && #[trigger] unit_in(b[k].1, b[k].2, x);
            assert(c[k + a.len()] == b[k]);
        }
    }
    assert(items_used(c) =~= items_used(a) + items_used(b));
    assert forall|x: u64| items_data(c).contains(x) <==> (items_data(a) + items_data(b)).contains(x) by {
        if items_data(c).contains(x) {
            let k = choose|k: int| 0 <= k < c.len() && !c[k].0 && #[trigger] c[k].1 == x;
            if k < a.len() {
                assert(a[k] == c[k]);
            } else {
                assert(b[k - a.len()] == c[k]);
            }
        }
        if items_data(a).contains(x) {
            let k = choose|k: int| 0 <= k < a.len() && !a[k].0 && #[trigger] a[k].1 == x;
            assert(c[k] == a[k]);
        }
        if items_data(b).contains(x) {
            let k = choose|k: int| 0 <= k < b.len() && !b[k].0 && #[trigger] b[k].1 == x;
            assert(c[k + a.len()] == b[k]);
        }
    }
    assert(items_data(c) =~= items_data(a) + items_data(b));
    assert(items_pages(c) =~= items_pages(a) + items_pages(b));
}

/// Two page aligned pages whose first 512 bytes meet are the same page.
proof fn lemma_same_page(p: u64, q: u64, a: u64)
    requires
        page_aligned(p as int),
        page_aligned(q as int),
        p <= a < p + 512,
        q <= a < q + 512,
    ensures
        p == q,
{
    assert(p % 4096 == 0 && q % 4096 == 0);
    if p < q {
        assert(q - p >= 4096) by (nonlinear_arith)
            requires
                p % 4096 == 0,
                q % 4096 == 0,
                p < q,
        ;
    } else if q < p {
        assert(p - q >= 4096) by (nonlinear_arith)
            requires
                p % 4096 == 0,
                q % 4096 == 0,
                q < p,
        ;
    }
}

/// A unit in use lies on a data page of the list.
proof fn lemma_used_on_page(s: Seq<(bool, u64, u64)>, a: u64) -> (k: int)
    requires
        items_used(s).contains(a),
    ensures
        0 <= k < s.len(),
        !s[k].0,
        s[k].1 <= a < s[k].1 + 512,
        items_data(s).contains(s[k].1),
{
    let k = choose|k: int| 0 <= k < s.len() && !s[k].0 && #[trigger] unit_in(s[k].1, s[k].2, a);
    assert(s[k].1 == s[k].1);
    k
}

/// Units on a data page of one part of a list of held pages are not in use
/// in the other parts.
proof fn lemma_page_apart(
    x: Seq<(bool, u64, u64)>,
    y: Seq<(bool, u64, u64)>,
    z: Seq<(bool, u64, u64)>,
    free: Set<u64>,
    p: u64,
    r: Set<u64>,
)
    requires
        items_held(x + y + z, free),
        items_data(y).contains(p),
        forall|a: u64| #[trigger] r.contains(a) ==> p <= a < p + 512,
    ensures
        r.disjoint(items_used(x)),
        r.disjoint(items_used(z)),
{
    let s = x + y + z;
    let ky = choose|k: int| 0 <= k < y.len() && !y[k].0 && #[trigger] y[k].1 == p;
    let iy = x.len() + ky;
    assert(s[iy] == y[ky]);
    assert forall|a: u64| r.contains(a) implies !items_used(x).contains(a) by {
        if items_used(x).contains(a) {
            let k = lemma_used_on_page(x, a);
            assert(s[k] == x[k]);
            lemma_same_page(p, x[k].1, a);
            assert(items_pages(s)[k] == items_pages(s)[iy]);
        }
    }
    assert forall|a: u64| r.contains(a) implies !items_used(z).contains(a) by {
        if items_used(z).contains(a) {
            let k = lemma_used_on_page(z, a);
            let iz = x.len() + y.len() + k;
            assert(s[iz] == z[k]);
            lemma_same_page(p, z[k].1, a);
            assert(items_pages(s)[iz] == items_pages(s)[iy]);
        }
    }
}


/// Replacing the middle part of a list of held pages by pages that were in
/// it or were free keeps the pages held.
proof fn lemma_replace_held(
    x: Seq<(bool, u64, u64)>,
    y: Seq<(bool, u64, u64)>,
    z: Seq<(bool, u64, u64)>,
    y2: Seq<(bool, u64, u64)>,
    free1: Set<u64>,
    free2: Set<u64>,
)
    requires
        items_held(x + y + z, free1),
        items_held(y2, free2),
        free2.subset_of(free1),
        forall|q: u64|
            items_pages(y2).contains(q) ==> items_pages(y).contains(q) || (free1.contains(q)
                && !free2.contains(q)),
    ensures
        items_held(x + y2 + z, free2),
        items_pages(x + y2 + z).to_set() == items_pages(x).to_set() + items_pages(y2).to_set()
            + items_pages(z).to_set(),
        items_pages(x + y + z).to_set() == items_pages(x).to_set() + items_pages(y).to_set()
            + items_pages(z).to_set(),
{
    let s = x + y + z;
    let t = x + y2 + z;
    lemma_items_append(x, y);
    lemma_items_append(x + y, z);
    lemma_items_append(x, y2);
    lemma_items_append(x + y2, z);
    let ps = items_pages(s);
    let pt = items_pages(t);
    assert(ps =~= items_pages(x) + items_pages(y) + items_pages(z));
    assert(pt =~= items_pages(x) + items_pages(y2) + items_pages(z));
    // Where a page of the new list sits in the old one, if anywhere.
    assert forall|i: int, j: int| 0 <= i < pt.len() && 0 <= j < pt.len() && i != j implies pt[i]
        != pt[j] by {
        let lx = x.len() as int;
        let ly2 = y2.len() as int;
        let ly = y.len() as int;
        let old_index = |k: int|
            if k < lx {
                k
            } else if k < lx + ly2 {
                -1
            } else {
                k - ly2 + ly
            };
        if pt[i] == pt[j] {
            let in_mid_i = lx <= i < lx + ly2;
            let in_mid_j = lx <= j < lx + ly2;
            if !in_mid_i && !in_mid_j {
                assert(ps[old_index(i)] == pt[i]);
                assert(ps[old_index(j)] == pt[j]);
            } else if in_mid_i && in_mid_j {
                assert(items_pages(y2)[i - lx] == pt[i]);
                assert(items_pages(y2)[j - lx] == pt[j]);
            } else {
                let (m, o) = if in_mid_i {
                    (i, j)
                } else {
                    (j, i)
                };
                let q = pt[m];
                assert(items_pages(y2)[m - lx] == q);
                assert(items_pages(y2).contains(q));
                assert(ps[old_index(o)] == pt[o]);
                assert(s[old_index(o)].1 == q);
                if items_pages(y).contains(q) {
                    let jy = choose|jy: int| 0 <= jy < items_pages(y).len() && items_pages(y)[jy] == q;
                    assert(ps[lx + jy] == q);
                } else {
                    assert(free1.contains(q));
                }
            }
        }
    }
    assert forall|k: int| 0 <= k < t.len() implies page_aligned(#[trigger] t[k].1 as int)
        && !free2.contains(t[k].1) by {
        let lx = x.len() as int;
        let ly2 = y2.len() as int;
        let ly = y.len() as int;
        if k < lx {
            assert(t[k] == s[k]);
        } else if k < lx + ly2 {
            assert(t[k] == y2[k - lx]);
        } else {
            assert(t[k] == s[k - ly2 + ly]);
        }
    }
    vstd::seq_lib::seq_to_set_distributes_over_add(items_pages(x), items_pages(y2));
    vstd::seq_lib::seq_to_set_distributes_over_add(items_pages(x) + items_pages(y2), items_pages(z));
    vstd::seq_lib::seq_to_set_distributes_over_add(items_pages(x), items_pages(y));
    vstd::seq_lib::seq_to_set_distributes_over_add(items_pages(x) + items_pages(y), items_pages(z));
}


/// Bit `c` of a mask of `n` low bits is set exactly below `n`.
proof fn lemma_low_mask_bit(n: nat, c: nat)
    requires
        c < 64,
    ensures
        bit_set(low_mask(n), c) == (c < n),
{
    let cc = c as u64;
    if n >= 64 {
        assert((u64::MAX >> cc) & 1 == 1) by (bit_vector)
            requires
                cc < 64,
        ;
    } else {
        let nn = n as u64;
        vstd::bits::lemma_u64_pow2_no_overflow(n);
        vstd::bits::lemma_u64_shl_is_mul(1, nn);
        let x = low_mask(n);
        assert(x == (1u64 << nn) - 1);
        assert(((((1u64 << nn) - 1) as u64 >> cc) & 1 == 1) == (cc < nn)) by (bit_vector)
            requires
                cc < 64,
                nn < 64,
        ;
    }
}

/// Setting the `n` bits from `i` on.
proof fn lemma_mark_bits(mask: u64, n: nat, i: u64, b: nat)
    requires
        i < 64,
        b < 64,
    ensures
        bit_set(mask | (low_mask(n) << i), b) == (bit_set(mask, b) || (i <= b < i + n)),
{
    let y = low_mask(n);
    let bb = b as u64;
    assert((((mask | (y << i)) >> bb) & 1 == 1) == (((mask >> bb) & 1 == 1) || (bb >= i && ((y
        >> ((bb - i) as u64)) & 1 == 1)))) by (bit_vector)
        requires
            i < 64,
            bb < 64,
    ;
    if b >= i {
        lemma_low_mask_bit(n, (b - i) as nat);
    }
}

/// Clearing the `n` bits from `i` on.
proof fn lemma_clear_bits(mask: u64, n: nat, i: u64, b: nat)
    requires
        i < 64,
        b < 64,
    ensures
        bit_set(mask & !(low_mask(n) << i), b) == (bit_set(mask, b) && !(i <= b < i + n)),
{
    let y = low_mask(n);
    let bb = b as u64;
    assert((((mask & !(y << i)) >> bb) & 1 == 1) == (((mask >> bb) & 1 == 1) && !(bb >= i && ((y
        >> ((bb - i) as u64)) & 1 == 1)))) by (bit_vector)
        requires
            i < 64,
            bb < 64,
    ;
    if b >= i {
        lemma_low_mask_bit(n, (b - i) as nat);
    }
}

/// A clear run has none of its bits set.
proof fn lemma_run_clear_bits(mask: u64, i: u64, n: nat, b: nat)
    requires
        run_clear(mask, i as nat, n),
        i <= b < i + n,
        b < 64,
    ensures
        !bit_set(mask, b),
{
    let y = low_mask(n);
    let bb = b as u64;
    lemma_low_mask_bit(n, (b - i) as nat);
    assert(((mask >> i) & y == 0 && ((y >> ((bb - i) as u64)) & 1 == 1)) ==> (mask >> bb) & 1 != 1)
        by (bit_vector)
        requires
            i <= bb < 64,
    ;
}


/// The units marked in `mask` on the data page at `page`.
pub open spec fn page_units(page: u64, mask: u64) -> Set<u64> {
    Set::new(|a: u64| unit_in(page, mask, a))
}

proof fn lemma_single_item(it: (bool, u64, u64))
    ensures
        items_used(seq![it]) == if it.0 {
            Set::<u64>::empty()
        } else {
            page_units(it.1, it.2)
        },
        items_data(seq![it]) == if it.0 {
            Set::<u64>::empty()
        } else {
            set![it.1]
        },
        items_pages(seq![it]) == seq![it.1],
{
    let s = seq![it];
    assert(s[0] == it);
    assert(items_used(s) =~= if it.0 {
        Set::<u64>::empty()
    } else {
        page_units(it.1, it.2)
    });
    assert(items_data(s) =~= if it.0 {
        Set::<u64>::empty()
    } else {
        set![it.1]
    });
    assert(items_pages(s) =~= seq![it.1]);
}

proof fn lemma_no_items()
    ensures
        items_used(Seq::<(bool, u64, u64)>::empty()) == Set::<u64>::empty(),
        items_data(Seq::<(bool, u64, u64)>::empty()) == Set::<u64>::empty(),
        items_pages(Seq::<(bool, u64, u64)>::empty()) == Seq::<u64>::empty(),
{
    assert(items_used(Seq::<(bool, u64, u64)>::empty()) =~= Set::<u64>::empty());
    assert(items_data(Seq::<(bool, u64, u64)>::empty()) =~= Set::<u64>::empty());
    assert(items_pages(Seq::<(bool, u64, u64)>::empty()) =~= Seq::<u64>::empty());
}

/// Where unit `a` of a page sits in its mask.
proof fn lemma_unit_index(page: u64, a: u64)
    requires
        page <= a < page + 512,
        (a - page) % 8 == 0,
    ensures
        ((a - page) / 8) < 64,
        a == page + 8 * ((a - page) / 8),
{
}

/// Marking a run of a page's mask adds that run to its units.
proof fn lemma_mark_units(page: u64, mask: u64, n: nat, i: u64)
    requires
        i < 64,
    ensures
        page_units(page, mask | (low_mask(n) << i)) == page_units(page, mask) + unit_run(
            page,
            i as nat,
            n,
        ),
{
    let m2 = mask | (low_mask(n) << i);
    assert forall|a: u64| page_units(page, m2).contains(a) <==> (page_units(page, mask) + unit_run(
        page,
        i as nat,
        n,
    )).contains(a) by {
        if page <= a < page + 512 && (a - page) % 8 == 0 {
            lemma_unit_index(page, a);
            lemma_mark_bits(mask, n, i, ((a - page) / 8) as nat);
        }
    }
    assert(page_units(page, m2) =~= page_units(page, mask) + unit_run(page, i as nat, n));
}

/// Clearing a run of a page's mask removes that run from its units.
proof fn lemma_clear_units(page: u64, mask: u64, n: nat, i: u64)
    requires
        i < 64,
    ensures
        page_units(page, mask & !(low_mask(n) << i)) == page_units(page, mask) - unit_run(
            page,
            i as nat,
            n,
        ),
{
    let m2 = mask & !(low_mask(n) << i);
    assert forall|a: u64| page_units(page, m2).contains(a) <==> (page_units(page, mask) - unit_run(
        page,
        i as nat,
        n,
    )).contains(a) by {
        if page <= a < page + 512 && (a - page) % 8 == 0 {
            lemma_unit_index(page, a);
            lemma_clear_bits(mask, n, i, ((a - page) / 8) as nat);
        }
    }
    assert(page_units(page, m2) =~= page_units(page, mask) - unit_run(page, i as nat, n));
}

/// A clear run of a mask holds none of its units.
proof fn lemma_clear_run_fresh(page: u64, mask: u64, n: nat, i: u64)
    requires
        i < 64,
        run_clear(mask, i as nat, n),
    ensures
        unit_run(page, i as nat, n).disjoint(page_units(page, mask)),
{
    assert forall|a: u64| unit_run(page, i as nat, n).contains(a) implies !page_units(
        page,
        mask,
    ).contains(a) by {
        lemma_unit_index(page, a);
        lemma_run_clear_bits(mask, i, n, ((a - page) / 8) as nat);
    }
}


/// A page aligned address leaves room for a page above it.
proof fn lemma_page_room(p: u64)
    requires
        page_aligned(p as int),
    ensures
        p + 4096 <= 0x1_0000_0000_0000_0000,
{
    assert(p % 4096 == 0);
    assert(p + 4096 <= 0x1_0000_0000_0000_0000) by (nonlinear_arith)
        requires
            p % 4096 == 0,
            p < 0x1_0000_0000_0000_0000,
    ;
}

/// The pages taken from the pool, those of `free1` not in `free2`, all lie
/// below every page still free: the pool hands out its lowest pages.
pub open spec fn took_lowest(free1: Set<u64>, free2: Set<u64>) -> bool {
    forall|x: u64, y: u64|
        #![trigger free1.contains(x), free2.contains(y)]
        free1.contains(x) && !free2.contains(x) && free2.contains(y) ==> x < y
}

/// Unit `i` of page `p` starts the first run of `units` units, at a
/// multiple of that count, that holds no unit of `used`.
pub open spec fn first_clear_run(used: Set<u64>, p: u64, i: nat, units: nat) -> bool {
    forall|j: nat| j < i && j % units == 0 ==> !#[trigger] unit_run(p, j, units).disjoint(used)
}

/// Page `p` is one of the data pages `data`, or the last page taken from
/// the pool, the highest of those taken.
pub open spec fn old_or_last(data: Set<u64>, free1: Set<u64>, free2: Set<u64>, p: u64) -> bool {
    ||| data.contains(p)
    ||| free1.contains(p) && !free2.contains(p) && forall|x: u64|
        #[trigger] free1.contains(x) && !free2.contains(x) ==> x <= p
}

/// Facts on shifts and masks of 64 bit words.
proof fn lemma_shift_facts(x: u64, c: u64, m: u64, j: u64, lm: u64)
    by (bit_vector)
    ensures
        x != 0 && x & 1 != 1 ==> (x >> 1u64) != 0 && (x >> 1u64) < x,
        ((x >> 1u64) >> 63u64) & 1 != 1,
        c < 63 && ((x >> 1u64) >> c) & 1 == 1 ==> (x >> (c + 1)) & 1 == 1,
        x & 1 == 1 ==> (x >> 0u64) & 1 == 1,
        j < 64 && c < 64 && j + c < 64 && (((m >> j) & lm) >> c) & 1 == 1 ==> (m >> (j + c)) & 1
            == 1,
        (((m >> j) & lm) >> c) & 1 == 1 ==> (lm >> c) & 1 == 1,
{
}

/// A word that is not zero has a set bit.
proof fn lemma_nonzero_bit(x: u64) -> (c: nat)
    requires
        x != 0,
    ensures
        c < 64,
        bit_set(x, c),
    decreases x,
{
    lemma_shift_facts(x, 0, 0, 0, 0);
    if x & 1 == 1 {
        0
    } else {
        let y = x >> 1u64;
        let c = lemma_nonzero_bit(y);
        let cc = c as u64;
        lemma_shift_facts(x, cc, 0, 0, 0);
        (c + 1) as nat
    }
}

/// A run that is not clear in the mask of a data page meets its units.
proof fn lemma_unclear_run_used(page: u64, mask: u64, j: nat, n: nat)
    requires
        !run_clear(mask, j, n),
        j + n <= 64,
        n >= 1,
        page + 512 <= 0x1_0000_0000_0000_0000,
    ensures
        !unit_run(page, j, n).disjoint(page_units(page, mask)),
{
    let lm = low_mask(n);
    let jj = j as u64;
    let y = (mask >> jj) & lm;
    let c = lemma_nonzero_bit(y);
    let cc = c as u64;
    lemma_shift_facts(0, cc, mask, jj, lm);
    lemma_low_mask_bit(n, c);
    assert(c < n);
    let a = (page + 8 * (j + c)) as u64;
    assert(bit_set(mask, j + c));
    assert(unit_run(page, j, n).contains(a));
    assert(page_units(page, mask).contains(a));
}

/// The pages of a header whose link under pages `pc` grew to `pc2` by the
/// pages taken from `f1`, leaving `f2`.
proof fn lemma_pages_step(
    ph0: Set<u64>,
    px: Set<u64>,
    pc: Set<u64>,
    pc2: Set<u64>,
    pz: Set<u64>,
    free0: Set<u64>,
    f1: Set<u64>,
    f2: Set<u64>,
)
    requires
        px + pc + pz == ph0 + (free0 - f1),
        pc2 == pc + (f1 - f2),
        f2.subset_of(f1),
        f1.subset_of(free0),
    ensures
        px + pc2 + pz == ph0 + (free0 - f2),
{
    assert forall|q: u64| (px + pc2 + pz).contains(q) <==> (ph0 + (free0 - f2)).contains(q) by {
        if px.contains(q) || pc.contains(q) || pz.contains(q) {
            assert((ph0 + (free0 - f1)).contains(q));
        }
        if ph0.contains(q) {
            assert((px + pc + pz).contains(q));
        }
        if free0.contains(q) && !f2.contains(q) {
            if f1.contains(q) {
                assert(pc2.contains(q));
            } else {
                assert((ph0 + (free0 - f1)).contains(q));
                assert((px + pc + pz).contains(q));
            }
        }
    }
    assert(px + pc2 + pz =~= ph0 + (free0 - f2));
}

/// Facts that hold of fewer used units hold of more.
proof fn lemma_first_clear_run_grow(a: Set<u64>, b: Set<u64>, p: u64, i: nat, units: nat)
    requires
        first_clear_run(a, p, i, units),
        a.subset_of(b),
    ensures
        first_clear_run(b, p, i, units),
{
    assert forall|j: nat| j < i && j % units == 0 implies !#[trigger] unit_run(p, j, units).disjoint(b) by {
        assert(!unit_run(p, j, units).disjoint(a));
        let x = choose|x: u64| unit_run(p, j, units).contains(x) && a.contains(x);
        assert(b.contains(x));
    }
}

/// Taking the lowest pages twice takes the lowest pages.
proof fn lemma_took_lowest_trans(f0: Set<u64>, f1: Set<u64>, f2: Set<u64>)
    requires
        took_lowest(f0, f1),
        took_lowest(f1, f2),
        f2.subset_of(f1),
        f1.subset_of(f0),
    ensures
        took_lowest(f0, f2),
{
    assert forall|x: u64, y: u64|
        f0.contains(x) && !f2.contains(x) && f2.contains(y) implies x < y by {
        assert(f1.contains(y));
        if f1.contains(x) {
        }
    }
}

/// What walking header `h` to allocate `size` bytes leaves, the pool's free
/// pages going from `free1` to `free2`: pages taken from the pool are added
/// to the tree; on success a run of `request_units(size)` units that was not
/// in use, at a multiple of that count on one of its data pages, is in use;
/// on failure the units in use are unchanged. `GNoSpace` comes when `h` has
/// no unused link and no room below, `OutOfPages` when the pool ran out.
pub open spec fn alloc_walked(
    h: GHeader,
    h2: GHeader,
    free1: Set<u64>,
    free2: Set<u64>,
    size: nat,
    r: Result<u64, VmError>,
) -> bool {
    &&& h2.wf()
    &&& h2.page == h.page
    &&& h2.level == h.level
    &&& free2.subset_of(free1)
    &&& took_lowest(free1, free2)
    &&& items_held(h2.items(), free2)
    &&& items_pages(h2.items()).to_set() == items_pages(h.items()).to_set() + (free1 - free2)
    &&& match r {
        Ok(a) => exists|p: u64, i: nat|
            #![trigger unit_run(p, i, request_units(size))]
            {
                &&& items_data(h2.items()).contains(p)
                &&& i < 64
                &&& i % request_units(size) == 0
                &&& a == p + 8 * i
                &&& unit_run(p, i, request_units(size)).disjoint(items_used(h.items()))
                &&& items_used(h2.items()) == items_used(h.items()) + unit_run(
                    p,
                    i,
                    request_units(size),
                )
                &&& first_clear_run(items_used(h.items()), p, i, request_units(size))
                &&& old_or_last(items_data(h.items()), free1, free2, p)
            },
        Err(e) => {
            &&& items_used(h2.items()) == items_used(h.items())
            &&& items_data(h2.items()) == items_data(h.items())
            &&& e == VmError::GNoSpace || e == VmError::OutOfPages
            &&& e == VmError::GNoSpace ==> forall|k: int|
                0 <= k < h.links@.len() ==> !(#[trigger] h.links@[k] is Empty)
            &&& e == VmError::GNoSpace ==> free2 == free1 || (free2 == Set::<u64>::empty()
                && free1.len() < h.level)
            &&& e == VmError::OutOfPages ==> free2 == Set::<u64>::empty() && free1.len() < h.level
        },
    }
}

/// Units a request of `size` bytes takes, computed.
fn units_for(size: u64) -> (u: u64)
    requires
        1 <= size <= 4096,
    ensures
        u == request_units(size as nat),
        1 <= u <= 1024,
{
    let r = round_up(size);
    if r / 8 == 0 {
        1
    } else {
        r / 8
    }
}

/// No run of `units` bits of `mask` before bit `i`, at a multiple of
/// `units`, is clear.
pub open spec fn first_clear_bits(mask: u64, i: nat, units: nat) -> bool {
    forall|j: nat| j < i && j % units == 0 ==> !#[trigger] run_clear(mask, j, units)
}

/// A link that is not a data page with a clear run of `units` units at a
/// multiple of `units` among its first 64.
pub open spec fn no_room(l: GLink, units: nat) -> bool {
    l matches GLink::Data { page, mask } ==> first_clear_bits(mask, 64, units)
}

/// Scan the links of a level 1 header for the first data page with a run
/// that fits `size` bytes, and the first unused link.
fn leaf_scan(h: &GHeader, size: u64, units: u64) -> (r: (Option<(usize, u64)>, Option<usize>))
    requires
        h.wf(),
        h.level == 1,
        1 <= size <= 4096,
        units == request_units(size as nat),
    ensures
        r.0 is None ==> r.1 is None ==> forall|k: int| 0 <= k < LINKS ==> !(#[trigger] h.links@[k] is Empty),
        r.0 matches Some((k, idx)) ==> {
            &&& k < LINKS
            &&& idx < 64
            &&& idx % units == 0
            &&& h.links@[k as int] matches GLink::Data { page, mask } && run_clear(
                mask,
                idx as nat,
                units as nat,
            ) && first_clear_bits(mask, idx as nat, units as nat)
            &&& forall|k2: int| 0 <= k2 < k ==> no_room(#[trigger] h.links@[k2], units as nat)
        },
        r.0 is None ==> forall|k2: int| 0 <= k2 < LINKS ==> no_room(#[trigger] h.links@[k2], units as nat),
        r.1 matches Some(o) ==> o < LINKS && h.links@[o as int] is Empty && forall|k2: int|
            0 <= k2 < o ==> !(#[trigger] h.links@[k2] is Empty),
{
    let mut found: Option<(usize, u64)> = None;
    let mut open: Option<usize> = None;
    let mut i: usize = 0;
    while i < LINKS && found.is_none()
        invariant
            h.wf(),
            1 <= size <= 4096,
            units == request_units(size as nat),
            i <= LINKS,
            found.is_none() ==> forall|k: int|
                0 <= k < i && open.is_none() ==> !(#[trigger] h.links@[k] is Empty),
            found matches Some((k, idx)) ==> {
                &&& k < LINKS
                &&& idx < 64
                &&& idx % units == 0
                &&& h.links@[k as int] matches GLink::Data { page, mask } && run_clear(
                    mask,
                    idx as nat,
                    units as nat,
                ) && first_clear_bits(mask, idx as nat, units as nat)
                &&& forall|k2: int| 0 <= k2 < k ==> no_room(#[trigger] h.links@[k2], units as nat)
            },
            found.is_none() ==> forall|k2: int| 0 <= k2 < i ==> no_room(#[trigger] h.links@[k2], units as nat),
            open matches Some(o) ==> o < LINKS && h.links@[o as int] is Empty && forall|k2: int|
                0 <= k2 < o ==> !(#[trigger] h.links@[k2] is Empty),
        decreases LINKS - i,
    {
        match &h.links[i] {
            GLink::Empty => {
                if open.is_none() {
                    open = Some(i);
                }
            },
            GLink::Data { page: _, mask } => {
                match search_data_layer(size, *mask) {
                    Some(idx) => {
                        found = Some((i, idx));
                    },
                    None => {},
                }
            },
            GLink::Down(_) => {},
        }
        i = i + 1;
    }
    (found, open)
}

/// Level 1 header `h2` is `h` with `size` bytes put at `a` in data link
/// `k`, at unit `i`, the first clear run of that page, while no data link
/// before `k` has room.
pub open spec fn leaf_slot(h: GHeader, h2: GHeader, k: int, i: nat, size: nat, a: u64) -> bool {
    let units = request_units(size);
    &&& 0 <= k < LINKS
    &&& i < 64
    &&& i % units == 0
    &&& h.links@[k] matches GLink::Data { page, mask } && run_clear(mask, i, units)
        && first_clear_bits(mask, i, units) && a == page + 8 * i && h2.links@ == h.links@.update(
        k,
        GLink::Data { page, mask: mask | (low_mask(units) << (i as u64)) },
    )
    &&& forall|k2: int| 0 <= k2 < k ==> no_room(#[trigger] h.links@[k2], units)
}

/// Level 1 header `h2` is `h` with a new data page at `a`, the lowest free
/// page, in unused link `o`, the first unused one, its first units taken;
/// no data link of `h` had room.
pub open spec fn leaf_new_page(h: GHeader, h2: GHeader, free1: Set<u64>, o: int, size: nat, a: u64) -> bool {
    let units = request_units(size);
    &&& 0 <= o < LINKS
    &&& h.links@[o] is Empty
    &&& forall|k2: int| 0 <= k2 < o ==> !(#[trigger] h.links@[k2] is Empty)
    &&& forall|k2: int| 0 <= k2 < LINKS ==> no_room(#[trigger] h.links@[k2], units)
    &&& free1.contains(a)
    &&& forall|x: u64| #[trigger] free1.contains(x) ==> a <= x
    &&& h2.links@ == h.links@.update(o, GLink::Data { page: a, mask: low_mask(units) })
}

/// Where a level 1 header puts `size` bytes: in the first data link with a
/// clear run, at that page's first clear run; or, when no data link has
/// room, on a new data page, the lowest free page, in the first unused
/// link.
pub open spec fn leaf_placed(h: GHeader, h2: GHeader, free1: Set<u64>, size: nat, a: u64) -> bool {
    ||| exists|k: int, i: nat| #[trigger] leaf_slot(h, h2, k, i, size, a)
    ||| exists|o: int| #[trigger] leaf_new_page(h, h2, free1, o, size, a)
}

/// Allocate under a level 1 header: the first data page with a free run
/// that fits, else a new data page from the pool in the first unused link.
#[verifier::rlimit(40)]
fn alloc_in_leaf(pool: &mut PagePool, size: u64, h: GHeader) -> (r: (GHeader, Result<u64, VmError>))
    requires
        h.wf(),
        h.level == 1,
        old(pool).wf(),
        items_held(h.items(), old(pool).free()),
        1 <= size <= 4096,
    ensures
        final(pool).wf(),
        final(pool).bottom() == old(pool).bottom(),
        final(pool).top() == old(pool).top(),
        alloc_walked(h, r.0, old(pool).free(), final(pool).free(), size as nat, r.1),
        r.1 matches Ok(a) ==> leaf_placed(h, r.0, old(pool).free(), size as nat, a),
{
    let ghost h0 = h;
    let mut t = h;
    let units = units_for(size);
    let (found, open) = leaf_scan(&t, size, units);
    proof {
        lemma_seq_wf_each(h0.links@, 1, 0);
    }
    match found {
        Some((k, idx)) => {
            let (page, mask) = match &t.links[k] {
                GLink::Data { page, mask } => (*page, *mask),
                _ => (0, 0),
            };
            let m2 = mask | (make_mask(units) << idx);
            let ghost s = h0.links@;
            let ghost old_link = s[k as int];
            let new_link = GLink::Data { page, mask: m2 };
            proof {
                lemma_seq_split(s, k as int, 1);
                lemma_seq_update(s, k as int, new_link, 1);
            }
            t.links.set(k, new_link);
            proof {
                let x = seq![(true, h0.page, 0u64)] + seq_items(s.take(k as int));
                let z = seq_items(s.skip(k as int + 1));
                let y = seq![(false, page, mask)];
                let y2 = seq![(false, page, m2)];
                assert(link_items(old_link) == y);
                assert(h0.items() =~= x + y + z);
                assert(t.items() =~= x + y2 + z);
                lemma_single_item((false, page, mask));
                lemma_single_item((false, page, m2));
                assert(items_pages(y)[0] == page);
                let free = old(pool).free();
                assert(h0.items()[x.len() as int] == (false, page, mask));
                assert(page_aligned(page as int));
                assert(!free.contains(page));
                lemma_replace_held(x, y, z, y2, free, free);
                lemma_items_append(x, y);
                lemma_items_append(x + y, z);
                lemma_items_append(x, y2);
                lemma_items_append(x + y2, z);
                lemma_mark_units(page, mask, units as nat, idx);
                let run = unit_run(page, idx as nat, units as nat);
                lemma_clear_run_fresh(page, mask, units as nat, idx);
                assert(items_data(y).contains(page));
                lemma_page_apart(x, y, z, free, page, run);
                assert(items_used(t.items()) =~= items_used(h0.items()) + run);
                assert(items_data(t.items()).contains(page));
                lemma_page_room(page);
                assert(free - free =~= Set::<u64>::empty());
                assert(items_data(h0.items()).contains(page));
                assert(page_units(page, mask).subset_of(items_used(h0.items())));
                assert forall|j: nat| j < idx && j % (units as nat) == 0 implies !#[trigger] unit_run(
                    page,
                    j,
                    units as nat,
                ).disjoint(items_used(h0.items())) by {
                    assert(j + units <= idx) by (nonlinear_arith)
                        requires
                            j < idx,
                            j % (units as nat) == 0,
                            idx % units == 0,
                            units >= 1,
                    ;
                    assert(!run_clear(mask, j, units as nat));
                    lemma_unclear_run_used(page, mask, j, units as nat);
                    let q = choose|q: u64| unit_run(page, j, units as nat).contains(q) && page_units(
                        page,
                        mask,
                    ).contains(q);
                    assert(items_used(h0.items()).contains(q));
                }
                assert(leaf_slot(h0, t, k as int, idx as nat, size as nat, (page + 8 * idx) as u64));
                assert(items_pages(t.items()).to_set() =~= items_pages(h0.items()).to_set() + (free
                    - free));
            }
            (t, Ok(page + 8 * idx))
        },
        None => {
            match open {
                None => {
                    proof {
                        lemma_nothing_taken(items_pages(h.items()).to_set(), old(pool).free());
                    }
                    (t, Err(VmError::GNoSpace))
                },
                Some(o) => {
                    let ghost p0 = *pool;
                    match pool.palloc() {
                        Err(e) => {
                            proof {
                                p0.lemma_free_finite();
                                lemma_nothing_taken(items_pages(h.items()).to_set(), old(pool).free());
                            }
                            (t, Err(e))
                        },
                        Ok(pg) => {
                            let page = pg.addr;
                            let m = make_mask(units);
                            let ghost s = h0.links@;
                            let new_link = GLink::Data { page, mask: m };
                            proof {
                                lemma_seq_split(s, o as int, 1);
                                lemma_seq_update(s, o as int, new_link, 1);
                            }
                            t.links.set(o, new_link);
                            proof {
                                let x = seq![(true, h0.page, 0u64)] + seq_items(s.take(o as int));
                                let z = seq_items(s.skip(o as int + 1));
                                let y = Seq::<(bool, u64, u64)>::empty();
                                let y2 = seq![(false, page, m)];
                                assert(link_items(s[o as int]) == y);
                                assert(h0.items() =~= x + y + z);
                                assert(t.items() =~= x + y2 + z);
                                lemma_no_items();
                                lemma_single_item((false, page, m));
                                let free1 = p0.free();
                                let free2 = pool.free();
                                p0.lemma_free_in_bounds(page);
                                assert(items_pages(y2) =~= seq![page]);
                                assert(items_held(y2, free2));
                                lemma_replace_held(x, y, z, y2, free1, free2);
                                lemma_items_append(x, y);
                                lemma_items_append(x + y, z);
                                lemma_items_append(x, y2);
                                lemma_items_append(x + y2, z);
                                assert(m == 0u64 | (low_mask(units as nat) << 0u64)) by {
                                    let lm = low_mask(units as nat);
                                    assert(lm == 0u64 | (lm << 0u64)) by (bit_vector);
                                }
                                lemma_mark_units(page, 0, units as nat, 0);
                                assert(page_units(page, 0) =~= Set::<u64>::empty()) by {
                                    assert forall|b: nat| b < 64 implies !bit_set(0, b) by {
                                        let bb = b as u64;
                                        assert((0u64 >> bb) & 1 == 0) by (bit_vector);
                                    }
                                }
                                let run = unit_run(page, 0, units as nat);
                                assert(page_units(page, m) =~= run);
                                assert(items_data(y2).contains(page));
                                lemma_page_apart(x, y2, z, free2, page, run);
                                assert(items_used(t.items()) =~= items_used(h0.items()) + run);
                                assert(items_data(t.items()).contains(page));
                                assert(free1 - free2 =~= set![page]);
                                lemma_single_to_set(page);
                                assert(items_pages(h0.items()).to_set() =~= items_pages(x).to_set()
                                    + items_pages(z).to_set());
                                assert(items_pages(t.items()).to_set() =~= items_pages(h0.items()).to_set()
                                    + (free1 - free2));
                                assert(page == page + 8 * 0);
                                assert(leaf_new_page(h0, t, free1, o as int, size as nat, page));
                            }
                            (t, Ok(page))
                        },
                    }
                },
            }
        },
    }
}


proof fn lemma_single_to_set(p: u64)
    ensures
        seq![p].to_set() == set![p],
{
    assert forall|q: u64| seq![p].to_set().contains(q) <==> set![p].contains(q) by {
        assert(seq![p][0] == p);
        if seq![p].contains(q) {
            let i = choose|i: int| 0 <= i < 1 && seq![p][i] == q;
        }
    }
    assert(seq![p].to_set() =~= set![p]);
}


/// Taking no page from the pool leaves the pages as they are.
proof fn lemma_nothing_taken(pages: Set<u64>, free: Set<u64>)
    ensures
        pages + (free - free) == pages,
{
    assert(pages + (free - free) =~= pages);
}


/// The middle part of a list of held pages is held.
proof fn lemma_held_part(
    x: Seq<(bool, u64, u64)>,
    y: Seq<(bool, u64, u64)>,
    z: Seq<(bool, u64, u64)>,
    free: Set<u64>,
)
    requires
        items_held(x + y + z, free),
    ensures
        items_held(y, free),
{
    let s = x + y + z;
    lemma_items_append(x, y);
    lemma_items_append(x + y, z);
    let ps = items_pages(s);
    let py = items_pages(y);
    assert forall|i: int, j: int| 0 <= i < py.len() && 0 <= j < py.len() && i != j implies py[i]
        != py[j] by {
        assert(ps[x.len() + i] == py[i]);
        assert(ps[x.len() + j] == py[j]);
    }
    assert forall|k: int| 0 <= k < y.len() implies page_aligned(#[trigger] y[k].1 as int)
        && !free.contains(y[k].1) by {
        assert(s[x.len() + k] == y[k]);
    }
}

/// Replacing the middle part `y` of a list of held pages by `y2`, whose
/// pages were in `y` or were taken from the pool, with a run of units added
/// (`ok`) or the units unchanged.
proof fn lemma_lift_alloc(
    x: Seq<(bool, u64, u64)>,
    y: Seq<(bool, u64, u64)>,
    z: Seq<(bool, u64, u64)>,
    y2: Seq<(bool, u64, u64)>,
    free1: Set<u64>,
    free2: Set<u64>,
    ok: bool,
    p: u64,
    run: Set<u64>,
)
    requires
        items_held(x + y + z, free1),
        items_held(y2, free2),
        free2.subset_of(free1),
        forall|q: u64|
            items_pages(y2).contains(q) ==> items_pages(y).contains(q) || (free1.contains(q)
                && !free2.contains(q)),
        ok ==> {
            &&& items_data(y2).contains(p)
            &&& forall|a: u64| #[trigger] run.contains(a) ==> p <= a < p + 512
            &&& run.disjoint(items_used(y))
            &&& items_used(y2) == items_used(y) + run
        },
        !ok ==> items_used(y2) == items_used(y),
    ensures
        items_held(x + y2 + z, free2),
        items_pages(x + y2 + z).to_set() == items_pages(x).to_set() + items_pages(y2).to_set()
            + items_pages(z).to_set(),
        items_pages(x + y + z).to_set() == items_pages(x).to_set() + items_pages(y).to_set()
            + items_pages(z).to_set(),
        ok ==> {
            &&& items_data(x + y2 + z).contains(p)
            &&& run.disjoint(items_used(x + y + z))
            &&& items_used(x + y2 + z) == items_used(x + y + z) + run
        },
        !ok ==> items_used(x + y2 + z) == items_used(x + y + z),
{
    lemma_replace_held(x, y, z, y2, free1, free2);
    lemma_items_append(x, y);
    lemma_items_append(x + y, z);
    lemma_items_append(x, y2);
    lemma_items_append(x + y2, z);
    if ok {
        lemma_page_apart(x, y2, z, free2, p, run);
        assert(items_used(x + y2 + z) =~= items_used(x + y + z) + run);
    } else {
        assert(items_used(x + y2 + z) =~= items_used(x + y + z));
    }
}

/// Links that are all unused.
fn empty_links() -> (v: Vec<GLink>)
    ensures
        v@.len() == LINKS,
        forall|k: int| 0 <= k < LINKS ==> #[trigger] v@[k] is Empty,
{
    let mut v: Vec<GLink> = Vec::new();
    let mut i: usize = 0;
    while i < LINKS
        invariant
            i <= LINKS,
            v@.len() == i,
            forall|k: int| 0 <= k < i ==> #[trigger] v@[k] is Empty,
        decreases LINKS - i,
    {
        v.push(GLink::Empty);
        i = i + 1;
    }
    v
}


/// Allocate `size` bytes under header `h`, depth first: under a header above
/// level 1, each header linked is walked in turn; if none has room, a new
/// header is made in the first unused link and walked. The tree is taken
/// and given back.
#[verifier::rlimit(80)]
fn walk_alloc(pool: &mut PagePool, size: u64, h: GHeader) -> (r: (GHeader, Result<u64, VmError>))
    requires
        h.wf(),
        old(pool).wf(),
        items_held(h.items(), old(pool).free()),
        1 <= size <= 4096,
    ensures
        final(pool).wf(),
        final(pool).bottom() == old(pool).bottom(),
        final(pool).top() == old(pool).top(),
        alloc_walked(h, r.0, old(pool).free(), final(pool).free(), size as nat, r.1),
        h.level == 1 ==> (r.1 matches Ok(a) ==> leaf_placed(h, r.0, old(pool).free(), size as nat, a)),
    decreases h.level,
{
    if h.level == 1 {
        return alloc_in_leaf(pool, size, h);
    }
    let ghost h0 = h;
    let ghost free0 = old(pool).free();
    let mut t = h;
    let mut open: Option<usize> = None;
    let mut i: usize = 0;
    proof {
        old(pool).lemma_free_finite();
        lemma_nothing_taken(items_pages(h0.items()).to_set(), free0);
    }
    while i < LINKS
        invariant
            h0 == h,
            t.wf(),
            t.page == h0.page,
            t.level == h0.level,
            t.level > 1,
            h0.wf(),
            1 <= size <= 4096,
            pool.wf(),
            pool.bottom() == old(pool).bottom(),
            pool.top() == old(pool).top(),
            free0 == old(pool).free(),
            free0.finite(),
            pool.free().subset_of(free0),
            items_held(t.items(), pool.free()),
            items_pages(t.items()).to_set() == items_pages(h0.items()).to_set() + (free0
                - pool.free()),
            items_used(t.items()) == items_used(h0.items()),
            items_data(t.items()) == items_data(h0.items()),
            took_lowest(free0, pool.free()),
            i <= LINKS,
            forall|k: int| i <= k < LINKS ==> t.links@[k] == h0.links@[k],
            forall|k: int| 0 <= k < LINKS ==> (#[trigger] t.links@[k] is Empty <==> h0.links@[k] is Empty),
            open.is_none() ==> forall|k: int| 0 <= k < i ==> !(#[trigger] h0.links@[k] is Empty),
            open matches Some(o) ==> o < LINKS && t.links@[o as int] is Empty,
            pool.free() == free0 || (pool.free() == Set::<u64>::empty() && free0.len() < t.level),
        decreases LINKS - i,
    {
        let is_empty = match &t.links[i] {
            GLink::Empty => true,
            _ => false,
        };
        if is_empty {
            if open.is_none() {
                open = Some(i);
            }
        } else {
            let ghost s = t.links@;
            let ghost t1 = t;
            let mut taken = GLink::Empty;
            t.links.set_and_swap(i, &mut taken);
            proof {
                lemma_seq_split(s, i as int, t.level);
            }
            match taken {
                GLink::Down(b) => {
                    let c = *b;
                    let ghost pool1 = *pool;
                    proof {
                        assert(link_wf(s[i as int], t1.level));
                        assert(c.level < h.level);
                        let x = seq![(true, t1.page, 0u64)] + seq_items(s.take(i as int));
                        let z = seq_items(s.skip(i as int + 1));
                        assert(t1.items() =~= x + c.items() + z);
                        lemma_held_part(x, c.items(), z, pool1.free());
                    }
                    let (c2, res) = walk_alloc(pool, size, c);
                    let new_link = GLink::Down(Box::new(c2));
                    proof {
                        lemma_seq_update(s, i as int, new_link, t.level);
                    }
                    t.links.set(i, new_link);
                    let ghost ok = res is Ok;
                    proof {
                        let x = seq![(true, t1.page, 0u64)] + seq_items(s.take(i as int));
                        let z = seq_items(s.skip(i as int + 1));
                        let f1 = pool1.free();
                        let f2 = pool.free();
                        assert(t.links@ == s.update(i as int, new_link));
                        assert(t.items() =~= x + c2.items() + z);
                        assert forall|q: u64| items_pages(c2.items()).contains(q) implies items_pages(
                            c.items(),
                        ).contains(q) || (f1.contains(q) && !f2.contains(q)) by {
                            assert(items_pages(c2.items()).to_set().contains(q));
                        }
                        let units = request_units(size as nat);
                        let (p, ui) = if ok {
                            choose|p: u64, ui: nat|
                                #![trigger unit_run(p, ui, units)]
                                {
                                    &&& items_data(c2.items()).contains(p)
                                    &&& ui < 64
                                    &&& ui % units == 0
                                    &&& res->Ok_0 == p + 8 * ui
                                    &&& unit_run(p, ui, units).disjoint(items_used(c.items()))
                                    &&& items_used(c2.items()) == items_used(c.items()) + unit_run(
                                        p,
                                        ui,
                                        units,
                                    )
                                    &&& first_clear_run(items_used(c.items()), p, ui, units)
                                    &&& old_or_last(items_data(c.items()), f1, f2, p)
                                }
                        } else {
                            (0u64, 0nat)
                        };
                        let run = unit_run(p, ui, units);
                        lemma_lift_alloc(x, c.items(), z, c2.items(), f1, f2, ok, p, run);
                        assert(items_pages(t1.items()).to_set() == items_pages(h0.items()).to_set()
                            + (free0 - f1));
                        assert(items_pages(c2.items()).to_set() == items_pages(c.items()).to_set()
                            + (f1 - f2));
                        let px = items_pages(x).to_set();
                        let pz = items_pages(z).to_set();
                        let pc = items_pages(c.items()).to_set();
                        let pc2 = items_pages(c2.items()).to_set();
                        let ph0 = items_pages(h0.items()).to_set();
                        assert(items_pages(t.items()).to_set() == px + pc2 + pz);
                        assert(t1.items() == x + c.items() + z);
                        assert(items_pages(t1.items()).to_set() == px + pc + pz);
                        lemma_pages_step(ph0, px, pc, pc2, pz, free0, f1, f2);
                        assert(items_pages(t.items()).to_set() =~= items_pages(h0.items()).to_set()
                            + (free0 - f2));
                        assert(link_wf(new_link, t.level));
                        lemma_took_lowest_trans(free0, f1, f2);
                        lemma_items_append(x, c.items());
                        lemma_items_append(x + c.items(), z);
                        lemma_items_append(x, c2.items());
                        lemma_items_append(x + c2.items(), z);
                        if !ok {
                            assert(items_used(t.items()) == items_used(h0.items()));
                            assert(items_data(t.items()) == items_data(h0.items()));
                        }
                        if ok {
                            assert(items_used(t.items()) == items_used(h0.items()) + run);
                            assert(items_data(t.items()).contains(p));
                            lemma_first_clear_run_grow(
                                items_used(c.items()),
                                items_used(h0.items()),
                                p,
                                ui,
                                units,
                            );
                            if !items_data(c.items()).contains(p) {
                                assert(f1 == free0);
                            }
                            assert(old_or_last(items_data(h0.items()), free0, f2, p));
                            assert(alloc_walked(h0, t, free0, f2, size as nat, res));
                        }
                    }
                    match res {
                        Ok(a) => {
                            return (t, Ok(a));
                        },
                        Err(_) => {},
                    }
                },
                other => {
                    proof {
                        assert(false);
                    }
                    t.links.set(i, other);
                },
            }
        }
        i = i + 1;
    }
    match open {
        None => {
            proof {
                assert forall|k: int| 0 <= k < h0.links@.len() implies !(#[trigger] h0.links@[k] is Empty) by {
                }
            }
            (t, Err(VmError::GNoSpace))
        },
        Some(o) => {
            let ghost pool1 = *pool;
            match pool.palloc() {
                Err(e) => {
                    proof {
                        if pool1.free() == free0 {
                            assert(free0.len() == 0);
                        }
                    }
                    (t, Err(e))
                },
                Ok(pg) => {
                    let page = pg.addr;
                    let links = empty_links();
                    let child = GHeader { page, level: t.level - 1, links };
                    let ghost pool2 = *pool;
                    proof {
                        lemma_seq_empty(links@, child.level);
                        pool1.lemma_free_in_bounds(page);
                        assert(child.items() =~= seq![(true, page, 0u64)]);
                        lemma_single_item((true, page, 0u64));
                        assert(items_pages(seq![(true, page, 0u64)])[0] == page);
                        assert(items_held(child.items(), pool2.free()));
                        assert(pool1.free() == free0);
                    }
                    let (c2, res) = walk_alloc(pool, size, child);
                    let ghost s = t.links@;
                    let new_link = GLink::Down(Box::new(c2));
                    proof {
                        lemma_seq_split(s, o as int, t.level);
                        lemma_seq_update(s, o as int, new_link, t.level);
                        assert(links@[0] is Empty);
                        assert(!(res matches Err(VmError::GNoSpace)));
                    }
                    let ghost t1 = t;
                    t.links.set(o, new_link);
                    let ghost ok = res is Ok;
                    proof {
                        let x = seq![(true, t1.page, 0u64)] + seq_items(s.take(o as int));
                        let z = seq_items(s.skip(o as int + 1));
                        let y = Seq::<(bool, u64, u64)>::empty();
                        let f1 = pool1.free();
                        let f3 = pool.free();
                        assert(link_items(s[o as int]) == y);
                        assert(t1.items() =~= x + y + z);
                        assert(t.items() =~= x + c2.items() + z);
                        lemma_no_items();
                        assert forall|q: u64| items_pages(c2.items()).contains(q) implies items_pages(
                            y,
                        ).contains(q) || (f1.contains(q) && !f3.contains(q)) by {
                            assert(items_pages(c2.items()).to_set().contains(q));
                            lemma_single_to_set(page);
                        }
                        let units = request_units(size as nat);
                        let f2c = pool2.free();
                        let (p, ui) = if ok {
                            choose|p: u64, ui: nat|
                                #![trigger unit_run(p, ui, units)]
                                {
                                    &&& items_data(c2.items()).contains(p)
                                    &&& ui < 64
                                    &&& ui % units == 0
                                    &&& res->Ok_0 == p + 8 * ui
                                    &&& unit_run(p, ui, units).disjoint(items_used(child.items()))
                                    &&& items_used(c2.items()) == items_used(child.items()) + unit_run(
                                        p,
                                        ui,
                                        units,
                                    )
                                    &&& first_clear_run(items_used(child.items()), p, ui, units)
                                    &&& old_or_last(items_data(child.items()), f2c, f3, p)
                                }
                        } else {
                            (0u64, 0nat)
                        };
                        let run = unit_run(p, ui, units);
                        assert(items_used(child.items()) == items_used(y));
                        lemma_lift_alloc(x, y, z, c2.items(), f1, f3, ok, p, run);
                        assert(items_pages(t.items()).to_set() =~= items_pages(h0.items()).to_set()
                            + (free0 - f3));
                        assert(link_wf(new_link, t.level));
                        assert(pool2.free() == free0.remove(page));
                        assert(took_lowest(free0, pool2.free()));
                        lemma_took_lowest_trans(free0, pool2.free(), f3);
                        lemma_single_item((true, page, 0u64));
                        lemma_items_append(x, y);
                        lemma_items_append(x + y, z);
                        lemma_items_append(x, c2.items());
                        lemma_items_append(x + c2.items(), z);
                        if !ok {
                            assert(free0.len() == pool2.free().len() + 1);
                            assert(items_data(t.items()) == items_data(h0.items()));
                        }
                        if ok {
                            assert(items_used(t.items()) == items_used(h0.items()) + run);
                            assert(items_data(t.items()).contains(p));
                            lemma_first_clear_run_grow(
                                items_used(child.items()),
                                items_used(h0.items()),
                                p,
                                ui,
                                units,
                            );
                            assert(!items_data(child.items()).contains(p));
                            assert(old_or_last(items_data(h0.items()), free0, f3, p));
                            assert(alloc_walked(h0, t, free0, f3, size as nat, res));
                        }
                    }
                    (t, res)
                },
            }
        },
    }
}


/// General allocator of pieces of at most a page: a tree of headers whose
/// pages, like the data pages they link, come from the page pool. A piece
/// of `size` bytes takes a naturally aligned run of `request_units(size)`
/// units of 8 bytes among the first 64 units of a data page. Pages unlinked
/// when everything on them is freed are not given back to the pool.
pub struct GAlloc {
    root: GHeader,
}

impl GAlloc {
    pub closed spec fn tree(&self) -> GHeader {
        self.root
    }

    /// Addresses of the units of 8 bytes in use.
    pub open spec fn used(&self) -> Set<u64> {
        items_used(self.tree().items())
    }

    /// The data pages of the tree.
    pub open spec fn data_pages(&self) -> Set<u64> {
        items_data(self.tree().items())
    }

    /// Every page the tree holds, headers and data pages.
    pub open spec fn pages(&self) -> Set<u64> {
        items_pages(self.tree().items()).to_set()
    }

    /// Levels of headers above the data pages.
    pub open spec fn level(&self) -> u64 {
        self.tree().level
    }

    /// The tree is well formed and its pages are distinct and page aligned.
    pub open spec fn ok(&self) -> bool {
        &&& self.tree().wf()
        &&& items_held(self.tree().items(), Set::<u64>::empty())
    }

    /// The tree is well formed and holds its pages: none is free in `pool`.
    pub open spec fn wf(&self, pool: &PagePool) -> bool {
        &&& self.ok()
        &&& self.pages().disjoint(pool.free())
    }

    /// A level 1 root header with no link in use, on a page from the pool,
    /// which must not be empty.
    pub fn new(pool: &mut PagePool) -> (g: Self)
        requires
            old(pool).wf(),
            old(pool).free() != Set::<u64>::empty(),
        ensures
            final(pool).wf(),
            final(pool).bottom() == old(pool).bottom(),
            final(pool).top() == old(pool).top(),
            g.wf(final(pool)),
            g.level() == 1,
            g.used() == Set::<u64>::empty(),
            g.data_pages() == Set::<u64>::empty(),
            exists|b: u64|
                #![trigger old(pool).free().contains(b)]
                old(pool).free().contains(b) && final(pool).free() == old(pool).free().remove(b)
                    && g.pages() == set![b],
    {
        let ghost p0 = *pool;
        let page = match pool.palloc() {
            Ok(p) => p.addr,
            Err(_) => {
                proof {
                    let x = choose|x: u64| p0.free().contains(x);
                    assert(p0.free().contains(x));
                }
                0
            },
        };
        let links = empty_links();
        let root = GHeader { page, level: 1, links };
        proof {
            lemma_seq_empty(links@, 1);
            p0.lemma_free_in_bounds(page);
            assert(root.items() =~= seq![(true, page, 0u64)]);
            lemma_single_item((true, page, 0u64));
            assert(items_pages(seq![(true, page, 0u64)])[0] == page);
            lemma_single_to_set(page);
            lemma_held_split(root.items(), pool.free());
        }
        GAlloc { root }
    }

    /// Allocate `size` bytes (at most a page): walk the tree depth first
    /// for room; if there is none, put a new root one level up above the
    /// tree and walk again. Gives the address of the piece. Fails with
    /// `OutOfPages` only when the pool has run out, and never while it has
    /// `level() + 2` free pages.
    #[verifier::rlimit(60)]
    pub fn allocate(&mut self, pool: &mut PagePool, size: usize) -> (r: Result<u64, VmError>)
        requires
            old(self).wf(old(pool)),
            old(pool).wf(),
            1 <= size <= 4096,
            old(self).level() < u64::MAX,
        ensures
            final(self).wf(final(pool)),
            final(pool).wf(),
            final(pool).bottom() == old(pool).bottom(),
            final(pool).top() == old(pool).top(),
            final(pool).free().subset_of(old(pool).free()),
            final(self).pages() == old(self).pages() + (old(pool).free() - final(pool).free()),
            final(self).level() == old(self).level() || final(self).level() == old(self).level() + 1,
            match r {
                Ok(a) => allocated(*old(self), *final(self), size as nat, a),
                Err(e) => {
                    &&& e == VmError::OutOfPages
                    &&& final(pool).free() == Set::<u64>::empty()
                    &&& final(self).used() == old(self).used()
                },
            },
            old(pool).free().len() >= old(self).level() + 2 ==> r is Ok,
            took_lowest(old(pool).free(), final(pool).free()),
            r matches Ok(a) ==> placed_first(
                *old(self),
                old(pool).free(),
                final(pool).free(),
                size as nat,
                a,
            ),
            old(self).level() == 1 && final(self).level() == 1 ==> (r matches Ok(a) ==> leaf_placed(
                old(self).tree(),
                final(self).tree(),
                old(pool).free(),
                size as nat,
                a,
            )),
    {
        let mut root = GHeader { page: 0, level: 1, links: Vec::new() };
        std::mem::swap(&mut root, &mut self.root);
        let ghost h0 = root;
        let ghost f0 = pool.free();
        proof {
            pool.lemma_free_finite();
            lemma_held_split(h0.items(), f0);
        }
        let (t, res) = walk_alloc(pool, size as u64, root);
        match res {
            Ok(a) => {
                self.root = t;
                proof {
                    lemma_held_split(t.items(), pool.free());
                    let units = request_units(size as nat);
                    let (p, i) = choose|p: u64, i: nat|
                        #![trigger unit_run(p, i, units)]
                        {
                            &&& items_data(t.items()).contains(p)
                            &&& i < 64
                            &&& i % units == 0
                            &&& a == p + 8 * i
                            &&& unit_run(p, i, units).disjoint(items_used(h0.items()))
                            &&& items_used(t.items()) == items_used(h0.items()) + unit_run(p, i, units)
                            &&& first_clear_run(items_used(h0.items()), p, i, units)
                            &&& old_or_last(items_data(h0.items()), f0, pool.free(), p)
                        };
                    assert(placed_first(*old(self), f0, pool.free(), size as nat, a));
                }
                Ok(a)
            },
            Err(_) => {
                let ghost fa = pool.free();
                let ghost pa = *pool;
                match pool.palloc() {
                    Err(e) => {
                        self.root = t;
                        proof {
                            lemma_held_split(t.items(), pool.free());
                        }
                        Err(e)
                    },
                    Ok(pg) => {
                        let top = pg.addr;
                        let ghost fb = pool.free();
                        let mut links = empty_links();
                        let level = t.level + 1;
                        let ghost s = links@;
                        let ghost t1 = t;
                        let down = GLink::Down(Box::new(t));
                        proof {
                            lemma_seq_empty(s.skip(1), level);
                            lemma_seq_empty(s.take(0), level);
                            lemma_seq_update(s, 0, down, level);
                        }
                        links.set(0, down);
                        let new_root = GHeader { page: top, level, links };
                        proof {
                            assert(s.take(0) =~= Seq::<GLink>::empty());
                            assert(forall|k: int| 0 <= k < s.skip(1).len() ==> #[trigger] s.skip(1)[k] is Empty);
                            let x = seq![(true, top, 0u64)];
                            assert(new_root.items() =~= x + t1.items());
                            pa.lemma_free_in_bounds(top);
                            lemma_single_item((true, top, 0u64));
                            lemma_items_append(x, t1.items());
                            lemma_no_items();
                            lemma_replace_held(
                                Seq::<(bool, u64, u64)>::empty(),
                                Seq::<(bool, u64, u64)>::empty(),
                                t1.items(),
                                x,
                                fa,
                                fb,
                            );
                            assert(Seq::<(bool, u64, u64)>::empty() + x + t1.items() =~= x + t1.items());
                            assert(items_used(new_root.items()) == items_used(t1.items()));
                            assert(links@[1] is Empty);
                            pa.lemma_free_finite();
                        }
                        let (t2, res2) = walk_alloc(pool, size as u64, new_root);
                        self.root = t2;
                        proof {
                            let fc = pool.free();
                            assert(!(res2 matches Err(VmError::GNoSpace)));
                            lemma_single_to_set(top);
                            assert(items_pages(x_items(top)).to_set() == set![top]);
                            assert(items_pages(new_root.items()).to_set() =~= set![top]
                                + items_pages(t1.items()).to_set()) by {
                                lemma_items_append(x_items(top), t1.items());
                                vstd::seq_lib::seq_to_set_distributes_over_add(
                                    items_pages(x_items(top)),
                                    items_pages(t1.items()),
                                );
                            }
                            assert(self.pages() =~= old(self).pages() + (f0 - fc));
                            lemma_held_split(t2.items(), fc);
                            if f0.len() >= h0.level + 2 {
                                assert(fa == f0);
                                assert(fb == f0.remove(top));
                            }
                            assert(took_lowest(fa, fb));
                            lemma_took_lowest_trans(f0, fa, fb);
                            lemma_took_lowest_trans(f0, fb, fc);
                            lemma_items_append(x_items(top), t1.items());
                            lemma_single_item((true, top, 0u64));
                            assert(items_data(new_root.items()) =~= items_data(h0.items()));
                            if res2 is Ok {
                                let a = res2->Ok_0;
                                let units = request_units(size as nat);
                                let (p, i) = choose|p: u64, i: nat|
                                    #![trigger unit_run(p, i, units)]
                                    {
                                        &&& items_data(t2.items()).contains(p)
                                        &&& i < 64
                                        &&& i % units == 0
                                        &&& a == p + 8 * i
                                        &&& unit_run(p, i, units).disjoint(items_used(new_root.items()))
                                        &&& items_used(t2.items()) == items_used(new_root.items())
                                            + unit_run(p, i, units)
                                        &&& first_clear_run(items_used(new_root.items()), p, i, units)
                                        &&& old_or_last(items_data(new_root.items()), fb, fc, p)
                                    };
                                if !items_data(h0.items()).contains(p) {
                                    assert forall|x: u64| #[trigger] f0.contains(x) && !fc.contains(x)
                                        implies x <= p by {
                                        if !fb.contains(x) {
                                            if fa.contains(x) {
                                                assert(x == top);
                                            } else {
                                                assert(fa.contains(p));
                                            }
                                        }
                                    }
                                }
                                assert(old_or_last(items_data(h0.items()), f0, fc, p));
                                assert(placed_first(*old(self), f0, fc, size as nat, a));
                            }
                        }
                        res2
                    },
                }
            },
        }
    }
}

/// The header item of a page.
pub open spec fn x_items(page: u64) -> Seq<(bool, u64, u64)> {
    seq![(true, page, 0u64)]
}


/// A data page under a sequence of links is under one of them.
proof fn lemma_seq_data(s: Seq<GLink>, q: u64)
    ensures
        items_data(seq_items(s)).contains(q) <==> exists|k: int|
            0 <= k < s.len() && #[trigger] items_data(link_items(s[k])).contains(q),
    decreases s.len(),
{
    if s.len() == 0 {
        lemma_no_items();
    } else {
        let d = s.drop_last();
        lemma_seq_data(d, q);
        assert(s =~= d + seq![s.last()]);
        lemma_seq_items_append(d, seq![s.last()], 1);
        lemma_seq_single(s.last(), 1);
        lemma_items_append(seq_items(d), link_items(s.last()));
        if exists|k: int| 0 <= k < d.len() && #[trigger] items_data(link_items(d[k])).contains(q) {
            let k = choose|k: int| 0 <= k < d.len() && #[trigger] items_data(link_items(d[k])).contains(q);
            assert(s[k] == d[k]);
        }
        if exists|k: int| 0 <= k < s.len() && #[trigger] items_data(link_items(s[k])).contains(q) {
            let k = choose|k: int| 0 <= k < s.len() && #[trigger] items_data(link_items(s[k])).contains(q);
            if k < d.len() {
                assert(d[k] == s[k]);
            }
        }
    }
}

/// The data pages of a link to a data page.
proof fn lemma_data_link(page: u64, mask: u64)
    ensures
        link_items(GLink::Data { page, mask }) == seq![(false, page, mask)],
        items_data(link_items(GLink::Data { page, mask })) == set![page],
        items_used(link_items(GLink::Data { page, mask })) == page_units(page, mask),
{
    lemma_single_item((false, page, mask));
}

/// A header whose links are all unused holds only its own page.
proof fn lemma_bare_header(h: GHeader)
    requires
        forall|k: int| 0 <= k < h.links@.len() ==> #[trigger] h.links@[k] is Empty,
    ensures
        h.items() == seq![(true, h.page, 0u64)],
        items_used(h.items()) == Set::<u64>::empty(),
        items_data(h.items()) == Set::<u64>::empty(),
{
    lemma_seq_empty(h.links@, h.level);
    assert(h.items() =~= seq![(true, h.page, 0u64)]);
    lemma_single_item((true, h.page, 0u64));
}

/// Replacing the middle part `y` of a list of held pages by `y2`, whose
/// pages were in `y`, with a run of units of a data page of `y` removed
/// (`found`) or the units unchanged.
proof fn lemma_lift_dealloc(
    x: Seq<(bool, u64, u64)>,
    y: Seq<(bool, u64, u64)>,
    z: Seq<(bool, u64, u64)>,
    y2: Seq<(bool, u64, u64)>,
    free: Set<u64>,
    found: bool,
    p: u64,
    run: Set<u64>,
)
    requires
        items_held(x + y + z, free),
        items_held(y2, free),
        forall|q: u64| items_pages(y2).contains(q) ==> items_pages(y).contains(q),
        forall|q: u64| items_data(y2).contains(q) ==> items_data(y).contains(q),
        found ==> {
            &&& items_data(y).contains(p)
            &&& forall|a: u64| #[trigger] run.contains(a) ==> p <= a < p + 512
            &&& items_used(y2) == items_used(y) - run
        },
        !found ==> items_used(y2) == items_used(y),
    ensures
        items_held(x + y2 + z, free),
        forall|q: u64|
            items_pages(x + y2 + z).contains(q) ==> items_pages(x + y + z).contains(q),
        forall|q: u64| items_data(x + y2 + z).contains(q) ==> items_data(x + y + z).contains(q),
        found ==> items_used(x + y2 + z) == items_used(x + y + z) - run,
        !found ==> items_used(x + y2 + z) == items_used(x + y + z),
{
    lemma_replace_held(x, y, z, y2, free, free);
    lemma_items_append(x, y);
    lemma_items_append(x + y, z);
    lemma_items_append(x, y2);
    lemma_items_append(x + y2, z);
    assert forall|q: u64| items_pages(x + y2 + z).contains(q) implies items_pages(x + y + z).contains(
        q,
    ) by {
        assert(items_pages(x + y2 + z).to_set().contains(q));
        if items_pages(y2).to_set().contains(q) {
            assert(items_pages(y2).contains(q));
            assert(items_pages(y).to_set().contains(q));
        }
        assert(items_pages(x + y + z).to_set().contains(q));
    }
    if found {
        lemma_page_apart(x, y, z, free, p, run);
        assert(items_used(x + y2 + z) =~= items_used(x + y + z) - run);
    } else {
        assert(items_used(x + y2 + z) =~= items_used(x + y + z));
    }
}

/// Whether some link of `h` is in use.
fn any_link(h: &GHeader) -> (b: bool)
    requires
        h.links@.len() == LINKS,
    ensures
        b == exists|k: int| 0 <= k < LINKS && !(#[trigger] h.links@[k] is Empty),
{
    let mut i: usize = 0;
    while i < LINKS
        invariant
            h.links@.len() == LINKS,
            i <= LINKS,
            forall|k: int| 0 <= k < i ==> #[trigger] h.links@[k] is Empty,
        decreases LINKS - i,
    {
        let used = match &h.links[i] {
            GLink::Empty => false,
            _ => true,
        };
        if used {
            return true;
        }
        i = i + 1;
    }
    false
}


/// The page of an address.
pub open spec fn page_of(ptr: u64) -> u64 {
    (ptr - ptr % 4096) as u64
}

/// Units a free of `size` bytes at `ptr` clears on its page.
pub open spec fn freed_run(ptr: u64, size: nat) -> Set<u64> {
    unit_run(page_of(ptr), ((ptr % 4096) / 8) as nat, request_units(size))
}

/// Whether some unit of the data page `p` is in use.
pub open spec fn page_in_use(used: Set<u64>, p: u64) -> bool {
    exists|a: u64| #[trigger] used.contains(a) && p <= a < p + 512
}

/// The data pages left after a free on page `p`: `p` leaves them once none
/// of its units is in use (`used` being the units in use after the free).
pub open spec fn data_after_free(data: Set<u64>, used: Set<u64>, p: u64) -> Set<u64> {
    if data.contains(p) && !page_in_use(used, p) {
        data.remove(p)
    } else {
        data
    }
}

/// Replacing the middle part `y` of a list of held pages, which holds the
/// data page `p`, by `y2` whose data pages are those `y` keeps after a free
/// on `p`, keeps that relation for the whole list.
proof fn lemma_lift_data(
    x: Seq<(bool, u64, u64)>,
    y: Seq<(bool, u64, u64)>,
    z: Seq<(bool, u64, u64)>,
    y2: Seq<(bool, u64, u64)>,
    free: Set<u64>,
    p: u64,
)
    requires
        items_held(x + y + z, free),
        items_data(y).contains(p),
        items_data(y2) == data_after_free(items_data(y), items_used(y2), p),
    ensures
        items_data(x + y2 + z) == data_after_free(items_data(x + y + z), items_used(x + y2 + z), p),
{
    let s = x + y + z;
    lemma_items_append(x, y);
    lemma_items_append(x + y, z);
    lemma_items_append(x, y2);
    lemma_items_append(x + y2, z);
    let w = Set::new(|a: u64| p <= a < p + 512);
    lemma_page_apart(x, y, z, free, p, w);
    let ky = choose|k: int| 0 <= k < y.len() && !y[k].0 && #[trigger] y[k].1 == p;
    let iy = x.len() + ky;
    assert(s[iy] == y[ky]);
    assert(!items_data(x).contains(p)) by {
        if items_data(x).contains(p) {
            let k = choose|k: int| 0 <= k < x.len() && !x[k].0 && #[trigger] x[k].1 == p;
            assert(s[k] == x[k]);
            assert(items_pages(s)[k] == items_pages(s)[iy]);
        }
    }
    assert(!items_data(z).contains(p)) by {
        if items_data(z).contains(p) {
            let k = choose|k: int| 0 <= k < z.len() && !z[k].0 && #[trigger] z[k].1 == p;
            let iz = x.len() + y.len() + k;
            assert(s[iz] == z[k]);
            assert(items_pages(s)[iz] == items_pages(s)[iy]);
        }
    }
    let u2 = items_used(x + y2 + z);
    assert(page_in_use(u2, p) == page_in_use(items_used(y2), p)) by {
        if page_in_use(u2, p) {
            let a = choose|a: u64| #[trigger] u2.contains(a) && p <= a < p + 512;
            assert(w.contains(a));
            assert(items_used(y2).contains(a));
        }
        if page_in_use(items_used(y2), p) {
            let a = choose|a: u64| #[trigger] items_used(y2).contains(a) && p <= a < p + 512;
            assert(u2.contains(a));
        }
    }
    if page_in_use(items_used(y2), p) {
        assert(items_data(x + y2 + z) =~= items_data(s));
    } else {
        assert(items_data(x + y2 + z) =~= items_data(s).remove(p));
    }
}

/// What walking header `h` to free `size` bytes at `ptr` leaves: `found`
/// tells whether the page of `ptr` is a data page of the tree, and then its
/// units of the piece are no longer in use; links left with nothing under
/// them are unlinked; `keep` tells whether `h` still has a link in use.
pub open spec fn dealloc_walked(
    h: GHeader,
    h2: GHeader,
    ptr: u64,
    size: nat,
    found: bool,
    keep: bool,
    free: Set<u64>,
) -> bool {
    &&& h2.wf()
    &&& h2.page == h.page
    &&& h2.level == h.level
    &&& items_held(h2.items(), free)
    &&& forall|q: u64| items_pages(h2.items()).contains(q) ==> items_pages(h.items()).contains(q)
    &&& forall|q: u64| items_data(h2.items()).contains(q) ==> items_data(h.items()).contains(q)
    &&& found == items_data(h.items()).contains(page_of(ptr))
    &&& keep == exists|k: int| 0 <= k < LINKS && !(#[trigger] h2.links@[k] is Empty)
    &&& found ==> items_used(h2.items()) == items_used(h.items()) - freed_run(ptr, size)
    &&& !found ==> items_used(h2.items()) == items_used(h.items())
    &&& items_data(h2.items()) == data_after_free(items_data(h.items()), items_used(h2.items()), page_of(ptr))
}

/// The data pages of a level 1 header are those its links point to.
proof fn lemma_leaf_data(h: GHeader, q: u64)
    requires
        h.wf(),
        h.level == 1,
    ensures
        items_data(h.items()).contains(q) <==> exists|k: int|
            0 <= k < LINKS && (#[trigger] h.links@[k] matches GLink::Data { page, mask } && page == q),
{
    let s = h.links@;
    lemma_seq_data(s, q);
    lemma_single_item((true, h.page, 0u64));
    lemma_items_append(seq![(true, h.page, 0u64)], seq_items(s));
    assert(items_data(h.items()) == items_data(seq_items(s)));
    if items_data(h.items()).contains(q) {
        let k = choose|k: int| 0 <= k < s.len() && #[trigger] items_data(link_items(s[k])).contains(q);
        lemma_seq_wf_each(s, 1, k);
        match s[k] {
            GLink::Empty => {
                lemma_no_items();
                assert(false);
            },
            GLink::Data { page, mask } => {
                lemma_data_link(page, mask);
                assert(h.links@[k] matches GLink::Data { page, mask } && page == q);
            },
            GLink::Down(_) => {
                assert(false);
            },
        }
    }
    if exists|k: int|
        0 <= k < LINKS && (#[trigger] h.links@[k] matches GLink::Data { page, mask } && page == q) {
        let k = choose|k: int|
            0 <= k < LINKS && (#[trigger] h.links@[k] matches GLink::Data { page, mask } && page == q);
        match s[k] {
            GLink::Data { page, mask } => {
                lemma_data_link(page, mask);
                assert(items_data(link_items(s[k])).contains(q));
            },
            _ => {},
        }
    }
}

/// Free `size` bytes at `ptr` under a level 1 header: clear the piece's
/// units on the data page of `ptr`, unlinking the page when none is left in
/// use.
#[verifier::rlimit(40)]
fn dealloc_in_leaf(ptr: u64, size: u64, h: GHeader, Ghost(free): Ghost<Set<u64>>) -> (r: (GHeader, (bool, bool)))
    requires
        h.wf(),
        h.level == 1,
        items_held(h.items(), free),
        1 <= size <= 4096,
        items_data(h.items()).contains(page_of(ptr)) ==> ptr % 4096 < 512,
    ensures
        dealloc_walked(h, r.0, ptr, size as nat, r.1.0, r.1.1, free),
{
    let ghost h0 = h;
    let mut t = h;
    let pg = ptr - ptr % 4096;
    let mut k_found: Option<usize> = None;
    let mut i: usize = 0;
    while i < LINKS && k_found.is_none()
        invariant
            t == h0,
            t.wf(),
            t.level == 1,
            pg == page_of(ptr),
            i <= LINKS,
            k_found.is_none() ==> forall|k: int|
                0 <= k < i ==> !(#[trigger] t.links@[k] matches GLink::Data { page, mask } && page == pg),
            k_found matches Some(k) ==> k < LINKS && (t.links@[k as int] matches GLink::Data { page, mask } && page == pg),
        decreases LINKS - i,
    {
        let hit = match &t.links[i] {
            GLink::Data { page, mask: _ } => *page == pg,
            _ => false,
        };
        if hit {
            k_found = Some(i);
        }
        i = i + 1;
    }
    proof {
        lemma_leaf_data(h0, pg);
    }
    match k_found {
        None => {
            let keep = any_link(&t);
            proof {
                assert(i == LINKS);
                if items_data(h0.items()).contains(pg) {
                    let k = choose|k: int|
                        0 <= k < LINKS && (#[trigger] h0.links@[k] matches GLink::Data { page, mask } && page == pg);
                    assert(!(t.links@[k] matches GLink::Data { page, mask } && page == pg));
                }
                assert(!items_data(h.items()).contains(page_of(ptr)));
            }
            (t, (false, keep))
        },
        Some(k) => {
            let mask = match &t.links[k] {
                GLink::Data { page: _, mask } => *mask,
                _ => 0,
            };
            let units = units_for(size);
            let off = (ptr % 4096) / 8;
            let m2 = mask & !(make_mask(units) << off);
            let ghost s = h0.links@;
            let ghost old_link = s[k as int];
            let new_link = if m2 == 0 {
                GLink::Empty
            } else {
                GLink::Data { page: pg, mask: m2 }
            };
            proof {
                lemma_seq_split(s, k as int, 1);
                lemma_seq_update(s, k as int, new_link, 1);
            }
            t.links.set(k, new_link);
            proof {
                let x = seq![(true, h0.page, 0u64)] + seq_items(s.take(k as int));
                let z = seq_items(s.skip(k as int + 1));
                let y = seq![(false, pg, mask)];
                let y2 = link_items(new_link);
                lemma_data_link(pg, mask);
                assert(link_items(old_link) == y);
                assert(h0.items() =~= x + y + z);
                assert(t.items() =~= x + y2 + z);
                let run = unit_run(pg, off as nat, units as nat);
                lemma_clear_units(pg, mask, units as nat, off);
                if m2 == 0 {
                    lemma_no_items();
                    assert(page_units(pg, 0) =~= Set::<u64>::empty()) by {
                        assert forall|b: nat| b < 64 implies !bit_set(0, b) by {
                            let bb = b as u64;
                            assert((0u64 >> bb) & 1 == 0) by (bit_vector);
                        }
                    }
                    assert(items_used(y2) =~= items_used(y) - run);
                } else {
                    lemma_data_link(pg, m2);
                    assert(items_used(y2) == items_used(y) - run);
                }
                assert(items_held(y2, free)) by {
                    lemma_held_part(x, y, z, free);
                    if m2 != 0 {
                        assert(items_pages(y2) =~= items_pages(y));
                    } else {
                        assert(items_pages(y2) =~= Seq::<u64>::empty());
                    }
                }
                assert forall|q: u64| items_pages(y2).contains(q) implies items_pages(y).contains(q) by {
                    if m2 != 0 {
                        assert(items_pages(y2) =~= items_pages(y));
                    }
                }
                assert forall|q: u64| items_data(y2).contains(q) implies items_data(y).contains(q) by {}
                lemma_lift_dealloc(x, y, z, y2, free, true, pg, run);
                if m2 == 0 {
                    assert(set![pg].remove(pg) =~= Set::<u64>::empty());
                    assert(!page_in_use(items_used(y2), pg));
                } else {
                    lemma_held_part(x, y, z, free);
                    assert(y[0].1 == pg);
                    assert(pg % 4096 == 0);
                    let b = lemma_nonzero_bit(m2);
                    assert(pg + 8 * b < 0x1_0000_0000_0000_0000) by (nonlinear_arith)
                        requires
                            pg % 4096 == 0,
                            b < 64,
                            pg <= 0xffff_ffff_ffff_ffff,
                    ;
                    let a = (pg + 8 * b) as u64;
                    assert(a - pg == 8 * b);
                    assert((a - pg) % 8 == 0 && (a - pg) / 8 == b) by (nonlinear_arith)
                        requires
                            a - pg == 8 * b,
                    ;
                    assert(unit_in(pg, m2, a));
                    assert(items_used(y2).contains(a));
                    assert(page_in_use(items_used(y2), pg));
                }
                lemma_lift_data(x, y, z, y2, free, pg);
                assert(link_wf(new_link, 1));
                if m2 != 0 {
                    assert(!(t.links@[k as int] is Empty));
                }
            }
            let keep = if m2 == 0 {
                any_link(&t)
            } else {
                true
            };
            (t, (true, keep))
        },
    }
}


/// Held pages are distinct, aligned pages none of which is free.
proof fn lemma_held_split(s: Seq<(bool, u64, u64)>, free: Set<u64>)
    ensures
        items_held(s, free) == (items_held(s, Set::<u64>::empty()) && items_pages(s).to_set().disjoint(
            free,
        )),
{
    if items_held(s, Set::<u64>::empty()) && items_pages(s).to_set().disjoint(free) {
        assert forall|k: int| 0 <= k < s.len() implies page_aligned(#[trigger] s[k].1 as int)
            && !free.contains(s[k].1) by {
            assert(items_pages(s)[k] == s[k].1);
            assert(items_pages(s).to_set().contains(s[k].1));
        }
    }
    if items_held(s, free) {
        assert forall|q: u64| items_pages(s).to_set().contains(q) implies !free.contains(q) by {
            let k = choose|k: int| 0 <= k < items_pages(s).len() && items_pages(s)[k] == q;
            assert(s[k].1 == q);
        }
    }
}


/// Free `size` bytes at `ptr` under header `h`, depth first: under a header
/// above level 1, each header linked is walked in turn until the data page
/// of `ptr` is found; headers left with no link in use are unlinked.
#[verifier::rlimit(80)]
fn walk_dealloc(ptr: u64, size: u64, h: GHeader, Ghost(free): Ghost<Set<u64>>) -> (r: (
    GHeader,
    (bool, bool),
))
    requires
        h.wf(),
        items_held(h.items(), free),
        1 <= size <= 4096,
        items_data(h.items()).contains(page_of(ptr)) ==> ptr % 4096 < 512,
    ensures
        dealloc_walked(h, r.0, ptr, size as nat, r.1.0, r.1.1, free),
    decreases h.level,
{
    if h.level == 1 {
        return dealloc_in_leaf(ptr, size, h, Ghost(free));
    }
    let ghost h0 = h;
    let mut t = h;
    proof {
        lemma_single_item((true, h0.page, 0u64));
        lemma_items_append(seq![(true, h0.page, 0u64)], seq_items(h0.links@));
        assert(items_data(h0.items()) == items_data(seq_items(h0.links@)));
        lemma_seq_data(h0.links@, page_of(ptr));
    }
    if !any_link(&t) {
        proof {
            lemma_bare_header(h0);
        }
        return (t, (false, false));
    }
    let mut keep = false;
    let mut i: usize = 0;
    while i < LINKS
        invariant
            h0 == h,
            h0.wf(),
            t.wf(),
            t.page == h0.page,
            t.level == h0.level,
            t.level > 1,
            1 <= size <= 4096,
            items_data(h0.items()) == items_data(seq_items(h0.links@)),
            items_data(h0.items()).contains(page_of(ptr)) ==> ptr % 4096 < 512,
            items_held(t.items(), free),
            forall|q: u64| items_pages(t.items()).contains(q) ==> items_pages(h0.items()).contains(q),
            forall|q: u64| items_data(t.items()).contains(q) ==> items_data(h0.items()).contains(q),
            items_used(t.items()) == items_used(h0.items()),
            items_data(t.items()) == items_data(h0.items()),
            i <= LINKS,
            forall|k: int| i <= k < LINKS ==> t.links@[k] == h0.links@[k],
            forall|k: int|
                0 <= k < i ==> !(#[trigger] items_data(link_items(h0.links@[k]))).contains(page_of(ptr)),
            keep == exists|k: int| 0 <= k < i && !(#[trigger] t.links@[k] is Empty),
        decreases LINKS - i,
    {
        let is_empty = match &t.links[i] {
            GLink::Empty => true,
            _ => false,
        };
        if is_empty {
            proof {
                lemma_no_items();
                assert(link_items(h0.links@[i as int]) == Seq::<(bool, u64, u64)>::empty());
                assert(t.links@[i as int] is Empty);
            }
        } else {
            let ghost s = t.links@;
            let ghost t1 = t;
            let mut taken = GLink::Empty;
            t.links.set_and_swap(i, &mut taken);
            proof {
                lemma_seq_split(s, i as int, t.level);
                lemma_seq_update(s, i as int, GLink::Empty, t.level);
            }
            match taken {
                GLink::Down(b) => {
                    let c = *b;
                    proof {
                        let x = seq![(true, t1.page, 0u64)] + seq_items(s.take(i as int));
                        let z = seq_items(s.skip(i as int + 1));
                        assert(t1.items() =~= x + c.items() + z);
                        lemma_held_part(x, c.items(), z, free);
                        assert(link_wf(s[i as int], t1.level));
                        assert(c.level < h.level);
                        lemma_items_append(x, c.items());
                        lemma_items_append(x + c.items(), z);
                        if items_data(c.items()).contains(page_of(ptr)) {
                            assert(items_data(link_items(h0.links@[i as int])).contains(page_of(ptr)));
                        }
                    }
                    let (c2, flags) = walk_dealloc(ptr, size, c, Ghost(free));
                    let (found, kept) = flags;
                    let ghost run = freed_run(ptr, size as nat);
                    if kept {
                        let new_link = GLink::Down(Box::new(c2));
                        proof {
                            lemma_seq_update(s, i as int, new_link, t.level);
                        }
                        t.links.set(i, new_link);
                        proof {
                            let x = seq![(true, t1.page, 0u64)] + seq_items(s.take(i as int));
                            let z = seq_items(s.skip(i as int + 1));
                            assert(t.links@ =~= s.update(i as int, new_link));
                            assert(t.items() =~= x + c2.items() + z);
                            assert(link_wf(new_link, t.level));
                            lemma_lift_dealloc(x, c.items(), z, c2.items(), free, found, page_of(ptr), run);
                            assert(t1.items() =~= x + c.items() + z);
                            if found {
                                lemma_lift_data(x, c.items(), z, c2.items(), free, page_of(ptr));
                            } else {
                                lemma_items_append(x, c2.items());
                                lemma_items_append(x + c2.items(), z);
                                lemma_items_append(x, c.items());
                                lemma_items_append(x + c.items(), z);
                                assert(items_data(t.items()) == items_data(t1.items()));
                            }
                            assert(!(t.links@[i as int] is Empty));
                            if found {
                                assert(items_data(link_items(h0.links@[i as int])).contains(page_of(ptr)));
                            } else {
                                assert(link_items(h0.links@[i as int]) == c.items());
                            }
                        }
                        if found {
                            return (t, (true, true));
                        }
                        keep = true;
                    } else {
                        proof {
                            let x = seq![(true, t1.page, 0u64)] + seq_items(s.take(i as int));
                            let z = seq_items(s.skip(i as int + 1));
                            let y2 = Seq::<(bool, u64, u64)>::empty();
                            lemma_no_items();
                            assert(t.items() =~= x + y2 + z);
                            lemma_bare_header(c2);
                            lemma_lift_dealloc(x, c.items(), z, y2, free, found, page_of(ptr), run);
                            assert(t1.items() =~= x + c.items() + z);
                            if found {
                                lemma_lift_data(x, c.items(), z, y2, free, page_of(ptr));
                            } else {
                                lemma_items_append(x, y2);
                                lemma_items_append(x + y2, z);
                                lemma_items_append(x, c.items());
                                lemma_items_append(x + c.items(), z);
                                assert(items_data(t.items()) =~= items_data(t1.items()));
                            }
                            if found {
                                assert(items_data(link_items(h0.links@[i as int])).contains(page_of(ptr)));
                            } else {
                                assert(link_items(h0.links@[i as int]) == c.items());
                                assert(!items_data(link_items(h0.links@[i as int])).contains(page_of(ptr)));
                            }
                            assert(t.links@[i as int] is Empty);
                            assert forall|k: int| 0 <= k < i implies t.links@[k] == s[k] by {}
                            lemma_seq_data(h0.links@, page_of(ptr));
                        }
                        let any = any_link(&t);
                        if !any {
                            proof {
                                assert forall|k: int| 0 <= k < LINKS && k != i implies !(#[trigger] items_data(
                                    link_items(h0.links@[k]),
                                )).contains(page_of(ptr)) by {
                                    if k > i {
                                        assert(t.links@[k] is Empty);
                                        lemma_no_items();
                                    }
                                }
                                if !found {
                                    assert(!items_data(h0.items()).contains(page_of(ptr)));
                                }
                            }
                            return (t, (found, false));
                        }
                        if found {
                            return (t, (true, true));
                        }
                    }
                },
                other => {
                    proof {
                        assert(false);
                    }
                    t.links.set(i, other);
                },
            }
        }
        i = i + 1;
    }
    proof {
        assert(!items_data(h0.items()).contains(page_of(ptr)));
    }
    (t, (false, keep))
}

impl GAlloc {
    /// Free `size` bytes at `ptr`: on the data page of `ptr`, if the tree has
    /// it, the units of the piece are no longer in use, and the page leaves
    /// the tree once none of its units is; headers left with nothing under
    /// them are unlinked.
    pub fn deallocate(&mut self, ptr: u64, size: usize)
        requires
            old(self).ok(),
            1 <= size <= 4096,
            old(self).data_pages().contains(page_of(ptr)) ==> ptr % 4096 < 512,
        ensures
            final(self).ok(),
            final(self).level() == old(self).level(),
            final(self).pages().subset_of(old(self).pages()),
            final(self).data_pages().subset_of(old(self).data_pages()),
            final(self).data_pages() == data_after_free(old(self).data_pages(), final(self).used(), page_of(ptr)),
            freed(*old(self), *final(self), ptr, size as nat),
    {
        let mut root = GHeader { page: 0, level: 1, links: Vec::new() };
        std::mem::swap(&mut root, &mut self.root);
        let (t, _flags) = walk_dealloc(ptr, size as u64, root, Ghost(Set::<u64>::empty()));
        self.root = t;
        proof {
            assert forall|q: u64| self.pages().contains(q) implies old(self).pages().contains(q) by {
                assert(items_pages(t.items()).contains(q));
            }
        }
    }
}


/// Where a piece of `size` bytes went: at the first clear run of its page,
/// which is a data page `before` had or the last page taken from the pool,
/// the pool's pages being taken lowest first.
pub open spec fn placed_first(before: GAlloc, free1: Set<u64>, free2: Set<u64>, size: nat, a: u64) -> bool {
    exists|p: u64, i: nat|
        #![trigger unit_run(p, i, request_units(size))]
        {
            &&& i < 64
            &&& i % request_units(size) == 0
            &&& a == p + 8 * i
            &&& first_clear_run(before.used(), p, i, request_units(size))
            &&& old_or_last(before.data_pages(), free1, free2, p)
        }
}

/// `after` is `before` with a piece of `size` bytes allocated at `a`: a run
/// of `request_units(size)` units that was not in use, starting at a
/// multiple of that count on a data page of `after`, is in use.
pub open spec fn allocated(before: GAlloc, after: GAlloc, size: nat, a: u64) -> bool {
    exists|p: u64, i: nat|
        #![trigger unit_run(p, i, request_units(size))]
        {
            &&& after.data_pages().contains(p)
            &&& i < 64
            &&& i % request_units(size) == 0
            &&& a == p + 8 * i
            &&& unit_run(p, i, request_units(size)).disjoint(before.used())
            &&& after.used() == before.used() + unit_run(p, i, request_units(size))
        }
}

/// `after` is `before` with the piece of `size` bytes at `ptr` freed: when
/// the page of `ptr` is a data page, its units of the piece are no longer in
/// use; otherwise nothing changes in use.
pub open spec fn freed(before: GAlloc, after: GAlloc, ptr: u64, size: nat) -> bool {
    &&& before.data_pages().contains(page_of(ptr)) ==> after.used() == before.used() - freed_run(
        ptr,
        size,
    )
    &&& !before.data_pages().contains(page_of(ptr)) ==> after.used() == before.used()
}

/// Freeing a piece where it was allocated, with its size, leaves the units
/// in use as they were before the allocation.
pub proof fn law_deallocate_undoes_allocate(
    before: GAlloc,
    mid: GAlloc,
    after: GAlloc,
    size: nat,
    a: u64,
)
    requires
        mid.ok(),
        allocated(before, mid, size, a),
        freed(mid, after, a, size),
    ensures
        after.used() == before.used(),
{
    let units = request_units(size);
    let (p, i) = choose|p: u64, i: nat|
        #![trigger unit_run(p, i, units)]
        {
            &&& mid.data_pages().contains(p)
            &&& i < 64
            &&& i % units == 0
            &&& a == p + 8 * i
            &&& unit_run(p, i, units).disjoint(before.used())
            &&& mid.used() == before.used() + unit_run(p, i, units)
        };
    let s = mid.tree().items();
    let k = choose|k: int| 0 <= k < s.len() && !s[k].0 && #[trigger] s[k].1 == p;
    assert(page_aligned(s[k].1 as int));
    assert(p % 4096 == 0);
    assert(a % 4096 == 8 * i && page_of(a) == p) by (nonlinear_arith)
        requires
            p % 4096 == 0,
            a == p + 8 * i,
            i < 64,
    ;
    assert((a % 4096) / 8 == i);
    assert(freed_run(a, size) == unit_run(p, i, units));
    assert(after.used() =~= before.used());
}


/// Doubling a power of two up to a size of at most a page gives a power of
/// two of at most a page.
proof fn lemma_grow_pow2_page(s: nat, j: nat) -> (k: nat)
    requires
        1 <= s <= 4096,
        j <= 12,
    ensures
        j <= k <= 12,
        grow_pow2(s, pow2(j)) == pow2(k),
    decreases 4096 - pow2(j),
{
    lemma2_to64();
    vstd::arithmetic::power2::lemma_pow2_pos(j);
    lemma_pow2_unfold(j + 1);
    if pow2(j) >= s {
        j
    } else {
        if j >= 12 {
            lemma_pow2_strictly_increases(12, j);
            assert(false);
        }
        lemma_pow2_strictly_increases(j, j + 1);
        if 2 * pow2(j) >= s {
            j + 1
        } else {
            if j + 1 == 12 {
                assert(false);
            }
            lemma_pow2_strictly_increases(j + 1, 12);
            lemma_grow_pow2_page(s, j + 1)
        }
    }
}

/// A piece's bytes, `8 * request_units(size)`, divide a page.
proof fn lemma_piece_divides_page(size: nat)
    requires
        1 <= size <= 4096,
    ensures
        4096nat % (8 * request_units(size)) == 0,
        request_units(size) >= 1,
{
    lemma2_to64();
    let k = lemma_grow_pow2_page(size, 0);
    assert(grow_pow2(size, 1) == pow2(k));
    if k >= 3 {
        vstd::arithmetic::power2::lemma_pow2_adds(3, (k - 3) as nat);
        vstd::arithmetic::power2::lemma_pow2_adds(k, (12 - k) as nat);
        vstd::arithmetic::power2::lemma_pow2_pos((k - 3) as nat);
        vstd::arithmetic::power2::lemma_pow2_pos((12 - k) as nat);
        let u = pow2((k - 3) as nat);
        let v = pow2((12 - k) as nat);
        assert(pow2(k) == 8 * u);
        assert(pow2(k) / 8 == u);
        assert(request_units(size) == u);
        assert(4096 == (8 * u) * v);
        vstd::arithmetic::div_mod::lemma_mod_multiples_basic(v as int, (8 * u) as int);
        assert(((v * (8 * u)) as int) % ((8 * u) as int) == 0);
        assert(v * (8 * u) == (8 * u) * v) by (nonlinear_arith);
        assert(4096nat % (8 * request_units(size)) == 0);
    } else {
        assert(pow2(k) <= 4) by {
            if k == 0 {
            } else if k == 1 {
            } else {
            }
        }
        assert(request_units(size) == 1);
        assert(4096nat % 8 == 0);
    }
}

/// Pieces are naturally aligned: a piece of `size` bytes starts at a
/// multiple of its rounded size, `8 * request_units(size)` bytes.
pub proof fn law_allocation_aligned(before: GAlloc, after: GAlloc, size: nat, a: u64)
    requires
        after.ok(),
        allocated(before, after, size, a),
        1 <= size <= 4096,
    ensures
        (a as nat) % (8 * request_units(size)) == 0,
        after.data_pages().contains(page_of(a)),
{
    let units = request_units(size);
    let (p, i) = choose|p: u64, i: nat|
        #![trigger unit_run(p, i, units)]
        {
            &&& after.data_pages().contains(p)
            &&& i < 64
            &&& i % units == 0
            &&& a == p + 8 * i
            &&& unit_run(p, i, units).disjoint(before.used())
            &&& after.used() == before.used() + unit_run(p, i, units)
        };
    let s = after.tree().items();
    let k = choose|k: int| 0 <= k < s.len() && !s[k].0 && #[trigger] s[k].1 == p;
    assert(page_aligned(s[k].1 as int));
    lemma_piece_divides_page(size);
    let w = 8 * units;
    let m = p / 4096;
    let q = 4096nat / w;
    let t = i / units;
    vstd::arithmetic::div_mod::lemma_fundamental_div_mod(p as int, 4096);
    vstd::arithmetic::div_mod::lemma_fundamental_div_mod(4096, w as int);
    vstd::arithmetic::div_mod::lemma_fundamental_div_mod(i as int, units as int);
    assert(a == w * (q * m + t)) by (nonlinear_arith)
        requires
            a == p + 8 * i,
            p == 4096 * m,
            4096 == w * q,
            i == units * t,
            w == 8 * units,
    ;
    vstd::arithmetic::div_mod::lemma_mod_multiples_basic((q * m + t) as int, w as int);
    assert(a % 4096 == 8 * i && page_of(a) == p) by (nonlinear_arith)
        requires
            p % 4096 == 0,
            a == p + 8 * i,
            i < 64,
    ;
}

} // verus!
