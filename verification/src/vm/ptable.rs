//! Sv39 page tables.
//!
//! Virtual addresses have 39 bits, physical addresses 56 bits and a page
//! table entry (PTE) is 8 bytes; a table page holds 512 of them. A virtual
//! address is translated through three levels of tables: the entry at
//! `vpn(va, 2)` of the root table points to a second level table, whose entry
//! at `vpn(va, 1)` points to a leaf table, whose entry at `vpn(va, 0)` is the
//! leaf PTE of the page.
//!
//! The page table pages live in physical memory; `PtMem` holds the contents of
//! the table pages the kernel manages, keyed by their physical address.
use vstd::prelude::*;
use crate::param::{PAGE_SIZE, NHART, UART_BASE, PLIC_BASE, PLIC_SIZE, VIRTIO_BASE, VIRTIO_SIZE, DRAM_BASE};
use crate::vm::VmError;
use crate::vm::palloc::{PagePool, Page, page_aligned, page_run};
use crate::vm::sv39::{spec_vpn, lemma_vpn_page};

verus! {

/// One past the highest virtual address: 2^27 VPN + 12 bit offset.
pub const VA_TOP: u64 = 0x80_0000_0000;
/// Number of PTEs in a table page.
pub const PTE_TOP: usize = 512;
/// PTE flag bits 0 to 7: valid, read, write, execute, user, global, accessed,
/// dirty.
pub const PTE_VALID: u64 = 0x1;
pub const PTE_READ: u64 = 0x2;
pub const PTE_WRITE: u64 = 0x4;
pub const PTE_EXEC: u64 = 0x8;
pub const PTE_USER: u64 = 0x10;
pub const PTE_GLOBAL: u64 = 0x20;
pub const PTE_ACCESSED: u64 = 0x40;
pub const PTE_DIRTY: u64 = 0x80;

broadcast use crate::vm::sv39::lemma_vpn_bounds;

/// One past the highest physical address a page table entry can hold.
pub const PA_TOP: u64 = 0x100_0000_0000_0000;

/// One past the highest physical address of Sv39 (56 bits).
pub open spec fn pa_top() -> int {
    PA_TOP as int
}

/// The entry is marked valid.
pub open spec fn pte_valid(e: u64) -> bool {
    e % 2 == 1
}

/// The physical address a PTE points to (its PPN shifted into place).
pub open spec fn spec_pte_to_phy(e: u64) -> u64 {
    ((e as int / 1024 * 4096) % 0x1_0000_0000_0000_0000) as u64
}

/// The PTE whose PPN is the page number of `p`, with no flags.
pub open spec fn spec_phy_to_pte(p: u64) -> u64 {
    (p as int / 4096 * 1024) as u64
}

/// The leaf PTE that maps a page to `pa` with `flags`.
pub open spec fn leaf_pte(pa: u64, flags: u64) -> u64 {
    spec_phy_to_pte(pa) | (flags | PTE_VALID)
}

/// Index of the entry for `va` in the table at `level`.
pub fn vpn(ptr: u64, level: u64) -> (r: u64)
    requires
        level < 3,
    ensures
        r == spec_vpn(ptr, level as int),
        r < 512,
{
    proof {
        reveal(spec_vpn);
        assert((ptr >> 12u64) & 0x1FF == (ptr / 0x1000) % 512 && (ptr >> 21u64) & 0x1FF == (ptr
            / 0x20_0000) % 512 && (ptr >> 30u64) & 0x1FF == (ptr / 0x4000_0000) % 512)
            by (bit_vector);
    }
    ptr >> (12 + 9 * level) & 0x1FF
}

/// The physical address a PTE points to.
pub fn pte_to_phy(pte: u64) -> (r: u64)
    ensures
        r == spec_pte_to_phy(pte),
{
    proof {
        assert((pte >> 10u64) << 12u64 == ((pte / 1024 * 4096) % 0x1_0000_0000_0000_0000) as u64)
            by (bit_vector);
    }
    (pte >> 10) << 12
}

/// The flagless PTE pointing to the page of `ptr`.
pub fn phy_to_pte(ptr: u64) -> (r: u64)
    ensures
        r == spec_phy_to_pte(ptr),
{
    proof {
        assert((ptr >> 12u64) << 10u64 == (ptr / 4096 * 1024) as u64) by (bit_vector);
    }
    (ptr >> 12) << 10
}

/// The SATP value selecting Sv39 translation with root table `ptr`.
pub fn phy_to_satp(ptr: u64) -> (r: u64)
    ensures
        r == 0x8000_0000_0000_0000 + ptr / 4096,
{
    proof {
        assert((1u64 << 63u64) | (ptr >> 12u64) == (0x8000_0000_0000_0000 + ptr / 4096) as u64)
            by (bit_vector);
    }
    (1u64 << 63) | (ptr >> 12)
}

/// A table pointer made from an aligned physical address below 2^56 is valid
/// and points back to that address.
pub proof fn lemma_table_pte(p: u64)
    requires
        page_aligned(p as int),
        p < pa_top(),
    ensures
        pte_valid(spec_phy_to_pte(p) | PTE_VALID),
        spec_pte_to_phy(spec_phy_to_pte(p) | PTE_VALID) == p,
{
    let x = spec_phy_to_pte(p);
    assert(x == p / 4096 * 1024);
    assert(x % 1024 == 0);
    assert(x | 1u64 == x + 1) by (bit_vector)
        requires
            x % 1024 == 0,
    ;
    assert((x + 1) as int / 1024 == p / 4096);
}

/// A leaf PTE is valid and points to the page of `pa`.
pub proof fn lemma_leaf_pte(pa: u64, flags: u64)
    requires
        pa < pa_top(),
        flags < 1024,
    ensures
        pte_valid(leaf_pte(pa, flags)),
        spec_pte_to_phy(leaf_pte(pa, flags)) == pa / 4096 * 4096,
{
    let x = spec_phy_to_pte(pa);
    assert(x == pa / 4096 * 1024);
    assert(x % 1024 == 0);
    assert(x | (flags | 1u64) == x + (flags | 1u64)) by (bit_vector)
        requires
            x % 1024 == 0,
            flags < 1024,
    ;
    assert((flags | 1u64) % 2 == 1 && (flags | 1u64) < 1024) by (bit_vector)
        requires
            flags < 1024,
    ;
    assert((x + (flags | 1u64)) as int / 1024 == pa / 4096);
}

/// A PTE is valid exactly when its low bit is set.
proof fn lemma_valid_bit(e: u64)
    ensures
        (e & PTE_VALID != 0) == pte_valid(e),
{
    assert((e & 1u64 != 0) == (e % 2 == 1)) by (bit_vector);
}

/// The page table pages of the kernel: physical address of each table page
/// and its 512 entries, stored page after page.
pub struct PtMem {
    bases: Vec<u64>,
    entries: Vec<u64>,
}

impl PtMem {
    pub closed spec fn wf(&self) -> bool {
        &&& self.entries@.len() == 512 * self.bases@.len()
        &&& self.bases@.no_duplicates()
    }

    /// Number of table pages held.
    pub closed spec fn num_frames(&self) -> nat {
        self.bases@.len()
    }

    /// A table page at physical address `b` is held.
    pub closed spec fn has(&self, b: u64) -> bool {
        self.bases@.contains(b)
    }

    closed spec fn pos(&self, b: u64) -> int {
        choose|k: int| 0 <= k < self.bases@.len() && self.bases@[k] == b
    }

    /// Entry `i` of the table page at `b`.
    pub closed spec fn entry(&self, b: u64, i: int) -> u64 {
        self.entries@[512 * self.pos(b) + i]
    }

    proof fn lemma_pos(&self, k: int)
        requires
            self.wf(),
            0 <= k < self.bases@.len(),
        ensures
            self.pos(self.bases@[k]) == k,
            self.has(self.bases@[k]),
    {
        let b = self.bases@[k];
        assert(self.bases@.contains(b));
        let p = self.pos(b);
        assert(self.bases@[p] == b);
    }

    /// No table pages yet.
    pub fn new() -> (m: Self)
        ensures
            m.wf(),
            m.num_frames() == 0,
            forall|b: u64| !m.has(b),
    {
        PtMem { bases: Vec::new(), entries: Vec::new() }
    }

    /// The table pages held, each once.
    pub fn table_pages(&self) -> (v: Vec<u64>)
        requires
            self.wf(),
        ensures
            v@.len() == self.num_frames(),
            v@.no_duplicates(),
            forall|b: u64| v@.contains(b) <==> self.has(b),
    {
        self.bases.clone()
    }

    fn find(&self, b: u64) -> (k: usize)
        requires
            self.wf(),
            self.has(b),
        ensures
            k < self.bases@.len(),
            self.bases@[k as int] == b,
            self.pos(b) == k,
            512 * k + 512 <= self.entries@.len(),
    {
        let mut k: usize = 0;
        while k < self.bases.len()
            invariant
                self.wf(),
                self.has(b),
                k <= self.bases@.len(),
                forall|j: int| 0 <= j < k ==> self.bases@[j] != b,
            decreases self.bases@.len() - k,
        {
            if self.bases[k] == b {
                proof {
                    self.lemma_pos(k as int);
                }
                return k;
            }
            k = k + 1;
        }
        proof {
            let j = choose|j: int| 0 <= j < self.bases@.len() && self.bases@[j] == b;
        }
        0
    }

    /// Read entry `idx` of the table page at `base`.
    pub fn read(&self, base: u64, idx: usize) -> (r: u64)
        requires
            self.wf(),
            self.has(base),
            idx < 512,
        ensures
            r == self.entry(base, idx as int),
    {
        let k = self.find(base);
        let _n = self.entries.len();
        self.entries[512 * k + idx]
    }

    /// Write entry `idx` of the table page at `base`.
    pub fn write(&mut self, base: u64, idx: usize, val: u64)
        requires
            old(self).wf(),
            old(self).has(base),
            idx < 512,
        ensures
            final(self).wf(),
            final(self).num_frames() == old(self).num_frames(),
            forall|b: u64| #[trigger] final(self).has(b) == old(self).has(b),
            forall|b: u64, i: int|
                old(self).has(b) && 0 <= i < 512 ==> #[trigger] final(self).entry(b, i) == if b
                    == base && i == idx {
                    val
                } else {
                    old(self).entry(b, i)
                },
    {
        let k = self.find(base);
        let _n = self.entries.len();
        self.entries.set(512 * k + idx, val);
        proof {
            assert forall|b: u64, i: int|
                old(self).has(b) && 0 <= i < 512 implies #[trigger] self.entry(b, i) == if b == base
                    && i == idx {
                    val
                } else {
                    old(self).entry(b, i)
                } by {
                let kb = old(self).pos(b);
                assert(self.bases@[kb] == b);
                if b != base {
                    assert(kb != k);
                }
            }
        }
    }

    /// Add a zeroed table page at physical address `base`.
    pub fn add_zeroed(&mut self, base: u64)
        requires
            old(self).wf(),
            !old(self).has(base),
        ensures
            final(self).wf(),
            final(self).num_frames() == old(self).num_frames() + 1,
            forall|b: u64| #[trigger] final(self).has(b) == (old(self).has(b) || b == base),
            forall|b: u64, i: int|
                old(self).has(b) && 0 <= i < 512 ==> #[trigger] final(self).entry(b, i)
                    == old(self).entry(b, i),
            forall|i: int| 0 <= i < 512 ==> #[trigger] final(self).entry(base, i) == 0,
    {
        let ghost old_len = self.bases@.len();
        let mut i: usize = 0;
        while i < 512
            invariant
                i <= 512,
                self.bases@ == old(self).bases@,
                self.entries@.len() == old(self).entries@.len() + i,
                self.entries@.subrange(0, old(self).entries@.len() as int) == old(
                    self,
                ).entries@,
                forall|j: int|
                    old(self).entries@.len() <= j < self.entries@.len() ==> self.entries@[j] == 0,
            decreases 512 - i,
        {
            self.entries.push(0);
            proof {
                assert(self.entries@.subrange(0, old(self).entries@.len() as int) =~= old(
                    self,
                ).entries@);
            }
            i = i + 1;
        }
        self.bases.push(base);
        proof {
            assert(self.bases@.no_duplicates()) by {
                assert forall|a: int, c: int|
                    0 <= a < self.bases@.len() && 0 <= c < self.bases@.len() && a != c implies self.bases@[a]
                    != self.bases@[c] by {
                    if a == old_len {
                        assert(self.bases@[c] == old(self).bases@[c]);
                        assert(old(self).bases@.contains(self.bases@[c]));
                    } else if c == old_len {
                        assert(self.bases@[a] == old(self).bases@[a]);
                        assert(old(self).bases@.contains(self.bases@[a]));
                    }
                }
            }
            assert forall|b: u64| #[trigger] self.has(b) == (old(self).has(b) || b == base) by {
                if self.has(b) && b != base {
                    let k = choose|k: int| 0 <= k < self.bases@.len() && self.bases@[k] == b;
                    assert(old(self).bases@[k] == b);
                }
                if b == base {
                    assert(self.bases@[old_len as int] == base);
                }
                if old(self).has(b) {
                    let k = choose|k: int| 0 <= k < old(self).bases@.len() && old(self).bases@[k] == b;
                    assert(self.bases@[k] == b);
                }
            }
            assert forall|b: u64, i: int|
                old(self).has(b) && 0 <= i < 512 implies #[trigger] self.entry(b, i) == old(
                    self,
                ).entry(b, i) by {
                let kb = old(self).pos(b);
                assert(old(self).bases@[kb] == b);
                self.lemma_pos(kb);
                assert(self.entries@[512 * kb + i] == old(self).entries@[512 * kb + i]);
            }
            self.lemma_pos(old_len as int);
        }
    }
}

impl PtMem {
    /// Physical address of the second level table that entry `i` of `root`
    /// points to.
    pub closed spec fn l1(&self, root: u64, i: int) -> u64 {
        spec_pte_to_phy(self.entry(root, i))
    }

    /// Entry `i` of `root` is valid.
    pub closed spec fn v2(&self, root: u64, i: int) -> bool {
        pte_valid(self.entry(root, i))
    }

    /// Physical address of the leaf table reached through entries `i`, `j`.
    pub closed spec fn l0(&self, root: u64, i: int, j: int) -> u64 {
        spec_pte_to_phy(self.entry(self.l1(root, i), j))
    }

    /// Entries `i` of the root and `j` of the second level table are valid.
    pub closed spec fn v1(&self, root: u64, i: int, j: int) -> bool {
        self.v2(root, i) && pte_valid(self.entry(self.l1(root, i), j))
    }

    /// The tables reachable from `root` are held, and form a tree: no table
    /// page is reached twice, at two levels or through two entries.
    #[verifier::opaque]
    pub closed spec fn tables_wf(&self, root: u64) -> bool {
        &&& self.wf()
        &&& self.has(root)
        &&& forall|i: int|
            0 <= i < 512 && #[trigger] self.v2(root, i) ==> self.has(self.l1(root, i)) && self.l1(
                root,
                i,
            ) != root
        &&& forall|i: int, j: int|
            0 <= i < 512 && 0 <= j < 512 && #[trigger] self.v1(root, i, j) ==> self.has(
                self.l0(root, i, j),
            ) && self.l0(root, i, j) != root
        &&& forall|i: int, j: int, i2: int|
            0 <= i < 512 && 0 <= j < 512 && 0 <= i2 < 512 && #[trigger] self.v1(root, i, j)
                && #[trigger] self.v2(root, i2) ==> self.l0(root, i, j) != self.l1(root, i2)
        &&& forall|i: int, i2: int|
            0 <= i < 512 && 0 <= i2 < 512 && i != i2 && #[trigger] self.v2(root, i)
                && #[trigger] self.v2(root, i2) ==> self.l1(root, i) != self.l1(root, i2)
        &&& forall|i: int, j: int, i2: int, j2: int|
            0 <= i < 512 && 0 <= j < 512 && 0 <= i2 < 512 && 0 <= j2 < 512 && (i != i2 || j != j2)
                && #[trigger] self.v1(root, i, j) && #[trigger] self.v1(root, i2, j2) ==> self.l0(
                root,
                i,
                j,
            ) != self.l0(root, i2, j2)
    }

    /// The tables reachable from `root` are held.
    pub proof fn lemma_tables_held(&self, root: u64)
        requires
            self.tables_wf(root),
        ensures
            self.wf(),
            self.has(root),
            forall|i: int| 0 <= i < 512 && #[trigger] self.v2(root, i) ==> self.has(self.l1(root, i)),
            forall|i: int, j: int|
                0 <= i < 512 && 0 <= j < 512 && #[trigger] self.v1(root, i, j) ==> self.has(
                    self.l0(root, i, j),
                ),
    {
        reveal(PtMem::tables_wf);
    }

    /// The leaf PTE reached through entries `i`, `j`, `k`, when every entry
    /// on the way is valid.
    pub closed spec fn walk_leaf(&self, root: u64, i: int, j: int, k: int) -> Option<u64> {
        if self.v1(root, i, j) && pte_valid(self.entry(self.l0(root, i, j), k)) {
            Some(self.entry(self.l0(root, i, j), k))
        } else {
            None
        }
    }

    /// The leaf PTE that maps `va` in the page table at `root`, if any.
    pub open spec fn translate(&self, root: u64, va: u64) -> Option<u64> {
        self.walk_leaf(root, spec_vpn(va, 2), spec_vpn(va, 1), spec_vpn(va, 0))
    }

    /// A fresh, zeroed table page maps nothing.
    pub proof fn lemma_zeroed_root_maps_nothing(&self, root: u64)
        requires
            self.wf(),
            self.has(root),
            forall|i: int| 0 <= i < 512 ==> #[trigger] self.entry(root, i) == 0,
        ensures
            self.tables_wf(root),
            forall|va: u64| #[trigger] self.translate(root, va) is None,
    {
        reveal(PtMem::tables_wf);
        assert forall|i: int| 0 <= i < 512 implies !#[trigger] self.v2(root, i) by {
            assert(self.entry(root, i) == 0);
        }
        assert forall|va: u64| #[trigger] self.translate(root, va) is None by {
            assert(self.entry(root, spec_vpn(va, 2)) == 0);
        }
    }
}

/// Changing one entry of a leaf table of `root` changes the translation of
/// that entry alone and keeps the tree.
proof fn lemma_leaf_write(old: PtMem, new: PtMem, root: u64, i0: int, j0: int, k0: int, v: u64)
    requires
        old.tables_wf(root),
        0 <= i0 < 512,
        0 <= j0 < 512,
        0 <= k0 < 512,
        old.v1(root, i0, j0),
        new.wf(),
        forall|b: u64| #[trigger] new.has(b) == old.has(b),
        forall|b: u64, i: int|
            old.has(b) && 0 <= i < 512 ==> #[trigger] new.entry(b, i) == if b == old.l0(
                root,
                i0,
                j0,
            ) && i == k0 {
                v
            } else {
                old.entry(b, i)
            },
    ensures
        new.tables_wf(root),
        forall|i: int, j: int, k: int|
            0 <= i < 512 && 0 <= j < 512 && 0 <= k < 512 ==> #[trigger] new.walk_leaf(root, i, j, k)
                == if i == i0 && j == j0 && k == k0 {
                if pte_valid(v) {
                    Some(v)
                } else {
                    None
                }
            } else {
                old.walk_leaf(root, i, j, k)
            },
{
    reveal(PtMem::tables_wf);
    let f = old.l0(root, i0, j0);
    assert forall|i: int| 0 <= i < 512 implies #[trigger] new.entry(root, i) == old.entry(root, i)
        by {}
    assert forall|i: int| 0 <= i < 512 implies #[trigger] new.v2(root, i) == old.v2(root, i)
        && new.l1(root, i) == old.l1(root, i) by {
        assert(new.entry(root, i) == old.entry(root, i));
    }
    assert forall|i: int, j: int|
        0 <= i < 512 && 0 <= j < 512 implies #[trigger] new.v1(root, i, j) == old.v1(root, i, j)
        && (old.v1(root, i, j) ==> new.l0(root, i, j) == old.l0(root, i, j)) by {
        assert(new.entry(root, i) == old.entry(root, i));
        if old.v2(root, i) {
            assert(old.l1(root, i) != f);
            assert(new.entry(old.l1(root, i), j) == old.entry(old.l1(root, i), j));
        }
    }
    assert forall|i: int, j: int, k: int|
        0 <= i < 512 && 0 <= j < 512 && 0 <= k < 512 implies #[trigger] new.walk_leaf(root, i, j, k)
        == if i == i0 && j == j0 && k == k0 {
        if pte_valid(v) {
            Some(v)
        } else {
            None
        }
    } else {
        old.walk_leaf(root, i, j, k)
    } by {
        assert(new.v1(root, i, j) == old.v1(root, i, j));
        if old.v1(root, i, j) {
            assert(new.l0(root, i, j) == old.l0(root, i, j));
            if i != i0 || j != j0 {
                assert(old.l0(root, i, j) != f);
            }
            assert(new.entry(old.l0(root, i, j), k) == if old.l0(root, i, j) == f && k == k0 {
                v
            } else {
                old.entry(old.l0(root, i, j), k)
            });
        }
    }
}

/// Pointing the invalid root entry `i0` at a fresh zeroed table `f` keeps the
/// tree and every translation.
proof fn lemma_install_l1(old: PtMem, new: PtMem, root: u64, i0: int, f: u64)
    requires
        old.tables_wf(root),
        0 <= i0 < 512,
        !old.v2(root, i0),
        !old.has(f),
        page_aligned(f as int),
        f < pa_top(),
        new.wf(),
        forall|b: u64| #[trigger] new.has(b) == (old.has(b) || b == f),
        forall|b: u64, i: int|
            old.has(b) && 0 <= i < 512 ==> #[trigger] new.entry(b, i) == if b == root && i == i0 {
                spec_phy_to_pte(f) | PTE_VALID
            } else {
                old.entry(b, i)
            },
        forall|i: int| 0 <= i < 512 ==> #[trigger] new.entry(f, i) == 0,
    ensures
        new.tables_wf(root),
        forall|i: int, j: int, k: int|
            0 <= i < 512 && 0 <= j < 512 && 0 <= k < 512 ==> #[trigger] new.walk_leaf(root, i, j, k)
                == old.walk_leaf(root, i, j, k),
        new.v2(root, i0),
        new.l1(root, i0) == f,
{
    reveal(PtMem::tables_wf);
    lemma_table_pte(f);
    assert forall|i: int| 0 <= i < 512 implies #[trigger] new.v2(root, i) == (old.v2(root, i) || i
        == i0) && (i == i0 ==> new.l1(root, i) == f) && (i != i0 ==> new.l1(root, i) == old.l1(
        root,
        i,
    )) by {
        assert(new.entry(root, i) == if i == i0 {
            spec_phy_to_pte(f) | PTE_VALID
        } else {
            old.entry(root, i)
        });
    }
    assert forall|i: int, j: int|
        0 <= i < 512 && 0 <= j < 512 implies #[trigger] new.v1(root, i, j) == old.v1(root, i, j)
        && (old.v1(root, i, j) ==> new.l0(root, i, j) == old.l0(root, i, j)) by {
        if i == i0 {
            assert(new.entry(f, j) == 0);
        } else if old.v2(root, i) {
            let t = old.l1(root, i);
            assert(t != root);
            assert(new.entry(t, j) == old.entry(t, j));
        }
    }
    assert forall|i: int, j: int, k: int|
        0 <= i < 512 && 0 <= j < 512 && 0 <= k < 512 implies #[trigger] new.walk_leaf(root, i, j, k)
        == old.walk_leaf(root, i, j, k) by {
        assert(new.v1(root, i, j) == old.v1(root, i, j));
        if old.v1(root, i, j) {
            let t = old.l0(root, i, j);
            assert(new.l0(root, i, j) == t);
            assert(t != root);
            assert(new.entry(t, k) == old.entry(t, k));
        }
    }
}

/// Pointing the invalid entry `j0` of the valid second level table under root
/// entry `i0` at a fresh zeroed table `f` keeps the tree and every
/// translation.
proof fn lemma_install_l0(
    old: PtMem,
    new: PtMem,
    root: u64,
    i0: int,
    j0: int,
    f: u64,
)
    requires
        old.tables_wf(root),
        0 <= i0 < 512,
        0 <= j0 < 512,
        old.v2(root, i0),
        !old.v1(root, i0, j0),
        !old.has(f),
        page_aligned(f as int),
        f < pa_top(),
        new.wf(),
        forall|b: u64| #[trigger] new.has(b) == (old.has(b) || b == f),
        forall|b: u64, i: int|
            old.has(b) && 0 <= i < 512 ==> #[trigger] new.entry(b, i) == if b == old.l1(root, i0)
                && i == j0 {
                spec_phy_to_pte(f) | PTE_VALID
            } else {
                old.entry(b, i)
            },
        forall|i: int| 0 <= i < 512 ==> #[trigger] new.entry(f, i) == 0,
    ensures
        new.tables_wf(root),
        forall|i: int, j: int, k: int|
            0 <= i < 512 && 0 <= j < 512 && 0 <= k < 512 ==> #[trigger] new.walk_leaf(root, i, j, k)
                == old.walk_leaf(root, i, j, k),
        new.v1(root, i0, j0),
        new.l0(root, i0, j0) == f,
{
    reveal(PtMem::tables_wf);
    lemma_table_pte(f);
    let t0 = old.l1(root, i0);
    assert forall|i: int| 0 <= i < 512 implies #[trigger] new.v2(root, i) == old.v2(root, i)
        && new.l1(root, i) == old.l1(root, i) by {
        assert(new.entry(root, i) == old.entry(root, i));
    }
    assert forall|i: int, j: int|
        0 <= i < 512 && 0 <= j < 512 implies #[trigger] new.v1(root, i, j) == (old.v1(root, i, j) || (
        i == i0 && j == j0)) && (i == i0 && j == j0 ==> new.l0(root, i, j) == f) && (old.v1(
        root,
        i,
        j,
    ) ==> new.l0(root, i, j) == old.l0(root, i, j)) by {
        if old.v2(root, i) {
            let t = old.l1(root, i);
            if i != i0 {
                assert(t != t0);
            }
            assert(new.entry(t, j) == if t == t0 && j == j0 {
                spec_phy_to_pte(f) | PTE_VALID
            } else {
                old.entry(t, j)
            });
        }
    }
    assert forall|i: int, j: int, k: int|
        0 <= i < 512 && 0 <= j < 512 && 0 <= k < 512 implies #[trigger] new.walk_leaf(root, i, j, k)
        == old.walk_leaf(root, i, j, k) by {
        if i == i0 && j == j0 {
            assert(new.entry(f, k) == 0);
        } else if old.v1(root, i, j) {
            let t = old.l0(root, i, j);
            assert(new.l0(root, i, j) == t);
            assert(t != t0);
            assert(new.entry(t, k) == old.entry(t, k));
        }
    }
}

/// No free page of the pool is a table page.
#[verifier::opaque]
pub open spec fn pool_disjoint(pool: &PagePool, mem: &PtMem) -> bool {
    forall|x: u64| pool.free().contains(x) ==> !mem.has(x)
}

/// From `(p0, m0)` to `(p1, m1)` table pages were only added, each taken from
/// the pool, and no other page left the pool.
pub open spec fn pages_moved(p0: &PagePool, m0: &PtMem, p1: &PagePool, m1: &PtMem) -> bool {
    &&& p1.bottom() == p0.bottom()
    &&& p1.top() == p0.top()
    &&& forall|b: u64| m0.has(b) ==> m1.has(b)
    &&& forall|x: u64| p1.free().contains(x) ==> p0.free().contains(x)
    &&& forall|x: u64| p0.free().contains(x) ==> (p1.free().contains(x) <==> !m1.has(x))
    &&& forall|x: u64| m1.has(x) ==> m0.has(x) || p0.free().contains(x)
}

proof fn lemma_pages_moved_refl(p0: &PagePool, m0: &PtMem)
    requires
        pool_disjoint(p0, m0),
    ensures
        pages_moved(p0, m0, p0, m0),
{
    reveal(pages_moved);
    reveal(pool_disjoint);
}

proof fn lemma_pages_moved_trans(
    p0: &PagePool,
    m0: &PtMem,
    p1: &PagePool,
    m1: &PtMem,
    p2: &PagePool,
    m2: &PtMem,
)
    requires
        pages_moved(p0, m0, p1, m1),
        pages_moved(p1, m1, p2, m2),
    ensures
        pages_moved(p0, m0, p2, m2),
{
    reveal(pages_moved);
}

/// A pool that lost free pages stays disjoint from the table pages.
pub proof fn lemma_pool_disjoint_shrink(p0: &PagePool, p1: &PagePool, mem: &PtMem)
    requires
        pool_disjoint(p0, mem),
        p1.free().subset_of(p0.free()),
    ensures
        pool_disjoint(p1, mem),
{
    reveal(pool_disjoint);
}

/// A page table: the physical address of its root table page.
#[derive(Copy, Clone, Debug, PartialEq, Eq, Structural)]
pub struct PageTable {
    pub base: u64,
}

/// The location of a PTE: entry `index` of the table page at `table`.
#[derive(Copy, Clone, Debug, PartialEq, Eq, Structural)]
pub struct PtePtr {
    pub table: u64,
    pub index: usize,
}

impl PageTable {
    /// A page table whose root table page is at `addr`.
    pub fn new(addr: u64) -> (pt: Self)
        ensures
            pt.base == addr,
    {
        PageTable { base: addr }
    }

    /// The SATP value that selects this page table (Sv39 mode).
    pub fn satp(&self) -> (r: u64)
        ensures
            r == 0x8000_0000_0000_0000 + self.base / 4096,
    {
        phy_to_satp(self.base)
    }
}

/// Find the table page one level down from entry `idx` of `table`, making a
/// fresh table from the pool when the entry is invalid and `alloc_new` holds.
fn next_table(
    pool: &mut PagePool,
    mem: &mut PtMem,
    table: u64,
    idx: usize,
    alloc_new: bool,
) -> (r: Result<u64, VmError>)
    requires
        old(mem).wf(),
        old(mem).has(table),
        idx < 512,
        old(pool).wf(),
        old(pool).top() <= pa_top(),
        pool_disjoint(old(pool), old(mem)),
    ensures
        final(mem).wf(),
        final(pool).wf(),
        pool_disjoint(final(pool), final(mem)),
        pages_moved(old(pool), old(mem), final(pool), final(mem)),
        old(pool).free().len() <= final(pool).free().len() + 1,
        r is Err ==> final(pool).free().len() == old(pool).free().len(),
        pte_valid(old(mem).entry(table, idx as int)) ==> r == Ok::<u64, VmError>(
            spec_pte_to_phy(old(mem).entry(table, idx as int)),
        ) && *final(mem) == *old(mem) && *final(pool) == *old(pool),
        !pte_valid(old(mem).entry(table, idx as int)) ==> match r {
            Ok(f) => {
                &&& alloc_new
                &&& old(pool).free().contains(f)
                &&& !old(mem).has(f)
                &&& page_aligned(f as int)
                &&& f < pa_top()
                &&& final(pool).free() == old(pool).free().remove(f)
                &&& forall|b: u64| #[trigger] final(mem).has(b) == (old(mem).has(b) || b == f)
                &&& forall|b: u64, i: int|
                    old(mem).has(b) && 0 <= i < 512 ==> #[trigger] final(mem).entry(b, i) == if b
                        == table && i == idx {
                        spec_phy_to_pte(f) | PTE_VALID
                    } else {
                        old(mem).entry(b, i)
                    }
                &&& forall|i: int| 0 <= i < 512 ==> #[trigger] final(mem).entry(f, i) == 0
            },
            Err(e) => {
                &&& (!alloc_new && e == VmError::PallocFail) || (alloc_new && e
                    == VmError::OutOfPages && old(pool).free() == Set::<u64>::empty())
                &&& *final(mem) == *old(mem)
                &&& final(pool).free() == old(pool).free()
            },
        },
{
    reveal(pool_disjoint);
    reveal(pages_moved);
    let e = mem.read(table, idx);
    proof {
        lemma_valid_bit(e);
    }
    if e & PTE_VALID != 0 {
        Ok(pte_to_phy(e))
    } else if alloc_new {
        match pool.palloc() {
            Ok(pg) => {
                proof {
                    old(pool).lemma_free_in_bounds(pg.addr);
                    old(pool).lemma_free_finite();
                }
                mem.add_zeroed(pg.addr);
                let ghost mid = *mem;
                let pte = phy_to_pte(pg.addr) | PTE_VALID;
                assert(mem.has(table));
                mem.write(table, idx, pte);
                proof {
                    assert forall|b: u64, i: int|
                        old(mem).has(b) && 0 <= i < 512 implies #[trigger] mem.entry(b, i) == if b
                        == table && i == idx {
                        spec_phy_to_pte(pg.addr) | PTE_VALID
                    } else {
                        old(mem).entry(b, i)
                    } by {
                        assert(mid.entry(b, i) == old(mem).entry(b, i));
                    }
                    assert forall|i: int| 0 <= i < 512 implies #[trigger] mem.entry(pg.addr, i)
                        == 0 by {
                        assert(mid.entry(pg.addr, i) == 0);
                        assert(mid.has(pg.addr));
                    }
                }
                Ok(pg.addr)
            },
            Err(e) => Err(e),
        }
    } else {
        Err(VmError::PallocFail)
    }
}

/// Get the location of the leaf PTE for `va` in the page table `pt`, making
/// missing tables from the pool when `alloc_new` holds. Translations do not
/// change.
pub fn walk(
    pool: &mut PagePool,
    mem: &mut PtMem,
    pt: PageTable,
    va: u64,
    alloc_new: bool,
) -> (r: Result<PtePtr, VmError>)
    requires
        old(mem).tables_wf(pt.base),
        old(pool).wf(),
        old(pool).top() <= pa_top(),
        pool_disjoint(old(pool), old(mem)),
        va < VA_TOP,
    ensures
        final(mem).tables_wf(pt.base),
        final(pool).wf(),
        pool_disjoint(final(pool), final(mem)),
        pages_moved(old(pool), old(mem), final(pool), final(mem)),
        old(pool).free().len() <= final(pool).free().len() + 2,
        r is Err ==> old(pool).free().len() <= final(pool).free().len() + 1,
        forall|i: int, j: int, k: int|
            0 <= i < 512 && 0 <= j < 512 && 0 <= k < 512 ==> #[trigger] final(mem).walk_leaf(
                pt.base,
                i,
                j,
                k,
            ) == old(mem).walk_leaf(pt.base, i, j, k),
        old(mem).v1(pt.base, spec_vpn(va, 2), spec_vpn(va, 1)) ==> r is Ok,
        match r {
            Ok(p) => {
                &&& final(mem).v1(pt.base, spec_vpn(va, 2), spec_vpn(va, 1))
                &&& p.table == final(mem).l0(pt.base, spec_vpn(va, 2), spec_vpn(va, 1))
                &&& p.index == spec_vpn(va, 0)
                &&& final(mem).has(p.table)
            },
            Err(e) => {
                ||| (!alloc_new && e == VmError::PallocFail)
                ||| (alloc_new && e == VmError::OutOfPages && final(pool).free() == Set::<
                    u64,
                >::empty())
            },
        },
{
    let root = pt.base;
    let i2 = vpn(va, 2) as usize;
    let i1 = vpn(va, 1) as usize;
    let i0 = vpn(va, 0) as usize;
    let ghost m0 = *mem;
    let ghost p0 = *pool;
    proof {
        mem.lemma_tables_held(root);
    }
    let t1 = match next_table(pool, mem, root, i2, alloc_new) {
        Ok(t) => t,
        Err(e) => {
            return Err(e);
        },
    };
    let ghost m1 = *mem;
    let ghost p1 = *pool;
    proof {
        if !pte_valid(m0.entry(root, i2 as int)) {
            lemma_install_l1(m0, m1, root, i2 as int, t1);
        }
        assert(m1.v2(root, i2 as int) && m1.l1(root, i2 as int) == t1);
        m1.lemma_tables_held(root);
    }
    assert(mem.has(t1));
    let t0 = match next_table(pool, mem, t1, i1, alloc_new) {
        Ok(t) => t,
        Err(e) => {
            return Err(e);
        },
    };
    proof {
        if !pte_valid(m1.entry(t1, i1 as int)) {
            lemma_install_l0(m1, *mem, root, i2 as int, i1 as int, t0);
        }
        lemma_pages_moved_trans(&p0, &m0, &p1, &m1, pool, mem);
        assert(mem.v1(root, i2 as int, i1 as int));
        assert(t0 == mem.l0(root, i2 as int, i1 as int));
        assert forall|i: int, j: int, k: int|
            0 <= i < 512 && 0 <= j < 512 && 0 <= k < 512 implies #[trigger] mem.walk_leaf(
            root,
            i,
            j,
            k,
        ) == m0.walk_leaf(root, i, j, k) by {
            assert(mem.walk_leaf(root, i, j, k) == m1.walk_leaf(root, i, j, k));
            assert(m1.walk_leaf(root, i, j, k) == m0.walk_leaf(root, i, j, k));
        }
    }
    Ok(PtePtr { table: t0, index: i0 })
}

/// First byte of the page holding `a`.
pub open spec fn page_floor(a: int) -> int {
    a / 4096 * 4096
}

/// Number of pages that the `size` bytes from `va` touch.
pub open spec fn pages_spanned(va: int, size: int) -> int {
    (va + size - 1) / 4096 - va / 4096 + 1
}

/// The address of the `k`th page of the range that starts at `va`.
pub open spec fn range_page(va: int, k: int) -> u64 {
    (page_floor(va) + k * 4096) as u64
}

proof fn lemma_leaf_valid(pa: u64, flags: u64)
    ensures
        pte_valid(leaf_pte(pa, flags)),
{
    let x = spec_phy_to_pte(pa);
    assert((x | (flags | 1u64)) % 2 == 1) by (bit_vector);
}

/// Every translation of `new` equals that of `old`, but those of the page
/// holding `va`, which map through `v`.
proof fn lemma_translate_after_leaf_write(old: PtMem, new: PtMem, root: u64, va: u64, v: u64)
    requires
        va < VA_TOP,
        pte_valid(v),
        forall|i: int, j: int, k: int|
            0 <= i < 512 && 0 <= j < 512 && 0 <= k < 512 ==> #[trigger] new.walk_leaf(root, i, j, k)
                == if i == spec_vpn(va, 2) && j == spec_vpn(va, 1) && k == spec_vpn(va, 0) {
                Some(v)
            } else {
                old.walk_leaf(root, i, j, k)
            },
    ensures
        forall|va2: u64|
            va2 < VA_TOP ==> #[trigger] new.translate(root, va2) == if va2 / 4096 == va / 4096 {
                Some(v)
            } else {
                old.translate(root, va2)
            },
{
    assert forall|va2: u64| va2 < VA_TOP implies #[trigger] new.translate(root, va2) == if va2
        / 4096 == va / 4096 {
        Some(v)
    } else {
        old.translate(root, va2)
    } by {
        lemma_vpn_page(va2, va);
        assert(new.walk_leaf(root, spec_vpn(va2, 2), spec_vpn(va2, 1), spec_vpn(va2, 0)) == if spec_vpn(
            va2,
            2,
        ) == spec_vpn(va, 2) && spec_vpn(va2, 1) == spec_vpn(va, 1) && spec_vpn(va2, 0) == spec_vpn(
            va,
            0,
        ) {
            Some(v)
        } else {
            old.walk_leaf(root, spec_vpn(va2, 2), spec_vpn(va2, 1), spec_vpn(va2, 0))
        });
    }
}

/// Map the page at `start` to the physical page of `phys` with `flag`.
fn map_one(
    pool: &mut PagePool,
    mem: &mut PtMem,
    pt: PageTable,
    start: u64,
    phys: u64,
    flag: u64,
) -> (r: Result<(), VmError>)
    requires
        old(mem).tables_wf(pt.base),
        old(pool).wf(),
        old(pool).top() <= pa_top(),
        pool_disjoint(old(pool), old(mem)),
        start < VA_TOP,
    ensures
        final(mem).tables_wf(pt.base),
        final(pool).wf(),
        pool_disjoint(final(pool), final(mem)),
        pages_moved(old(pool), old(mem), final(pool), final(mem)),
        old(pool).free().len() <= final(pool).free().len() + 2,
        r matches Err(e) ==> e == VmError::OutOfPages ==> old(pool).free().len() <= final(pool).free().len() + 1,
        forall|va2: u64|
            va2 < VA_TOP && va2 / 4096 != start / 4096 ==> #[trigger] final(mem).translate(
                pt.base,
                va2,
            ) == old(mem).translate(pt.base, va2),
        r is Ok ==> final(mem).translate(pt.base, start) == Some(leaf_pte(phys, flag)) && old(
            mem,
        ).translate(pt.base, start) is None,
        r matches Err(e) ==> {
            ||| (e == VmError::PallocFail && old(mem).translate(pt.base, start) is Some)
            ||| (e == VmError::OutOfPages && final(pool).free() == Set::<u64>::empty())
        },
{
    reveal(pool_disjoint);
    let root = pt.base;
    let ghost m1 = *mem;
    let ptr = match walk(pool, mem, pt, start, true) {
        Ok(p) => p,
        Err(e) => {
            proof {
                assert forall|va2: u64| #[trigger] mem.translate(root, va2) == m1.translate(root, va2)
                    by {
                    assert(mem.walk_leaf(root, spec_vpn(va2, 2), spec_vpn(va2, 1), spec_vpn(va2, 0))
                        == m1.walk_leaf(root, spec_vpn(va2, 2), spec_vpn(va2, 1), spec_vpn(va2, 0)));
                }
            }
            return Err(e);
        },
    };
    let ghost m2 = *mem;
    proof {
        m2.lemma_tables_held(root);
        assert forall|va2: u64| #[trigger] m2.translate(root, va2) == m1.translate(root, va2) by {
            assert(m2.walk_leaf(root, spec_vpn(va2, 2), spec_vpn(va2, 1), spec_vpn(va2, 0))
                == m1.walk_leaf(root, spec_vpn(va2, 2), spec_vpn(va2, 1), spec_vpn(va2, 0)));
        }
    }
    let cur = mem.read(ptr.table, ptr.index);
    proof {
        lemma_valid_bit(cur);
    }
    if cur & PTE_VALID != 0 {
        proof {
            assert(m2.translate(root, start) == Some(cur));
        }
        return Err(VmError::PallocFail);
    }
    let leaf = phy_to_pte(phys) | (flag | PTE_VALID);
    mem.write(ptr.table, ptr.index, leaf);
    proof {
        lemma_leaf_valid(phys, flag);
        lemma_leaf_write(
            m2,
            *mem,
            root,
            spec_vpn(start, 2),
            spec_vpn(start, 1),
            spec_vpn(start, 0),
            leaf,
        );
        lemma_translate_after_leaf_write(m2, *mem, root, start, leaf);
        assert(m2.translate(root, start) == m1.translate(root, start));
        assert forall|va2: u64|
            va2 < VA_TOP && va2 / 4096 != start / 4096 implies #[trigger] mem.translate(root, va2)
            == m1.translate(root, va2) by {
            assert(m2.translate(root, va2) == m1.translate(root, va2));
        }
    }
    Ok(())
}

/// What `page_map` keeps while it maps the pages of its range in order: the
/// first `done` pages map to consecutive physical pages from `pa`, they were
/// unmapped in `m0`, and every other address translates as in `m0`.
spec fn mapped_prefix(
    m0: PtMem,
    m: PtMem,
    root: u64,
    va: int,
    pa: int,
    flag: u64,
    done: int,
) -> bool {
    &&& forall|k: int|
        0 <= k < done ==> #[trigger] m.translate(root, range_page(va, k)) == Some(
            leaf_pte((pa + k * 4096) as u64, flag),
        )
    &&& forall|k: int| 0 <= k < done ==> #[trigger] m0.translate(root, range_page(va, k)) is None
    &&& forall|va2: u64|
        va2 < VA_TOP && !(page_floor(va) <= va2 < page_floor(va) + done * 4096) ==> #[trigger] m.translate(
            root,
            va2,
        ) == m0.translate(root, va2)
}

proof fn lemma_mapped_prefix_step(
    m0: PtMem,
    m1: PtMem,
    m2: PtMem,
    root: u64,
    va: int,
    pa: int,
    flag: u64,
    done: int,
)
    requires
        0 <= va,
        0 <= done,
        page_floor(va) + (done + 1) * 4096 <= VA_TOP,
        mapped_prefix(m0, m1, root, va, pa, flag, done),
        forall|va2: u64|
            va2 < VA_TOP && va2 / 4096 != range_page(va, done) / 4096 ==> #[trigger] m2.translate(
                root,
                va2,
            ) == m1.translate(root, va2),
        m2.translate(root, range_page(va, done)) == Some(leaf_pte((pa + done * 4096) as u64, flag)),
        m1.translate(root, range_page(va, done)) is None,
    ensures
        mapped_prefix(m0, m2, root, va, pa, flag, done + 1),
{
    let start = range_page(va, done);
    assert(start == page_floor(va) + done * 4096);
    assert(m0.translate(root, start) is None);
    assert forall|k: int|
        0 <= k < done + 1 implies #[trigger] m2.translate(root, range_page(va, k)) == Some(
        leaf_pte((pa + k * 4096) as u64, flag),
    ) by {
        let a = range_page(va, k);
        if k < done {
            assert(a / 4096 != start / 4096);
            assert(m2.translate(root, a) == m1.translate(root, a));
        }
    }
    assert forall|k: int| 0 <= k < done + 1 implies #[trigger] m0.translate(
        root,
        range_page(va, k),
    ) is None by {
        if k == done {
            assert(range_page(va, k) == start);
        }
    }
    assert forall|va2: u64|
        va2 < VA_TOP && !(page_floor(va) <= va2 < page_floor(va) + (done + 1) * 4096) implies #[trigger] m2.translate(
        root,
        va2,
    ) == m0.translate(root, va2) by {
        assert(va2 / 4096 != start / 4096);
        assert(m2.translate(root, va2) == m1.translate(root, va2));
    }
}

proof fn lemma_mapped_prefix_fail(
    m0: PtMem,
    m1: PtMem,
    m2: PtMem,
    root: u64,
    va: int,
    pa: int,
    flag: u64,
    done: int,
    n: int,
)
    requires
        0 <= va,
        0 <= done < n,
        page_floor(va) + n * 4096 <= VA_TOP,
        mapped_prefix(m0, m1, root, va, pa, flag, done),
        forall|va2: u64|
            va2 < VA_TOP && va2 / 4096 != range_page(va, done) / 4096 ==> #[trigger] m2.translate(
                root,
                va2,
            ) == m1.translate(root, va2),
    ensures
        forall|va2: u64|
            va2 < VA_TOP && !(page_floor(va) <= va2 < page_floor(va) + n * 4096) ==> #[trigger] m2.translate(
                root,
                va2,
            ) == m0.translate(root, va2),
        m1.translate(root, range_page(va, done)) is Some ==> m0.translate(root, range_page(va, done)) is Some,
{
    let start = range_page(va, done);
    assert(start == page_floor(va) + done * 4096);
    assert forall|va2: u64|
        va2 < VA_TOP && !(page_floor(va) <= va2 < page_floor(va) + n * 4096) implies #[trigger] m2.translate(
        root,
        va2,
    ) == m0.translate(root, va2) by {
        assert(va2 / 4096 != start / 4096);
        assert(m2.translate(root, va2) == m1.translate(root, va2));
    }
}

/// Maps the pages touched by the `size` bytes from `va` to consecutive
/// physical pages from `pa`, with PTE flags `flag`. Translations of other
/// pages do not change; a page of the range that is already mapped refuses
/// the request with `PallocFail`.
pub fn page_map(
    pool: &mut PagePool,
    mem: &mut PtMem,
    pt: PageTable,
    va: u64,
    pa: u64,
    size: u64,
    flag: u64,
) -> (r: Result<(), VmError>)
    requires
        old(mem).tables_wf(pt.base),
        old(pool).wf(),
        old(pool).top() <= pa_top(),
        pool_disjoint(old(pool), old(mem)),
        size > 0,
        va + size <= VA_TOP,
        pa + pages_spanned(va as int, size as int) * 4096 <= u64::MAX,
    ensures
        final(mem).tables_wf(pt.base),
        final(pool).wf(),
        pool_disjoint(final(pool), final(mem)),
        pages_moved(old(pool), old(mem), final(pool), final(mem)),
        forall|va2: u64|
            va2 < VA_TOP && !(page_floor(va as int) <= va2 < page_floor(va as int) + pages_spanned(
                va as int,
                size as int,
            ) * 4096) ==> #[trigger] final(mem).translate(pt.base, va2) == old(mem).translate(
                pt.base,
                va2,
            ),
        r is Ok ==> forall|k: int|
            0 <= k < pages_spanned(va as int, size as int) ==> {
                &&& #[trigger] final(mem).translate(pt.base, range_page(va as int, k)) == Some(
                    leaf_pte((pa + k * 4096) as u64, flag),
                )
                &&& old(mem).translate(pt.base, range_page(va as int, k)) is None
            },
        r matches Err(e) ==> {
            ||| (e == VmError::PallocFail && exists|k: int|
                0 <= k < pages_spanned(va as int, size as int) && #[trigger] old(mem).translate(
                    pt.base,
                    range_page(va as int, k),
                ) is Some)
            ||| (e == VmError::OutOfPages && final(pool).free() == Set::<u64>::empty())
        },
        old(pool).free().len() <= final(pool).free().len() + 2 * pages_spanned(va as int, size as int),
        r matches Err(e) ==> e == VmError::OutOfPages ==> old(pool).free().len() < 2 * pages_spanned(
            va as int,
            size as int,
        ),
        old(pool).free().len() >= 2 * pages_spanned(va as int, size as int) && (forall|k: int|
            0 <= k < pages_spanned(va as int, size as int) ==> #[trigger] old(mem).translate(
                pt.base,
                range_page(va as int, k),
            ) is None) ==> r is Ok,
        r matches Err(e) ==> exists|d: int|
            #![trigger range_page(va as int, d)]
            0 <= d < pages_spanned(va as int, size as int) && (forall|k: int|
                0 <= k < d ==> #[trigger] final(mem).translate(pt.base, range_page(va as int, k))
                    == Some(leaf_pte((pa + k * 4096) as u64, flag)) && old(mem).translate(
                    pt.base,
                    range_page(va as int, k),
                ) is None) && ((e == VmError::PallocFail && old(mem).translate(
                pt.base,
                range_page(va as int, d),
            ) is Some) || (e == VmError::OutOfPages && final(pool).free() == Set::<u64>::empty())),
{
    let root = pt.base;
    let ghost m0 = *mem;
    let ghost p0 = *pool;
    let ghost n = pages_spanned(va as int, size as int);
    proof {
        lemma_pages_moved_refl(&p0, &m0);
        assert(va & !0xfffu64 == va / 4096 * 4096) by (bit_vector);
        assert((va + (size - 1)) as u64 & !0xfffu64 == (va + size - 1) / 4096 * 4096)
            by (bit_vector)
            requires
                va + size <= 0x80_0000_0000,
                size > 0,
        ;
    }
    let start0 = va & !(PAGE_SIZE - 1);
    let end = (va + (size - 1)) & !(PAGE_SIZE - 1);
    let mut start = start0;
    let mut phys = pa;
    let ghost mut done: int = 0;
    while start <= end
        invariant
            root == pt.base,
            p0 == *old(pool),
            m0 == *old(mem),
            mem.tables_wf(root),
            pool.wf(),
            pool.top() <= pa_top(),
            pool_disjoint(pool, mem),
            pages_moved(&p0, &m0, pool, mem),
            start0 == page_floor(va as int),
            end == page_floor(va + size - 1),
            n == pages_spanned(va as int, size as int),
            start0 + n * 4096 == end + 4096,
            end < VA_TOP,
            0 <= done <= n,
            start == start0 + done * 4096,
            phys == pa + done * 4096,
            pa + n * 4096 <= u64::MAX,
            mapped_prefix(m0, *mem, root, va as int, pa as int, flag, done),
            p0.free().len() <= pool.free().len() + 2 * done,
        decreases end + 4096 - start,
    {
        let ghost m1 = *mem;
        let ghost p1 = *pool;
        let res = map_one(pool, mem, pt, start, phys, flag);
        proof {
            lemma_pages_moved_trans(&p0, &m0, &p1, &m1, pool, mem);
            assert(range_page(va as int, done) == start);
        }
        match res {
            Err(e) => {
                proof {
                    lemma_mapped_prefix_fail(m0, m1, *mem, root, va as int, pa as int, flag, done, n);
                    assert forall|k: int| 0 <= k < done implies #[trigger] mem.translate(
                        root,
                        range_page(va as int, k),
                    ) == Some(leaf_pte((pa + k * 4096) as u64, flag)) by {
                        let a = range_page(va as int, k);
                        let b = range_page(va as int, done);
                        assert(a as int == start0 + k * 4096);
                        assert(b as int == start0 + done * 4096);
                        assert(a / 4096 != b / 4096) by (nonlinear_arith)
                            requires
                                start0 % 4096 == 0,
                                a == start0 + k * 4096,
                                b == start0 + done * 4096,
                                0 <= k < done,
                                start0 >= 0,
                        ;
                        assert(m1.translate(root, a) == Some(leaf_pte((pa + k * 4096) as u64, flag)));
                    }
                    assert(range_page(va as int, done) == start);
                }
                return Err(e);
            },
            Ok(()) => {},
        }
        proof {
            lemma_mapped_prefix_step(m0, m1, *mem, root, va as int, pa as int, flag, done);
        }
        start = start + PAGE_SIZE;
        phys = phys + PAGE_SIZE;
        proof {
            done = done + 1;
        }
    }
    Ok(())
}

/// PTE flags for pages of unprivileged processes.
pub fn user_process_flags(r: bool, w: bool, e: bool) -> (f: u64)
    ensures
        f == PTE_USER + (if r {
            PTE_READ
        } else {
            0
        }) + (if w {
            PTE_WRITE
        } else {
            0
        }) + (if e {
            PTE_EXEC
        } else {
            0
        }),
{
    let rf = if r {
        PTE_READ
    } else {
        0
    };
    let wf = if w {
        PTE_WRITE
    } else {
        0
    };
    let ef = if e {
        PTE_EXEC
    } else {
        0
    };
    proof {
        assert(0x10u64 | rf | wf | ef == 0x10u64 + rf + wf + ef) by (bit_vector)
            requires
                rf == 0 || rf == 2,
                wf == 0 || wf == 4,
                ef == 0 || ef == 8,
        ;
    }
    PTE_USER | rf | wf | ef
}

/// PTE flags for pages of privileged processes.
pub fn kernel_process_flags(r: bool, w: bool, e: bool) -> (f: u64)
    ensures
        f == (if r {
            PTE_READ
        } else {
            0
        }) + (if w {
            PTE_WRITE
        } else {
            0
        }) + (if e {
            PTE_EXEC
        } else {
            0
        }),
{
    let rf = if r {
        PTE_READ
    } else {
        0
    };
    let wf = if w {
        PTE_WRITE
    } else {
        0
    };
    let ef = if e {
        PTE_EXEC
    } else {
        0
    };
    proof {
        assert(0u64 | rf | wf | ef == rf + wf + ef) by (bit_vector)
            requires
                rf == 0 || rf == 2,
                wf == 0 || wf == 4,
                ef == 0 || ef == 8,
        ;
    }
    0 | rf | wf | ef
}

/// A range of addresses mapped onto the same physical addresses with `flags`.
#[derive(Copy, Clone, Debug, PartialEq, Eq, Structural)]
pub struct Region {
    pub va: u64,
    pub size: u64,
    pub flags: u64,
}

/// `va2` lies on one of the pages the region touches.
pub open spec fn in_region(r: Region, va2: int) -> bool {
    page_floor(r.va as int) <= va2 < page_floor(r.va as int) + pages_spanned(
        r.va as int,
        r.size as int,
    ) * 4096
}

/// The region is nonempty and below `VA_TOP`.
pub open spec fn region_ok(r: Region) -> bool {
    r.size > 0 && r.va + r.size <= VA_TOP
}

/// Every page of the region maps onto its own address with the region's flags.
pub open spec fn maps_region(m: PtMem, root: u64, r: Region) -> bool {
    forall|k: int|
        0 <= k < pages_spanned(r.va as int, r.size as int) ==> #[trigger] m.translate(
            root,
            range_page(r.va as int, k),
        ) == Some(leaf_pte((r.va + k * 4096) as u64, r.flags))
}

/// Every page that the `size` bytes from `va` touch maps onto the physical
/// page at the same distance from `pa`, with `flags`.
pub open spec fn maps_range(m: PtMem, root: u64, va: int, size: int, pa: int, flags: u64) -> bool {
    forall|k: int|
        0 <= k < pages_spanned(va, size) ==> #[trigger] m.translate(root, range_page(va, k)) == Some(
            leaf_pte((pa + k * 4096) as u64, flags),
        )
}

/// A mapped range stays mapped when another range, whose pages were all
/// unmapped, is mapped and nothing else changes.
pub proof fn lemma_maps_range_kept(
    m1: PtMem,
    m2: PtMem,
    root: u64,
    va: int,
    size: int,
    pa: int,
    flags: u64,
    va2: int,
    size2: int,
)
    requires
        maps_range(m1, root, va, size, pa, flags),
        0 <= va,
        size > 0,
        va + size <= VA_TOP,
        0 <= va2,
        size2 > 0,
        va2 + size2 <= VA_TOP,
        forall|k: int| 0 <= k < pages_spanned(va2, size2) ==> #[trigger] m1.translate(root, range_page(va2, k)) is None,
        forall|a: u64|
            a < VA_TOP && !(page_floor(va2) <= a < page_floor(va2) + pages_spanned(va2, size2) * 4096)
                ==> #[trigger] m2.translate(root, a) == m1.translate(root, a),
    ensures
        maps_range(m2, root, va, size, pa, flags),
{
    let r2 = Region { va: va2 as u64, size: size2 as u64, flags: 0 };
    let r1 = Region { va: va as u64, size: size as u64, flags: 0 };
    assert forall|k: int| 0 <= k < pages_spanned(va, size) implies #[trigger] m2.translate(
        root,
        range_page(va, k),
    ) == Some(leaf_pte((pa + k * 4096) as u64, flags)) by {
        lemma_range_page(r1, k);
        let a = range_page(va, k);
        if page_floor(va2) <= a < page_floor(va2) + pages_spanned(va2, size2) * 4096 {
            let kk = lemma_in_region_page(r2, a);
            assert(m1.translate(root, range_page(va2, kk)) is None);
        }
    }
}

/// A mapped range stays mapped when regions, whose pages were all unmapped,
/// are mapped and nothing outside them changes.
pub proof fn lemma_maps_range_kept_regions(
    m1: PtMem,
    m2: PtMem,
    root: u64,
    va: int,
    size: int,
    pa: int,
    flags: u64,
    rs: Seq<Region>,
)
    requires
        maps_range(m1, root, va, size, pa, flags),
        0 <= va,
        size > 0,
        va + size <= VA_TOP,
        forall|i: int| 0 <= i < rs.len() ==> region_ok(#[trigger] rs[i]),
        forall|i: int, k: int|
            0 <= i < rs.len() && 0 <= k < pages_spanned(rs[i].va as int, rs[i].size as int)
                ==> #[trigger] m1.translate(root, range_page(rs[i].va as int, k)) is None,
        forall|a: u64|
            a < VA_TOP && (forall|i: int| 0 <= i < rs.len() ==> !#[trigger] in_region(rs[i], a as int))
                ==> #[trigger] m2.translate(root, a) == m1.translate(root, a),
    ensures
        maps_range(m2, root, va, size, pa, flags),
{
    let r1 = Region { va: va as u64, size: size as u64, flags: 0 };
    assert forall|k: int| 0 <= k < pages_spanned(va, size) implies #[trigger] m2.translate(
        root,
        range_page(va, k),
    ) == Some(leaf_pte((pa + k * 4096) as u64, flags)) by {
        lemma_range_page(r1, k);
        let a = range_page(va, k);
        if exists|i: int| 0 <= i < rs.len() && #[trigger] in_region(rs[i], a as int) {
            let i = choose|i: int| 0 <= i < rs.len() && #[trigger] in_region(rs[i], a as int);
            let kk = lemma_in_region_page(rs[i], a);
            assert(m1.translate(root, range_page(rs[i].va as int, kk)) is None);
        }
    }
}

/// A page of a region is also a page of an earlier region.
pub open spec fn regions_overlap(rs: Seq<Region>) -> bool {
    exists|i: int, j: int, k: int|
        0 <= i < j < rs.len() && 0 <= k < pages_spanned(rs[j].va as int, rs[j].size as int)
            && #[trigger] in_region(rs[i], range_page(rs[j].va as int, k) as int)
}

/// The pages of a region are aligned and below `VA_TOP`.
pub proof fn lemma_range_page(r: Region, k: int)
    requires
        region_ok(r),
        0 <= k < pages_spanned(r.va as int, r.size as int),
    ensures
        range_page(r.va as int, k) as int == page_floor(r.va as int) + k * 4096,
        page_aligned(range_page(r.va as int, k) as int),
        range_page(r.va as int, k) < VA_TOP,
        in_region(r, range_page(r.va as int, k) as int),
{
}

/// An aligned address on a region is one of its pages.
proof fn lemma_in_region_page(r: Region, a: u64) -> (kk: int)
    requires
        region_ok(r),
        page_aligned(a as int),
        in_region(r, a as int),
    ensures
        0 <= kk < pages_spanned(r.va as int, r.size as int),
        range_page(r.va as int, kk) == a,
{
    (a - page_floor(r.va as int)) / 4096
}

/// What `map_regions` keeps: the first `done` regions are mapped, their
/// pages were unmapped in `m0`, and every address outside them translates as
/// in `m0`.
spec fn regions_mapped(m0: PtMem, m: PtMem, root: u64, rs: Seq<Region>, done: int) -> bool {
    &&& forall|i: int| 0 <= i < done ==> #[trigger] maps_region(m, root, rs[i])
    &&& forall|i: int, k: int|
        0 <= i < done && 0 <= k < pages_spanned(rs[i].va as int, rs[i].size as int) ==> #[trigger] m0.translate(
            root,
            range_page(rs[i].va as int, k),
        ) is None
    &&& forall|va2: u64|
        va2 < VA_TOP && (forall|i: int| 0 <= i < done ==> !#[trigger] in_region(rs[i], va2 as int))
            ==> #[trigger] m.translate(root, va2) == m0.translate(root, va2)
}

proof fn lemma_regions_step(
    m0: PtMem,
    m1: PtMem,
    m2: PtMem,
    root: u64,
    rs: Seq<Region>,
    done: int,
)
    requires
        0 <= done < rs.len(),
        forall|i: int| 0 <= i < rs.len() ==> region_ok(#[trigger] rs[i]),
        regions_mapped(m0, m1, root, rs, done),
        forall|va2: u64|
            va2 < VA_TOP && !in_region(rs[done], va2 as int) ==> #[trigger] m2.translate(root, va2)
                == m1.translate(root, va2),
        forall|k: int|
            0 <= k < pages_spanned(rs[done].va as int, rs[done].size as int) ==> {
                &&& #[trigger] m2.translate(root, range_page(rs[done].va as int, k)) == Some(
                    leaf_pte((rs[done].va + k * 4096) as u64, rs[done].flags),
                )
                &&& m1.translate(root, range_page(rs[done].va as int, k)) is None
            },
    ensures
        regions_mapped(m0, m2, root, rs, done + 1),
{
    let r = rs[done];
    let n = pages_spanned(r.va as int, r.size as int);
    assert forall|i: int| 0 <= i < done + 1 implies #[trigger] maps_region(m2, root, rs[i]) by {
        if i < done {
            assert forall|k: int|
                0 <= k < pages_spanned(rs[i].va as int, rs[i].size as int) implies #[trigger] m2.translate(
                root,
                range_page(rs[i].va as int, k),
            ) == Some(leaf_pte((rs[i].va + k * 4096) as u64, rs[i].flags)) by {
                let a = range_page(rs[i].va as int, k);
                lemma_range_page(rs[i], k);
                assert(maps_region(m1, root, rs[i]));
                assert(m1.translate(root, a) is Some);
                if in_region(r, a as int) {
                    let kk = lemma_in_region_page(r, a);
                    assert(m1.translate(root, range_page(r.va as int, kk)) is None);
                }
                assert(m2.translate(root, a) == m1.translate(root, a));
            }
        }
    }
    assert forall|i: int, k: int|
        0 <= i < done + 1 && 0 <= k < pages_spanned(rs[i].va as int, rs[i].size as int) implies #[trigger] m0.translate(
        root,
        range_page(rs[i].va as int, k),
    ) is None by {
        if i == done {
            let a = range_page(r.va as int, k);
            lemma_range_page(r, k);
            assert(m2.translate(root, a) == Some(leaf_pte((r.va + k * 4096) as u64, r.flags)));
            assert(m1.translate(root, a) is None);
            if exists|i2: int| 0 <= i2 < done && #[trigger] in_region(rs[i2], a as int) {
                let i2 = choose|i2: int| 0 <= i2 < done && #[trigger] in_region(rs[i2], a as int);
                let kk = lemma_in_region_page(rs[i2], a);
                assert(maps_region(m1, root, rs[i2]));
                assert(m1.translate(root, range_page(rs[i2].va as int, kk)) is Some);
            }
        }
    }
    assert forall|va2: u64|
        va2 < VA_TOP && (forall|i: int| 0 <= i < done + 1 ==> !#[trigger] in_region(rs[i], va2 as int))
            implies #[trigger] m2.translate(root, va2) == m0.translate(root, va2) by {
        assert(!in_region(rs[done], va2 as int));
        assert(m2.translate(root, va2) == m1.translate(root, va2));
    }
}

/// Pages the first `n` regions of `rs` touch, counted region by region.
pub open spec fn regions_pages(rs: Seq<Region>, n: int) -> int
    decreases n,
{
    if n <= 0 {
        0
    } else {
        regions_pages(rs, n - 1) + pages_spanned(rs[n - 1].va as int, rs[n - 1].size as int)
    }
}

/// A nonempty range touches at least one page.
proof fn lemma_spanned_pos(va: int, size: int)
    requires
        va >= 0,
        size > 0,
    ensures
        pages_spanned(va, size) >= 1,
{
    assert((va + size - 1) / 4096 >= va / 4096) by (nonlinear_arith)
        requires
            va >= 0,
            size >= 1,
    ;
}

/// Counting more regions counts no fewer pages.
proof fn lemma_regions_pages_grow(rs: Seq<Region>, n: int, m: int)
    requires
        0 <= n <= m <= rs.len(),
        forall|i: int| 0 <= i < rs.len() ==> region_ok(#[trigger] rs[i]),
    ensures
        regions_pages(rs, n) <= regions_pages(rs, m),
    decreases m - n,
{
    if n < m {
        lemma_regions_pages_grow(rs, n, m - 1);
        assert(region_ok(rs[m - 1]));
        lemma_spanned_pos(rs[m - 1].va as int, rs[m - 1].size as int);
    }
}

/// Map each region onto its own addresses, in order.
pub fn map_regions(
    pool: &mut PagePool,
    mem: &mut PtMem,
    pt: PageTable,
    regions: &Vec<Region>,
) -> (r: Result<(), VmError>)
    requires
        old(mem).tables_wf(pt.base),
        old(pool).wf(),
        old(pool).top() <= pa_top(),
        pool_disjoint(old(pool), old(mem)),
        forall|i: int| 0 <= i < regions@.len() ==> region_ok(#[trigger] regions@[i]),
    ensures
        final(mem).tables_wf(pt.base),
        final(pool).wf(),
        pool_disjoint(final(pool), final(mem)),
        pages_moved(old(pool), old(mem), final(pool), final(mem)),
        forall|va2: u64|
            va2 < VA_TOP && (forall|i: int|
                0 <= i < regions@.len() ==> !#[trigger] in_region(regions@[i], va2 as int))
                ==> #[trigger] final(mem).translate(pt.base, va2) == old(mem).translate(pt.base, va2),
        r is Ok ==> forall|i: int|
            0 <= i < regions@.len() ==> #[trigger] maps_region(*final(mem), pt.base, regions@[i]),
        r is Ok ==> forall|i: int, k: int|
            0 <= i < regions@.len() && 0 <= k < pages_spanned(
                regions@[i].va as int,
                regions@[i].size as int,
            ) ==> #[trigger] old(mem).translate(pt.base, range_page(regions@[i].va as int, k)) is None,
        r matches Err(e) ==> e == VmError::OutOfPages ==> old(pool).free().len() < 2 * regions_pages(
            regions@,
            regions@.len() as int,
        ),
        old(pool).free().len() >= 2 * regions_pages(regions@, regions@.len() as int) && !regions_overlap(
            regions@,
        ) && (forall|i: int, k: int|
            0 <= i < regions@.len() && 0 <= k < pages_spanned(
                regions@[i].va as int,
                regions@[i].size as int,
            ) ==> #[trigger] old(mem).translate(pt.base, range_page(regions@[i].va as int, k)) is None)
            ==> r is Ok,
        r matches Err(e) ==> {
            ||| (e == VmError::PallocFail && (regions_overlap(regions@) || exists|i: int, k: int|
                0 <= i < regions@.len() && 0 <= k < pages_spanned(
                    regions@[i].va as int,
                    regions@[i].size as int,
                ) && #[trigger] old(mem).translate(pt.base, range_page(regions@[i].va as int, k))
                    is Some))
            ||| (e == VmError::OutOfPages && final(pool).free() == Set::<u64>::empty())
        },
{
    let root = pt.base;
    let ghost m0 = *mem;
    let ghost p0 = *pool;
    let ghost rs = regions@;
    proof {
        lemma_pages_moved_refl(&p0, &m0);
    }
    let mut idx: usize = 0;
    while idx < regions.len()
        invariant
            root == pt.base,
            p0 == *old(pool),
            m0 == *old(mem),
            rs == regions@,
            forall|i: int| 0 <= i < rs.len() ==> region_ok(#[trigger] rs[i]),
            mem.tables_wf(root),
            pool.wf(),
            pool.top() <= pa_top(),
            pool_disjoint(pool, mem),
            pages_moved(&p0, &m0, pool, mem),
            idx <= rs.len(),
            regions_mapped(m0, *mem, root, rs, idx as int),
            p0.free().len() <= pool.free().len() + 2 * regions_pages(rs, idx as int),
        decreases rs.len() - idx,
    {
        let reg = regions[idx];
        let ghost m1 = *mem;
        let ghost p1 = *pool;
        let res = page_map(pool, mem, pt, reg.va, reg.va, reg.size, reg.flags);
        proof {
            lemma_pages_moved_trans(&p0, &m0, &p1, &m1, pool, mem);
        }
        match res {
            Err(e) => {
                proof {
                    assert forall|va2: u64|
                        va2 < VA_TOP && (forall|i: int|
                            0 <= i < rs.len() ==> !#[trigger] in_region(rs[i], va2 as int)) implies #[trigger] mem.translate(
                        root,
                        va2,
                    ) == m0.translate(root, va2) by {
                        assert(!in_region(rs[idx as int], va2 as int));
                        assert(mem.translate(root, va2) == m1.translate(root, va2));
                    }
                    if e == VmError::OutOfPages {
                        lemma_regions_pages_grow(rs, idx + 1, rs.len() as int);
                    }
                    if e == VmError::PallocFail {
                        let k = choose|k: int|
                            0 <= k < pages_spanned(reg.va as int, reg.size as int)
                                && #[trigger] m1.translate(root, range_page(reg.va as int, k)) is Some;
                        let a = range_page(reg.va as int, k);
                        if exists|i2: int| 0 <= i2 < idx && #[trigger] in_region(rs[i2], a as int) {
                            let i2 = choose|i2: int| 0 <= i2 < idx && #[trigger] in_region(rs[i2], a as int);
                            assert(regions_overlap(rs)) by {
                                assert(0 <= i2 < idx as int && 0 <= k < pages_spanned(
                                    rs[idx as int].va as int,
                                    rs[idx as int].size as int,
                                ) && in_region(rs[i2], range_page(rs[idx as int].va as int, k) as int));
                            }
                        } else {
                            assert(m1.translate(root, a) == m0.translate(root, a));
                            assert(m0.translate(root, range_page(rs[idx as int].va as int, k)) is Some);
                        }
                    }
                }
                return Err(e);
            },
            Ok(()) => {},
        }
        proof {
            lemma_regions_step(m0, m1, *mem, root, rs, idx as int);
        }
        idx = idx + 1;
    }
    Ok(())
}

/// Kernel memory layout, as laid out by the linker.
#[derive(Copy, Clone, Debug, PartialEq, Eq, Structural)]
pub struct KernelLayout {
    pub text_start: u64,
    pub text_end: u64,
    pub rodata_end: u64,
    pub data_end: u64,
    pub stacks_start: u64,
    pub intstacks_start: u64,
    pub bss_start: u64,
    pub bss_end: u64,
    pub memory_end: u64,
}

/// Every section is nonempty and lies below `VA_TOP`.
pub open spec fn layout_ok(l: KernelLayout) -> bool {
    &&& DRAM_BASE < l.text_end < l.rodata_end < l.data_end <= VA_TOP
    &&& DRAM_BASE <= l.text_start < l.text_end
    &&& l.stacks_start + 4096 * (3 * NHART) <= VA_TOP
    &&& l.intstacks_start + 4096 * (4 * NHART) <= VA_TOP
    &&& l.bss_start < l.bss_end < l.memory_end <= VA_TOP
}

impl KernelLayout {
    /// Whether the page tables can be built for this layout (`layout_ok`).
    pub fn is_ok(&self) -> (r: bool)
        ensures
            r == layout_ok(*self),
    {
        let n = NHART as u64;
        DRAM_BASE < self.text_end && self.text_end < self.rodata_end && self.rodata_end
            < self.data_end && self.data_end <= VA_TOP && DRAM_BASE <= self.text_start
            && self.text_start < self.text_end && self.stacks_start <= VA_TOP - 4096 * (3 * n)
            && self.intstacks_start <= VA_TOP - 4096 * (4 * n) && self.bss_start < self.bss_end
            && self.bss_end < self.memory_end && self.memory_end <= VA_TOP
    }
}

/// Kernel stack of hart `s` (with a guard page below each).
pub open spec fn stack_region(l: KernelLayout, s: int, flags: u64) -> Region {
    Region { va: (l.stacks_start + 4096 * (1 + s * 3)) as u64, size: 8192, flags }
}

/// Interrupt stacks: machine mode stack of hart `q / 2` for even `q`, the
/// supervisor mode one for odd `q`.
pub open spec fn intstack_region(l: KernelLayout, q: int, flags: u64) -> Region {
    Region {
        va: (l.intstacks_start + 4096 * (1 + (q / 2) * 4) + (q % 2) * 8192) as u64,
        size: 4096,
        flags,
    }
}

/// The stacks of every hart, then the interrupt stacks of every hart, then
/// bss and the remaining physical memory, all with `flags`.
pub open spec fn stack_and_heap_regions(l: KernelLayout, flags: u64) -> Seq<Region> {
    Seq::new(NHART as nat, |s: int| stack_region(l, s, flags)) + Seq::new(
        (2 * NHART) as nat,
        |q: int| intstack_region(l, q, flags),
    ) + seq![
        Region { va: l.bss_start, size: (l.bss_end - l.bss_start) as u64, flags },
        Region { va: l.bss_end, size: (l.memory_end - l.bss_end) as u64, flags },
    ]
}

/// What the kernel page table maps, in order: the UART, PLIC and VIRTIO
/// devices, kernel text, rodata and data, and `stack_and_heap_regions`.
pub open spec fn kernel_regions(l: KernelLayout) -> Seq<Region> {
    seq![
        Region { va: UART_BASE, size: PAGE_SIZE, flags: PTE_READ | PTE_WRITE },
        Region { va: PLIC_BASE, size: PLIC_SIZE, flags: PTE_READ | PTE_WRITE },
        Region { va: VIRTIO_BASE, size: VIRTIO_SIZE, flags: PTE_READ | PTE_WRITE },
        Region { va: DRAM_BASE, size: (l.text_end - DRAM_BASE) as u64, flags: PTE_READ | PTE_EXEC },
        Region { va: l.text_end, size: (l.rodata_end - l.text_end) as u64, flags: PTE_READ },
        Region {
            va: l.rodata_end,
            size: (l.data_end - l.rodata_end) as u64,
            flags: PTE_READ | PTE_WRITE,
        },
    ] + stack_and_heap_regions(l, PTE_READ | PTE_WRITE)
}

/// In a page table that maps the kernel regions (as `kpage_init` leaves
/// it), each hart's kernel stack, the two pages from
/// `stacks_start + 4096 * (1 + 3 * s)`, is mapped read and write onto
/// itself: every address `a` in those 8192 bytes translates to the page at
/// the same distance from the stack's start.
pub proof fn law_kernel_stacks_mapped(m: PtMem, root: u64, l: KernelLayout, s: int, a: u64)
    requires
        layout_ok(l),
        0 <= s < NHART,
        forall|i: int| 0 <= i < kernel_regions(l).len() ==> #[trigger] maps_region(m, root, kernel_regions(l)[i]),
        l.stacks_start + 4096 * (1 + 3 * s) <= a < l.stacks_start + 4096 * (1 + 3 * s) + 8192,
    ensures
        ({
            let va = l.stacks_start + 4096 * (1 + 3 * s);
            m.translate(root, a) == Some(
                leaf_pte((va + (a / 4096 - va / 4096) * 4096) as u64, PTE_READ | PTE_WRITE),
            )
        }),
{
    let va = l.stacks_start + 4096 * (1 + 3 * s);
    let flags = PTE_READ | PTE_WRITE;
    let rs = kernel_regions(l);
    let sh = stack_and_heap_regions(l, flags);
    assert(rs[6 + s] == sh[s]);
    assert(sh[s] == stack_region(l, s, flags));
    let r = rs[6 + s];
    assert(r.va == va && r.size == 8192 && r.flags == flags);
    assert(maps_region(m, root, r));
    let k = a / 4096 - va / 4096;
    assert(0 <= k < pages_spanned(va, 8192)) by (nonlinear_arith)
        requires
            va <= a < va + 8192,
            k == a / 4096 - va / 4096,
            va >= 0,
    ;
    assert(m.translate(root, range_page(va, k)) == Some(leaf_pte((va + k * 4096) as u64, flags)));
    assert(range_page(va, k) / 4096 == a / 4096) by (nonlinear_arith)
        requires
            range_page(va, k) == (va / 4096 * 4096 + k * 4096) as u64,
            k == a / 4096 - va / 4096,
            va <= a,
            a < 0x80_0000_0000,
    ;
    crate::vm::sv39::lemma_vpn_page(range_page(va, k), a);
}

/// Append the stacks, interrupt stacks, bss and heap regions.
pub(crate) fn push_stack_and_heap_regions(v: &mut Vec<Region>, l: KernelLayout, flags: u64)
    requires
        layout_ok(l),
    ensures
        final(v)@ == old(v)@ + stack_and_heap_regions(l, flags),
{
    let ghost v0 = v@;
    let base = l.stacks_start;
    let mut s: usize = 0;
    while s < NHART
        invariant
            s <= NHART,
            base == l.stacks_start,
            layout_ok(l),
            v@ == v0 + Seq::new(s as nat, |s: int| stack_region(l, s, flags)),
        decreases NHART - s,
    {
        let stack = base + PAGE_SIZE * (1 + (s as u64) * 3);
        v.push(Region { va: stack, size: PAGE_SIZE * 2, flags });
        proof {
            assert(v@ =~= v0 + Seq::new((s + 1) as nat, |s: int| stack_region(l, s, flags)));
        }
        s = s + 1;
    }
    let ghost v1 = v@;
    let base = l.intstacks_start;
    let mut i: usize = 0;
    while i < NHART
        invariant
            i <= NHART,
            base == l.intstacks_start,
            layout_ok(l),
            v@ == v1 + Seq::new((2 * i) as nat, |q: int| intstack_region(l, q, flags)),
        decreases NHART - i,
    {
        let m_intstack = base + PAGE_SIZE * (1 + (i as u64) * 4);
        v.push(Region { va: m_intstack, size: PAGE_SIZE, flags });
        let s_intstack = m_intstack + PAGE_SIZE * 2;
        v.push(Region { va: s_intstack, size: PAGE_SIZE, flags });
        proof {
            assert(intstack_region(l, 2 * i, flags) == Region { va: m_intstack, size: 4096, flags });
            assert(intstack_region(l, 2 * i + 1, flags) == Region {
                va: s_intstack,
                size: 4096,
                flags,
            });
            assert(v@ =~= v1 + Seq::new((2 * (i + 1)) as nat, |q: int| intstack_region(l, q, flags)));
        }
        i = i + 1;
    }
    v.push(Region { va: l.bss_start, size: l.bss_end - l.bss_start, flags });
    v.push(Region { va: l.bss_end, size: l.memory_end - l.bss_end, flags });
    proof {
        assert(v@ =~= v0 + stack_and_heap_regions(l, flags));
    }
}

pub(crate) proof fn lemma_stack_and_heap_regions_ok(l: KernelLayout, flags: u64)
    requires
        layout_ok(l),
    ensures
        forall|i: int|
            0 <= i < stack_and_heap_regions(l, flags).len() ==> region_ok(
                #[trigger] stack_and_heap_regions(l, flags)[i],
            ),
{
    let rs = stack_and_heap_regions(l, flags);
    assert forall|i: int| 0 <= i < rs.len() implies region_ok(#[trigger] rs[i]) by {
        if i >= NHART && i < 3 * NHART {
            let q = i - NHART;
            assert(rs[i] == intstack_region(l, q, flags));
            assert(q / 2 <= 1);
        }
    }
}

/// Create the kernel page table with 1:1 mappings to physical memory: the
/// root table page comes from the pool, then `kernel_regions` are mapped in
/// order. Everything else stays unmapped.
pub fn kpage_init(pool: &mut PagePool, mem: &mut PtMem, l: KernelLayout) -> (r: Result<
    PageTable,
    VmError,
>)
    requires
        old(pool).wf(),
        old(pool).top() <= pa_top(),
        old(mem).wf(),
        pool_disjoint(old(pool), old(mem)),
        old(pool).free() != Set::<u64>::empty(),
        layout_ok(l),
    ensures
        final(pool).wf(),
        pool_disjoint(final(pool), final(mem)),
        pages_moved(old(pool), old(mem), final(pool), final(mem)),
        r matches Ok(pt) ==> {
            &&& final(mem).tables_wf(pt.base)
            &&& old(pool).free().contains(pt.base)
            &&& forall|i: int|
                0 <= i < kernel_regions(l).len() ==> #[trigger] maps_region(
                    *final(mem),
                    pt.base,
                    kernel_regions(l)[i],
                )
            &&& forall|va2: u64|
                va2 < VA_TOP && (forall|i: int|
                    0 <= i < kernel_regions(l).len() ==> !#[trigger] in_region(
                        kernel_regions(l)[i],
                        va2 as int,
                    )) ==> #[trigger] final(mem).translate(pt.base, va2) is None
        },
        r matches Err(e) ==> e == VmError::OutOfPages ==> old(pool).free().len() < 1 + 2 * regions_pages(
            kernel_regions(l),
            kernel_regions(l).len() as int,
        ),
        old(pool).free().len() >= 1 + 2 * regions_pages(kernel_regions(l), kernel_regions(l).len() as int)
            && !regions_overlap(kernel_regions(l)) ==> r is Ok,
        r matches Err(e) ==> {
            ||| (e == VmError::PallocFail && regions_overlap(kernel_regions(l)))
            ||| (e == VmError::OutOfPages && final(pool).free() == Set::<u64>::empty())
        },
{
    let ghost p0 = *pool;
    let ghost m0 = *mem;
    let base = match pool.palloc() {
        Ok(pg) => pg.addr,
        Err(e) => {
            return Err(e);
        },
    };
    proof {
        p0.lemma_free_in_bounds(base);
        p0.lemma_free_finite();
        reveal(pool_disjoint);
    }
    mem.add_zeroed(base);
    let kpage_table = PageTable { base };
    proof {
        mem.lemma_zeroed_root_maps_nothing(base);
        assert(pool_disjoint(pool, mem));
        reveal(pages_moved);
        assert(pages_moved(&p0, &m0, pool, mem));
    }
    let mut regions: Vec<Region> = Vec::new();
    regions.push(Region { va: UART_BASE, size: PAGE_SIZE, flags: PTE_READ | PTE_WRITE });
    regions.push(Region { va: PLIC_BASE, size: PLIC_SIZE, flags: PTE_READ | PTE_WRITE });
    regions.push(Region { va: VIRTIO_BASE, size: VIRTIO_SIZE, flags: PTE_READ | PTE_WRITE });
    regions.push(Region { va: DRAM_BASE, size: l.text_end - DRAM_BASE, flags: PTE_READ | PTE_EXEC });
    regions.push(Region { va: l.text_end, size: l.rodata_end - l.text_end, flags: PTE_READ });
    regions.push(
        Region { va: l.rodata_end, size: l.data_end - l.rodata_end, flags: PTE_READ | PTE_WRITE },
    );
    push_stack_and_heap_regions(&mut regions, l, PTE_READ | PTE_WRITE);
    proof {
        assert(regions@ =~= kernel_regions(l));
        lemma_stack_and_heap_regions_ok(l, PTE_READ | PTE_WRITE);
        assert forall|i: int| 0 <= i < regions@.len() implies region_ok(#[trigger] regions@[i]) by {
            if i >= 6 {
                assert(regions@[i] == stack_and_heap_regions(l, PTE_READ | PTE_WRITE)[i - 6]);
            }
        }
    }
    let ghost p1 = *pool;
    let ghost m1 = *mem;
    let res = map_regions(pool, mem, kpage_table, &regions);
    proof {
        lemma_pages_moved_trans(&p0, &m0, &p1, &m1, pool, mem);
    }
    match res {
        Ok(()) => Ok(kpage_table),
        Err(e) => Err(e),
    }
}

} // verus!
