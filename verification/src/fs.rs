//! Ext2 file system: the parts that decide what to read and what it means.
//! Byte offsets are from the start of the device; the caller does the reads.
pub mod structs;

use vstd::prelude::*;
use crate::fs::structs::{BlockGroupDescriptor, TypePerm, INODE_SIZE};
use crate::file::elf64::{le16, le32, read_u16, read_u32};

verus! {

/// Inode number of the root directory.
pub const EXT2_ROOT_INODE: u32 = 2;

#[derive(Copy, Clone, Debug, PartialEq, Eq, Structural)]
pub enum FsError {
    BadBlockSize,
    BadMagic,
    DoesNotExist,
    IncorrectParseType,
    NoBlocksPerGroup,
    UnableToReadHint,
}

/// What the file system keeps from the superblock, with the block group
/// descriptor table.
pub struct Hint {
    pub block_size: u32,
    pub inode_size: u16,
    pub blocks_per_group: u32,
    pub inodes_per_group: u32,
    pub block_desc_table: Vec<BlockGroupDescriptor>,
}

/// Block group, index in the group, and byte offset on the device of inode
/// `inum` for the given sizes and inode table start.
pub open spec fn inode_offset(h: &Hint, inum: u32) -> int {
    let index = (inum - 1) % h.inodes_per_group as int;
    let itable = h.block_desc_table@[((inum - 1) / h.inodes_per_group as int)].inode_table_block;
    let block = index * h.inode_size / h.block_size as int;
    (itable + block) * h.block_size + index * h.inode_size
}

/// Inode `inum` lies in a block group of the table, and its place in the
/// group's inode table fits in 32 bits.
pub open spec fn location_ok(h: &Hint, inum: u32) -> bool {
    &&& inum >= 1
    &&& h.inodes_per_group > 0
    &&& h.block_size > 0
    &&& (inum - 1) / (h.inodes_per_group as int) < h.block_desc_table@.len()
    &&& ((inum - 1) % (h.inodes_per_group as int)) * h.inode_size <= u32::MAX
    &&& h.block_desc_table@[((inum - 1) / h.inodes_per_group as int)].inode_table_block + (((inum - 1)
        % (h.inodes_per_group as int)) * h.inode_size) / (h.block_size as int) <= u32::MAX
}

impl Hint {
    /// Where to read inode `inum`, as `inode_location` gives it, when
    /// `location_ok` holds; `None` otherwise.
    pub fn try_inode_location(&self, inum: u32) -> (r: Option<(u64, u32)>)
        ensures
            r is Some <==> location_ok(self, inum),
            r matches Some(x) ==> {
                &&& x.0 == inode_offset(self, inum) - inode_offset(self, inum) % 512
                &&& x.1 == if (((inum - 1) % (self.inodes_per_group as int)) * self.inode_size) % 512
                    == 0 {
                    0
                } else {
                    self.inode_size as int
                }
            },
    {
        if inum == 0 || self.inodes_per_group == 0 || self.block_size == 0 {
            return None;
        }
        let group = ((inum - 1) / self.inodes_per_group) as usize;
        if group >= self.block_desc_table.len() {
            return None;
        }
        let index = (inum - 1) % self.inodes_per_group;
        proof {
            assert((index as int) * (self.inode_size as int) <= 0xffff_ffff * 0xffff) by (nonlinear_arith)
                requires
                    index <= 0xffff_ffff,
                    self.inode_size <= 0xffff,
            ;
        }
        let index_off: u64 = index as u64 * self.inode_size as u64;
        if index_off > 0xffff_ffff {
            return None;
        }
        let table: u64 = self.block_desc_table[group].inode_table_block as u64;
        if table + index_off / self.block_size as u64 > 0xffff_ffff {
            return None;
        }
        Some(self.inode_location(inum))
    }

    /// Where to read inode `inum`: the 512 byte aligned device offset to read
    /// two inode sizes from, and where in those bytes the inode starts.
    pub fn inode_location(&self, inum: u32) -> (r: (u64, u32))
        requires
            location_ok(self, inum),
        ensures
            r.0 == inode_offset(self, inum) - inode_offset(self, inum) % 512,
            r.1 == if (((inum - 1) % (self.inodes_per_group as int)) * self.inode_size) % 512 == 0 {
                0
            } else {
                self.inode_size as int
            },
    {
        let block_group = ((inum - 1) / self.inodes_per_group) as usize;
        let itable = self.block_desc_table[block_group].inode_table_block;
        let index = (inum - 1) % self.inodes_per_group;
        proof {
            assert(index < self.inodes_per_group);
        }
        let index_off = index * (self.inode_size as u32);
        let block = index_off / self.block_size;
        let sum: u32 = itable + block;
        proof {
            assert((sum as int) * (self.block_size as int) <= 0xffff_ffff * 0xffff_ffff) by (nonlinear_arith)
                requires
                    sum <= 0xffff_ffff,
                    self.block_size <= 0xffff_ffff,
            ;
        }
        let offset = (sum as u64) * (self.block_size as u64) + (index_off as u64);
        let raw_off: u32 = if index_off % 512 == 0 {
            0
        } else {
            self.inode_size as u32
        };
        (offset - offset % 512, raw_off)
    }
}

/// An inode: the fields the file system reads.
#[derive(Copy, Clone, Debug)]
pub struct Inode {
    pub type_perm: u16,
    pub uid: u16,
    pub size_low: u32,
    pub atime: u32,
    pub ctime: u32,
    pub mtime: u32,
    pub dtime: u32,
    pub gid: u16,
    pub hard_links: u16,
    pub sectors_count: u32,
    pub flags: u32,
    pub direct_pointer: [u32; 12],
    pub indirect_pointer: u32,
    pub doubly_indirect: u32,
    pub triply_indirect: u32,
    pub gen_number: u32,
    pub ext_attribute_block: u32,
    pub size_high: u32,
    pub frag_block_addr: u32,
}

/// Direct block pointer `k` of the inode at `off`.
pub open spec fn direct_of(b: Seq<u8>, off: int, k: int) -> u32 {
    le32(b, off + 40 + 4 * k) as u32
}

/// The type of an inode from its type and permission bits: the high four bits
/// hold the type, a regular file or a directory.
pub open spec fn inode_type(tp: u16) -> Option<TypePerm> {
    if tp & 0xF000 == 0x8000 {
        Some(TypePerm::File)
    } else if tp & 0xF000 == 0x4000 {
        Some(TypePerm::Directory)
    } else {
        None
    }
}

impl Inode {
    /// Read the inode that starts at byte `off` of `b`.
    pub fn parse(b: &[u8], off: usize) -> (i: Self)
        requires
            off + 128 <= b@.len(),
        ensures
            i.type_perm == le16(b@, off as int),
            i.size_low == le32(b@, off + 4),
            i.size_high == le32(b@, off + 108),
            forall|k: int| 0 <= k < 12 ==> i.direct_pointer@[k] == direct_of(b@, off as int, k),
    {
        let _len: usize = b.len();
        let d = [
            read_u32(b, off + 40),
            read_u32(b, off + 44),
            read_u32(b, off + 48),
            read_u32(b, off + 52),
            read_u32(b, off + 56),
            read_u32(b, off + 60),
            read_u32(b, off + 64),
            read_u32(b, off + 68),
            read_u32(b, off + 72),
            read_u32(b, off + 76),
            read_u32(b, off + 80),
            read_u32(b, off + 84),
        ];
        Inode {
            type_perm: read_u16(b, off),
            uid: read_u16(b, off + 2),
            size_low: read_u32(b, off + 4),
            atime: read_u32(b, off + 8),
            ctime: read_u32(b, off + 12),
            mtime: read_u32(b, off + 16),
            dtime: read_u32(b, off + 20),
            gid: read_u16(b, off + 24),
            hard_links: read_u16(b, off + 26),
            sectors_count: read_u32(b, off + 28),
            flags: read_u32(b, off + 32),
            direct_pointer: d,
            indirect_pointer: read_u32(b, off + 88),
            doubly_indirect: read_u32(b, off + 92),
            triply_indirect: read_u32(b, off + 96),
            gen_number: read_u32(b, off + 100),
            ext_attribute_block: read_u32(b, off + 104),
            size_high: read_u32(b, off + 108),
            frag_block_addr: read_u32(b, off + 112),
        }
    }

    /// The inode's type, when it is a file or a directory.
    pub fn get_type(&self) -> (r: Option<TypePerm>)
        ensures
            r == inode_type(self.type_perm),
    {
        let tp = self.type_perm;
        if tp & 0xF000 == 0x8000 {
            Some(TypePerm::File)
        } else if tp & 0xF000 == 0x4000 {
            Some(TypePerm::Directory)
        } else {
            None
        }
    }
}

/// The reads that fill a buffer of `buf_len` bytes from the direct blocks
/// `ptrs[i..]`, `nread` bytes being filled already: for each nonzero pointer
/// while the buffer is not full, the device offset of the block, where in the
/// buffer it goes and how many bytes; and the count of bytes read, which
/// counts whole blocks.
pub open spec fn file_plan(ptrs: Seq<u32>, bsize: u32, buf_len: u32, i: nat, nread: nat) -> (
    Seq<(u64, u32, u32)>,
    nat,
)
    decreases 12 - i,
{
    if i >= 12 || i >= ptrs.len() {
        (Seq::empty(), nread)
    } else if ptrs[i as int] == 0 {
        file_plan(ptrs, bsize, buf_len, i + 1, nread)
    } else if nread >= buf_len {
        (Seq::empty(), nread)
    } else {
        let len = if bsize < buf_len - nread {
            bsize
        } else {
            (buf_len - nread) as u32
        };
        let rest = file_plan(ptrs, bsize, buf_len, i + 1, (nread + bsize) as nat);
        (
            seq![((ptrs[i as int] as int * bsize) as u64, nread as u32, len)] + rest.0,
            rest.1,
        )
    }
}

impl Inode {
    /// What reading the file into a buffer of `buf_len` bytes takes: the
    /// reads of `file_plan` over the direct blocks of `block_size` bytes,
    /// and the byte count. Refused unless the inode is a regular file.
    pub fn file_reads(&self, block_size: u32, buf_len: u32) -> (r: Result<
        (Vec<(u64, u32, u32)>, u32),
        FsError,
    >)
        requires
            buf_len + block_size <= u32::MAX + 1,
        ensures
            self.type_perm & 0xF000 != 0x8000 ==> r == Err::<(Vec<(u64, u32, u32)>, u32), FsError>(
                FsError::IncorrectParseType,
            ),
            self.type_perm & 0xF000 == 0x8000 ==> (r matches Ok((reads, n)) && reads@ == file_plan(
                self.direct_pointer@,
                block_size,
                buf_len,
                0,
                0,
            ).0 && n == file_plan(self.direct_pointer@, block_size, buf_len, 0, 0).1),
    {
        if self.type_perm & 0xF000 != 0x8000 {
            return Err(FsError::IncorrectParseType);
        }
        let mut reads: Vec<(u64, u32, u32)> = Vec::new();
        let mut nread: u32 = 0;
        let mut i: usize = 0;
        let ghost whole = file_plan(self.direct_pointer@, block_size, buf_len, 0, 0);
        while i < 12
            invariant
                i <= 12,
                buf_len + block_size <= u32::MAX + 1,
                nread <= buf_len + block_size,
                reads@ + file_plan(self.direct_pointer@, block_size, buf_len, i as nat, nread as nat).0
                    == whole.0,
                file_plan(self.direct_pointer@, block_size, buf_len, i as nat, nread as nat).1
                    == whole.1,
            ensures
                reads@ == whole.0,
                nread == whole.1,
            decreases 12 - i,
        {
            let p = self.direct_pointer[i];
            if p != 0 {
                if nread >= buf_len {
                    proof {
                        assert(reads@ + Seq::<(u64, u32, u32)>::empty() =~= reads@);
                    }
                    break;
                }
                let len = if block_size < buf_len - nread {
                    block_size
                } else {
                    buf_len - nread
                };
                proof {
                    assert((p as int) * (block_size as int) <= 0xffff_ffff * 0xffff_ffff) by (nonlinear_arith)
                        requires
                            p <= 0xffff_ffff,
                            block_size <= 0xffff_ffff,
                    ;
                }
                let ghost before = reads@;
                reads.push(((p as u64) * (block_size as u64), nread, len));
                proof {
                    let rest = file_plan(self.direct_pointer@, block_size, buf_len, (i + 1) as nat, (nread + block_size) as nat);
                    assert(reads@ + rest.0 =~= before + (seq![((p as int * block_size) as u64, nread, len)] + rest.0));
                }
                nread = nread + block_size;
            }
            i = i + 1;
            proof {
                if i == 12 {
                    assert(reads@ + Seq::<(u64, u32, u32)>::empty() =~= reads@);
                }
            }
        }
        Ok((reads, nread))
    }
}

/// From direct pointer `i` on, with `i` blocks filled, when every pointer is
/// nonzero and the buffer holds all 12 blocks, each block is read whole
/// into its place.
proof fn lemma_full_file_from(ptrs: Seq<u32>, bsize: u32, buf_len: u32, i: nat)
    requires
        ptrs.len() == 12,
        i <= 12,
        bsize > 0,
        12 * bsize <= buf_len,
        forall|k: int| 0 <= k < 12 ==> ptrs[k] != 0,
    ensures
        file_plan(ptrs, bsize, buf_len, i, i * bsize as nat).0.len() == 12 - i,
        file_plan(ptrs, bsize, buf_len, i, i * bsize as nat).1 == 12 * bsize,
        forall|k: int|
            0 <= k < 12 - i ==> #[trigger] file_plan(ptrs, bsize, buf_len, i, i * bsize as nat).0[k] == (
                (ptrs[i + k] as int * bsize) as u64,
                ((i + k) * bsize) as u32,
                bsize,
            ),
    decreases 12 - i,
{
    if i < 12 {
        assert(i * bsize < buf_len) by (nonlinear_arith)
            requires
                i < 12,
                bsize > 0,
                12 * bsize <= buf_len,
        ;
        assert((i + 1) * bsize <= buf_len) by (nonlinear_arith)
            requires
                i < 12,
                12 * bsize <= buf_len,
        ;
        assert(i * bsize + bsize == (i + 1) * bsize) by (nonlinear_arith);
        lemma_full_file_from(ptrs, bsize, buf_len, i + 1);
        let rest = file_plan(ptrs, bsize, buf_len, i + 1, (i + 1) * bsize as nat);
        let p = file_plan(ptrs, bsize, buf_len, i, i * bsize as nat);
        assert(bsize < buf_len - i * bsize || bsize == buf_len - i * bsize);
        assert forall|k: int| 0 <= k < 12 - i implies #[trigger] p.0[k] == (
            (ptrs[i + k] as int * bsize) as u64,
            ((i + k) * bsize) as u32,
            bsize,
        ) by {
            if k > 0 {
                assert(p.0[k] == rest.0[k - 1]);
            }
        }
    }
}

/// Reads `p` fill a buffer of `buf_len` bytes in order from byte `nread`:
/// the `k`th goes to byte `nread + k * bsize`, inside the buffer, and takes
/// a whole block or what is left of the buffer; the count grows by a block
/// per read.
pub open spec fn fills_in_order(p: (Seq<(u64, u32, u32)>, nat), bsize: u32, buf_len: u32, nread: nat) -> bool {
    &&& p.1 == nread + p.0.len() * bsize
    &&& forall|k: int| 0 <= k < p.0.len() ==> #[trigger] read_placed(p.0, k, bsize, buf_len, nread)
}

/// Read `k` of `reads` goes to byte `nread + k * bsize`, inside the buffer,
/// and takes a whole block or what is left of the buffer.
pub open spec fn read_placed(reads: Seq<(u64, u32, u32)>, k: int, bsize: u32, buf_len: u32, nread: nat) -> bool {
    let at = nread + k * bsize;
    &&& at < buf_len
    &&& reads[k].1 == at
    &&& reads[k].2 == if bsize < buf_len - at {
        bsize as int
    } else {
        buf_len - at
    }
}

/// The reads from direct pointer `i` on, `nread` bytes being filled
/// already, fill the buffer in order.
proof fn lemma_plan_shape_from(ptrs: Seq<u32>, bsize: u32, buf_len: u32, i: nat, nread: nat)
    ensures
        fills_in_order(file_plan(ptrs, bsize, buf_len, i, nread), bsize, buf_len, nread),
    decreases 12 - i,
{
    let p = file_plan(ptrs, bsize, buf_len, i, nread);
    if i >= 12 || i >= ptrs.len() {
        assert(p.0.len() == 0);
        assert(fills_in_order(p, bsize, buf_len, nread));
    } else if ptrs[i as int] == 0 {
        lemma_plan_shape_from(ptrs, bsize, buf_len, i + 1, nread);
        assert(fills_in_order(p, bsize, buf_len, nread));
    } else if nread >= buf_len {
        assert(p.0.len() == 0);
        assert(fills_in_order(p, bsize, buf_len, nread));
    } else {
        let n2 = (nread + bsize) as nat;
        lemma_plan_shape_from(ptrs, bsize, buf_len, i + 1, n2);
        let rest = file_plan(ptrs, bsize, buf_len, i + 1, n2);
        assert(p.0.len() == rest.0.len() + 1);
        assert(p.1 == nread + p.0.len() * bsize) by (nonlinear_arith)
            requires
                p.1 == rest.1,
                rest.1 == n2 + rest.0.len() * bsize,
                n2 == nread + bsize,
                p.0.len() == rest.0.len() + 1,
        ;
        assert forall|k: int| 0 <= k < p.0.len() implies #[trigger] read_placed(p.0, k, bsize, buf_len, nread) by {
            if k > 0 {
                assert(p.0[k] == rest.0[k - 1]);
                assert(n2 + (k - 1) * bsize == nread + k * bsize) by (nonlinear_arith)
                    requires
                        n2 == nread + bsize,
                ;
                assert(read_placed(rest.0, k - 1, bsize, buf_len, n2));
            }
        }
        assert(fills_in_order(p, bsize, buf_len, nread));
    }
}

/// Reading a file fills the buffer in order, from its start: the `k`th
/// read lands at byte `k * bsize`, inside the buffer, and takes a whole
/// block or what is left of the buffer; the count is a block per read.
pub proof fn law_file_reads_fill_in_order(ptrs: Seq<u32>, bsize: u32, buf_len: u32)
    ensures
        fills_in_order(file_plan(ptrs, bsize, buf_len, 0, 0), bsize, buf_len, 0),
{
    lemma_plan_shape_from(ptrs, bsize, buf_len, 0, 0);
}

/// A regular file whose 12 direct pointers are all set, read into a buffer
/// of at least 12 blocks, takes 12 reads, one per direct block in order,
/// each a whole block at its place in the buffer, and reads 12 blocks of
/// bytes.
pub proof fn law_full_file_reads(ptrs: Seq<u32>, bsize: u32, buf_len: u32)
    requires
        ptrs.len() == 12,
        bsize > 0,
        12 * bsize <= buf_len,
        forall|k: int| 0 <= k < 12 ==> ptrs[k] != 0,
    ensures
        file_plan(ptrs, bsize, buf_len, 0, 0).0.len() == 12,
        file_plan(ptrs, bsize, buf_len, 0, 0).1 == 12 * bsize,
        forall|k: int|
            0 <= k < 12 ==> #[trigger] file_plan(ptrs, bsize, buf_len, 0, 0).0[k] == (
                (ptrs[k] as int * bsize) as u64,
                (k * bsize) as u32,
                bsize,
            ),
{
    lemma_full_file_from(ptrs, bsize, buf_len, 0);
}

/// Device offsets of the blocks of the first `n` direct pointers that are
/// not zero, in order, for blocks of `bsize` bytes.
pub open spec fn dir_plan(ptrs: Seq<u32>, bsize: u32, n: nat) -> Seq<u64>
    decreases n,
{
    if n == 0 || n > ptrs.len() {
        Seq::empty()
    } else {
        let rest = dir_plan(ptrs, bsize, (n - 1) as nat);
        if ptrs[n - 1] == 0 {
            rest
        } else {
            rest.push((ptrs[n - 1] * bsize) as u64)
        }
    }
}

impl Inode {
    /// What reading the directory takes: the device offset of each block
    /// a direct pointer names, in order, for blocks of `block_size` bytes.
    /// Refused unless the inode is a directory.
    pub fn dir_reads(&self, block_size: u32) -> (r: Result<Vec<u64>, FsError>)
        ensures
            self.type_perm & 0xF000 != 0x4000 ==> r == Err::<Vec<u64>, FsError>(
                FsError::IncorrectParseType,
            ),
            self.type_perm & 0xF000 == 0x4000 ==> (r matches Ok(v) && v@ == dir_plan(
                self.direct_pointer@,
                block_size,
                12,
            )),
    {
        if self.type_perm & 0xF000 != 0x4000 {
            return Err(FsError::IncorrectParseType);
        }
        let mut v: Vec<u64> = Vec::new();
        let mut i: usize = 0;
        while i < 12
            invariant
                i <= 12,
                self.direct_pointer@.len() == 12,
                v@ == dir_plan(self.direct_pointer@, block_size, i as nat),
            decreases 12 - i,
        {
            let p = self.direct_pointer[i];
            if p != 0 {
                proof {
                    assert((p as int) * (block_size as int) <= 0xffff_ffff * 0xffff_ffff) by (
                    nonlinear_arith)
                        requires
                            p <= 0xffff_ffff,
                            block_size <= 0xffff_ffff,
                    ;
                }
                v.push((p as u64) * (block_size as u64));
            }
            i = i + 1;
        }
        Ok(v)
    }
}

/// A directory entry: a name and the inode it links to.
pub struct DirPair {
    pub name: Vec<u8>,
    pub inode: u32,
}

impl DirPair {
    pub fn new(name: Vec<u8>, inode: u32) -> (d: Self)
        ensures
            d.name@ == name@,
            d.inode == inode,
    {
        DirPair { name, inode }
    }
}

/// The entries of a directory block from byte `idx` on: each entry is the
/// inode number (4 bytes), the entry size (2 bytes), the name length
/// (1 byte), a type byte and the name. Entries with inode 0 are unused.
/// Reading stops at an entry that does not fit the block or has size 0.
pub open spec fn dir_entries(b: Seq<u8>, idx: nat) -> Seq<(Seq<u8>, u32)>
    decreases b.len() - idx,
{
    if idx + 8 > b.len() {
        Seq::empty()
    } else {
        let inode = le32(b, idx as int) as u32;
        let esize = le16(b, idx as int + 4);
        let nlen = b[idx as int + 6] as int;
        if idx + 8 + nlen > b.len() {
            Seq::empty()
        } else {
            let here: Seq<(Seq<u8>, u32)> = if inode != 0 {
                seq![(b.subrange(idx as int + 8, idx as int + 8 + nlen), inode)]
            } else {
                Seq::empty()
            };
            if esize == 0 || idx + esize > b.len() {
                here
            } else {
                here + dir_entries(b, (idx + esize) as nat)
            }
        }
    }
}

/// The names and inodes of a list of directory entries.
pub open spec fn pairs_view(v: Seq<DirPair>) -> Seq<(Seq<u8>, u32)> {
    v.map_values(|d: DirPair| (d.name@, d.inode))
}

/// The directory entries held in one block of a directory.
pub fn parse_dir_block(b: &[u8]) -> (r: Vec<DirPair>)
    ensures
        pairs_view(r@) == dir_entries(b@, 0),
{
    let len = b.len();
    let mut out: Vec<DirPair> = Vec::new();
    let mut idx: usize = 0;
    loop
        invariant_except_break
            len == b@.len(),
            idx <= len,
            pairs_view(out@) + dir_entries(b@, idx as nat) == dir_entries(b@, 0),
        ensures
            pairs_view(out@) == dir_entries(b@, 0),
        decreases len - idx,
    {
        if len - idx < 8 {
            proof {
                assert(pairs_view(out@) + Seq::<(Seq<u8>, u32)>::empty() =~= pairs_view(out@));
            }
            break;
        }
        let inode = read_u32(b, idx);
        let esize = read_u16(b, idx + 4) as usize;
        let nlen = b[idx + 6] as usize;
        if nlen > len - idx - 8 {
            proof {
                assert(pairs_view(out@) + Seq::<(Seq<u8>, u32)>::empty() =~= pairs_view(out@));
            }
            break;
        }
        let ghost before = out@;
        if inode != 0 {
            let mut name: Vec<u8> = Vec::new();
            let mut k: usize = 0;
            while k < nlen
                invariant
                    k <= nlen,
                    idx + 8 + nlen <= len,
                    len == b@.len(),
                    name@ == b@.subrange(idx + 8, idx + 8 + k),
                decreases nlen - k,
            {
                name.push(b[idx + 8 + k]);
                proof {
                    assert(name@ =~= b@.subrange(idx + 8, idx + 8 + k + 1));
                }
                k = k + 1;
            }
            out.push(DirPair::new(name, inode));
        }
        proof {
            let here: Seq<(Seq<u8>, u32)> = if inode != 0 {
                seq![(b@.subrange(idx + 8, idx + 8 + nlen), inode)]
            } else {
                Seq::empty()
            };
            assert(pairs_view(out@) =~= pairs_view(before) + here);
        }
        if esize == 0 || esize > len - idx {
            proof {
                assert(pairs_view(out@) =~= dir_entries(b@, 0));
            }
            break;
        }
        proof {
            let here: Seq<(Seq<u8>, u32)> = if inode != 0 {
                seq![(b@.subrange(idx + 8, idx + 8 + nlen), inode)]
            } else {
                Seq::empty()
            };
            assert(pairs_view(before) + here + dir_entries(b@, (idx + esize) as nat) =~= pairs_view(before)
                + (here + dir_entries(b@, (idx + esize) as nat)));
        }
        idx = idx + esize;
    }
    out
}

/// Whether two byte strings are equal.
pub fn bytes_eq(a: &[u8], b: &[u8]) -> (r: bool)
    ensures
        r == (a@ == b@),
{
    if a.len() != b.len() {
        return false;
    }
    let mut i: usize = 0;
    while i < a.len()
        invariant
            a@.len() == b@.len(),
            i <= a@.len(),
            forall|k: int| 0 <= k < i ==> a@[k] == b@[k],
        decreases a@.len() - i,
    {
        if a[i] != b[i] {
            return false;
        }
        i = i + 1;
    }
    proof {
        assert(a@ =~= b@);
    }
    true
}

/// The inode of the first entry named `tgt`, if any.
pub fn linear_search_dir(tgt: &[u8], slice: &[DirPair]) -> (r: Option<u32>)
    ensures
        match r {
            Some(n) => exists|i: int|
                0 <= i < slice@.len() && (#[trigger] slice@[i]).name@ == tgt@ && n == slice@[i].inode
                    && forall|j: int| 0 <= j < i ==> (#[trigger] slice@[j]).name@ != tgt@,
            None => forall|i: int| 0 <= i < slice@.len() ==> (#[trigger] slice@[i]).name@ != tgt@,
        },
{
    let mut i: usize = 0;
    while i < slice.len()
        invariant
            i <= slice@.len(),
            forall|j: int| 0 <= j < i ==> (#[trigger] slice@[j]).name@ != tgt@,
        decreases slice@.len() - i,
    {
        if bytes_eq(tgt, slice[i].name.as_slice()) {
            return Some(slice[i].inode);
        }
        i = i + 1;
    }
    None
}

/// The pieces of `s` between separators `sep`, as `str::split` gives them,
/// the first piece starting with `cur`: `k` separators give `k + 1` pieces,
/// some maybe empty.
pub open spec fn split_acc(s: Seq<u8>, sep: u8, cur: Seq<u8>) -> Seq<Seq<u8>>
    decreases s.len(),
{
    if s.len() == 0 {
        seq![cur]
    } else if s[0] == sep {
        seq![cur] + split_acc(s.drop_first(), sep, Seq::empty())
    } else {
        split_acc(s.drop_first(), sep, cur.push(s[0]))
    }
}

/// The names along an absolute path: what follows the leading `/`, split at
/// each `/`.
pub fn path_components(path: &[u8]) -> (r: Vec<Vec<u8>>)
    requires
        path@.len() >= 1,
    ensures
        r@.map_values(|c: Vec<u8>| c@) == split_acc(path@.drop_first(), 0x2f, Seq::empty()),
{
    let mut out: Vec<Vec<u8>> = Vec::new();
    let mut cur: Vec<u8> = Vec::new();
    let mut i: usize = 1;
    let ghost whole = split_acc(path@.drop_first(), 0x2f, Seq::empty());
    proof {
        assert(path@.subrange(1, path@.len() as int) =~= path@.drop_first());
    }
    while i < path.len()
        invariant
            1 <= i <= path@.len(),
            out@.map_values(|c: Vec<u8>| c@) + split_acc(path@.subrange(i as int, path@.len() as int), 0x2f, cur@)
                == whole,
        decreases path@.len() - i,
    {
        let ghost rest = path@.subrange(i as int, path@.len() as int);
        proof {
            assert(rest.drop_first() =~= path@.subrange(i + 1, path@.len() as int));
        }
        if path[i] == 0x2f {
            let ghost before = out@;
            let ghost piece = cur@;
            out.push(cur);
            cur = Vec::new();
            proof {
                assert(out@.map_values(|c: Vec<u8>| c@) =~= before.map_values(|c: Vec<u8>| c@).push(piece));
                assert(out@.map_values(|c: Vec<u8>| c@) + split_acc(rest.drop_first(), 0x2f, cur@)
                    =~= before.map_values(|c: Vec<u8>| c@) + (seq![piece] + split_acc(rest.drop_first(), 0x2f, Seq::empty())));
            }
        } else {
            cur.push(path[i]);
        }
        i = i + 1;
    }
    let ghost before = out@;
    let ghost piece = cur@;
    out.push(cur);
    proof {
        assert(out@.map_values(|c: Vec<u8>| c@) =~= before.map_values(|c: Vec<u8>| c@).push(piece));
        assert(path@.subrange(i as int, path@.len() as int) =~= Seq::<u8>::empty());
    }
    out
}

/// An open file: its path, its inode and where reading is at.
pub struct FileHandle {
    pub path: Vec<u8>,
    pub inode: Inode,
    pub cursor: u32,
}

impl FileHandle {
    /// A handle on the file at `path` with inode `inode`, read from the
    /// start.
    pub fn new(path: Vec<u8>, inode: Inode) -> (f: Self)
        ensures
            f.path@ == path@,
            f.cursor == 0,
    {
        FileHandle { path, inode, cursor: 0 }
    }

    /// What opening does once it has read the inode a path name leads to:
    /// a directory is walked into (`Ok(true)`), a file ends the walk
    /// (`Ok(false)`), anything else is refused.
    pub fn step(t: TypePerm) -> (r: Result<bool, FsError>)
        ensures
            t == TypePerm::Directory ==> r == Ok::<bool, FsError>(true),
            t == TypePerm::File ==> r == Ok::<bool, FsError>(false),
            t != TypePerm::Directory && t != TypePerm::File ==> r == Err::<bool, FsError>(
                FsError::IncorrectParseType,
            ),
    {
        match t {
            TypePerm::Directory => Ok(true),
            TypePerm::File => Ok(false),
            _ => Err(FsError::IncorrectParseType),
        }
    }
}

/// What opening a path needs next.
#[derive(Copy, Clone, Debug, PartialEq, Eq, Structural)]
pub enum WalkAction {
    /// Read the inode with this number.
    ReadInode(u32),
    /// Read the entries of the directory whose inode was read last.
    ReadDir,
    /// The path leads to the inode read last.
    Found,
    /// The path cannot be opened.
    Fail(FsError),
}

/// Opening an absolute path, one read at a time: the names along the path,
/// how many of them were looked up, and whether the inode read last is the
/// root's.
pub struct PathWalk {
    pub comps: Vec<Vec<u8>>,
    pub next: usize,
    pub at_root: bool,
}

/// `n` is the inode of the first entry of `dir` named `name`.
pub open spec fn first_named(dir: Seq<DirPair>, name: Seq<u8>, n: u32) -> bool {
    exists|i: int|
        0 <= i < dir.len() && (#[trigger] dir[i]).name@ == name && n == dir[i].inode && forall|j: int|
            0 <= j < i ==> (#[trigger] dir[j]).name@ != name
}

impl PathWalk {
    /// The names along the path.
    pub open spec fn names(&self) -> Seq<Seq<u8>> {
        self.comps@.map_values(|c: Vec<u8>| c@)
    }

    /// Start opening `path`: the root inode is read first.
    pub fn start(path: &[u8]) -> (r: (PathWalk, WalkAction))
        requires
            path@.len() >= 1,
        ensures
            r.0.names() == split_acc(path@.drop_first(), 0x2f, Seq::empty()),
            r.0.next == 0,
            r.0.at_root,
            r.1 == WalkAction::ReadInode(EXT2_ROOT_INODE),
    {
        (PathWalk { comps: path_components(path), next: 0, at_root: true }, WalkAction::ReadInode(EXT2_ROOT_INODE))
    }

    /// The inode asked for was read, of kind `kind`: the root's entries are
    /// read next, whatever its kind; along the path a directory is read in
    /// turn, a file ends the walk and any other kind fails it.
    pub fn inode_read(&self, kind: Option<TypePerm>) -> (a: WalkAction)
        requires
            !self.at_root ==> kind is Some,
        ensures
            a == if self.at_root {
                WalkAction::ReadDir
            } else if kind == Some(TypePerm::Directory) {
                WalkAction::ReadDir
            } else if kind == Some(TypePerm::File) {
                WalkAction::Found
            } else {
                WalkAction::Fail(FsError::IncorrectParseType)
            },
    {
        if self.at_root {
            return WalkAction::ReadDir;
        }
        match kind {
            Some(t) => match FileHandle::step(t) {
                Ok(true) => WalkAction::ReadDir,
                Ok(false) => WalkAction::Found,
                Err(e) => WalkAction::Fail(e),
            },
            None => WalkAction::Fail(FsError::IncorrectParseType),
        }
    }

    /// The entries `dir` of the directory read last: when every name was
    /// looked up the walk ends at that directory; else the next name is
    /// looked up in `dir` and the inode of its first entry is read next, or
    /// the walk fails when no entry has that name.
    pub fn dir_read(&mut self, dir: &Vec<DirPair>) -> (a: WalkAction)
        requires
            old(self).next <= old(self).comps@.len(),
        ensures
            final(self).comps@ == old(self).comps@,
            !final(self).at_root,
            final(self).next <= final(self).comps@.len(),
            old(self).next == old(self).comps@.len() ==> a == WalkAction::Found && final(self).next
                == old(self).next,
            old(self).next < old(self).comps@.len() ==> match a {
                WalkAction::ReadInode(n) => {
                    &&& final(self).next == old(self).next + 1
                    &&& first_named(dir@, old(self).names()[old(self).next as int], n)
                },
                WalkAction::Fail(e) => {
                    &&& e == FsError::DoesNotExist
                    &&& final(self).next == old(self).next
                    &&& forall|i: int|
                        0 <= i < dir@.len() ==> (#[trigger] dir@[i]).name@ != old(self).names()[old(
                            self,
                        ).next as int]
                },
                _ => false,
            },
    {
        self.at_root = false;
        if self.next == self.comps.len() {
            return WalkAction::Found;
        }
        let i = self.next;
        let found = linear_search_dir(self.comps[i].as_slice(), dir.as_slice());
        match found {
            Some(n) => {
                self.next = i + 1;
                WalkAction::ReadInode(n)
            },
            None => WalkAction::Fail(FsError::DoesNotExist),
        }
    }
}

} // verus!
