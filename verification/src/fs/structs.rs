//! On-disk ext2 structures, read from the bytes the block device gives.
use vstd::prelude::*;
use crate::fs::{FsError, Hint};
use crate::file::elf64::{le16, le32, read_u16, read_u32};

verus! {

/// The ext2 signature.
pub const EXT2_MAGIC: u16 = 0xef53;

/// Byte offset of the superblock on the device.
pub const EXT2_START_SUPERBLOCK: u64 = 1024;

/// Size of a block group descriptor on disk.
pub const BGD_SIZE: usize = 32;

/// Size of an inode structure as read.
pub const INODE_SIZE: usize = 256;

/// The superblock fields the file system uses.
#[derive(Copy, Clone, Debug, PartialEq, Eq, Structural)]
pub struct Superblock {
    pub inodes_count: u32,
    pub blocks_count: u32,
    pub first_data_block: u32,
    pub log_block_size: u32,
    pub blocks_per_group: u32,
    pub inodes_per_group: u32,
    pub magic: u16,
    pub inode_size: u16,
}

/// The superblock fields at their offsets in the superblock bytes.
pub open spec fn superblock_of(b: Seq<u8>) -> Superblock {
    Superblock {
        inodes_count: le32(b, 0) as u32,
        blocks_count: le32(b, 4) as u32,
        first_data_block: le32(b, 20) as u32,
        log_block_size: le32(b, 24) as u32,
        blocks_per_group: le32(b, 32) as u32,
        inodes_per_group: le32(b, 40) as u32,
        magic: le16(b, 56) as u16,
        inode_size: le16(b, 88) as u16,
    }
}

/// Which check a superblock fails, in the order they are made, if any.
pub open spec fn superblock_error(sb: Superblock) -> Option<FsError> {
    if sb.magic != EXT2_MAGIC {
        Some(FsError::BadMagic)
    } else if sb.log_block_size > 21 {
        Some(FsError::BadBlockSize)
    } else if sb.blocks_per_group == 0 || sb.blocks_count / sb.blocks_per_group < 1 {
        Some(FsError::NoBlocksPerGroup)
    } else {
        None
    }
}

/// Number of block groups: blocks divided by blocks per group, rounded up.
pub open spec fn group_count(sb: Superblock) -> int {
    sb.blocks_count / sb.blocks_per_group + if sb.blocks_count % sb.blocks_per_group != 0 {
        1int
    } else {
        0int
    }
}

impl Superblock {
    /// Read and check the superblock from its bytes (the 1024 bytes at
    /// `EXT2_START_SUPERBLOCK`).
    pub fn parse(b: &[u8]) -> (r: Result<Superblock, FsError>)
        requires
            b@.len() >= 90,
        ensures
            match r {
                Ok(sb) => sb == superblock_of(b@) && superblock_error(sb) is None,
                Err(e) => superblock_error(superblock_of(b@)) == Some(e),
            },
    {
        let sb = Superblock {
            inodes_count: read_u32(b, 0),
            blocks_count: read_u32(b, 4),
            first_data_block: read_u32(b, 20),
            log_block_size: read_u32(b, 24),
            blocks_per_group: read_u32(b, 32),
            inodes_per_group: read_u32(b, 40),
            magic: read_u16(b, 56),
            inode_size: read_u16(b, 88),
        };
        if sb.magic != EXT2_MAGIC {
            Err(FsError::BadMagic)
        } else if sb.log_block_size > 21 {
            Err(FsError::BadBlockSize)
        } else if sb.blocks_per_group == 0 || sb.blocks_count / sb.blocks_per_group < 1 {
            Err(FsError::NoBlocksPerGroup)
        } else {
            Ok(sb)
        }
    }

    /// Block size in bytes.
    pub fn block_size(&self) -> (r: u32)
        requires
            self.log_block_size <= 21,
        ensures
            r == 1024 * vstd::arithmetic::power2::pow2(self.log_block_size as nat),
    {
        let mut r: u32 = 1024;
        let mut i: u32 = 0;
        proof {
            vstd::arithmetic::power2::lemma2_to64();
        }
        while i < self.log_block_size
            invariant
                self.log_block_size <= 21,
                i <= self.log_block_size,
                r == 1024 * vstd::arithmetic::power2::pow2(i as nat),
            decreases self.log_block_size - i,
        {
            proof {
                vstd::arithmetic::power2::lemma_pow2_unfold((i + 1) as nat);
                vstd::arithmetic::power2::lemma_pow2_strictly_increases(i as nat, 21);
                vstd::arithmetic::power2::lemma2_to64();
            }
            r = r * 2;
            i = i + 1;
        }
        r
    }

    /// Where the block group descriptor table starts on the device, and how
    /// many descriptors it holds.
    pub fn bgdt_location(&self) -> (r: (u64, usize))
        requires
            superblock_error(*self) is None,
        ensures
            r.0 == if self.block_size_spec() == 1024 {
                2048
            } else {
                self.block_size_spec()
            },
            r.1 == group_count(*self),
    {
        let bsize = self.block_size();
        let start: u64 = if bsize == 1024 {
            2048
        } else {
            bsize as u64
        };
        let n: u64 = (self.blocks_count / self.blocks_per_group) as u64 + if self.blocks_count
            % self.blocks_per_group != 0 {
            1
        } else {
            0
        };
        proof {
            let bc = self.blocks_count as int;
            let g = self.blocks_per_group as int;
            vstd::arithmetic::div_mod::lemma_fundamental_div_mod(bc, g);
            assert(n <= bc) by (nonlinear_arith)
                requires
                    g >= 1,
                    bc >= 0,
                    bc == g * (bc / g) + bc % g,
                    0 <= bc % g < g,
                    n == bc / g + if bc % g != 0 {
                        1int
                    } else {
                        0int
                    },
            ;
        }
        (start, n as usize)
    }

    pub open spec fn block_size_spec(&self) -> int {
        (1024 * vstd::arithmetic::power2::pow2(self.log_block_size as nat)) as int
    }

    /// The hint the file system works from: sizes, and the block group
    /// descriptor table read from `bgdt_location`.
    pub fn build_hint(&self, table: Vec<BlockGroupDescriptor>) -> (h: Hint)
        requires
            superblock_error(*self) is None,
        ensures
            h.block_size == self.block_size_spec(),
            h.inode_size == self.inode_size,
            h.blocks_per_group == self.blocks_per_group,
            h.inodes_per_group == self.inodes_per_group,
            h.block_desc_table@ == table@,
    {
        Hint {
            block_size: self.block_size(),
            inode_size: self.inode_size,
            blocks_per_group: self.blocks_per_group,
            inodes_per_group: self.inodes_per_group,
            block_desc_table: table,
        }
    }
}

/// A block group descriptor.
#[derive(Copy, Clone, Debug, PartialEq, Eq, Structural)]
pub struct BlockGroupDescriptor {
    pub block_usage_addr: u32,
    pub inode_usage_addr: u32,
    pub inode_table_block: u32,
    pub free_blocks_count: u16,
    pub free_inodes_count: u16,
    pub dirs_count: u16,
}

/// The descriptor in the 32 bytes at `off`.
pub open spec fn descriptor_of(b: Seq<u8>, off: int) -> BlockGroupDescriptor {
    BlockGroupDescriptor {
        block_usage_addr: le32(b, off) as u32,
        inode_usage_addr: le32(b, off + 4) as u32,
        inode_table_block: le32(b, off + 8) as u32,
        free_blocks_count: le16(b, off + 12) as u16,
        free_inodes_count: le16(b, off + 14) as u16,
        dirs_count: le16(b, off + 16) as u16,
    }
}

impl BlockGroupDescriptor {
    /// Read the descriptor at byte `off` of `b`.
    pub fn parse(b: &[u8], off: usize) -> (d: Self)
        requires
            off + BGD_SIZE <= b@.len(),
        ensures
            d == descriptor_of(b@, off as int),
    {
        let _len: usize = b.len();
        BlockGroupDescriptor {
            block_usage_addr: read_u32(b, off),
            inode_usage_addr: read_u32(b, off + 4),
            inode_table_block: read_u32(b, off + 8),
            free_blocks_count: read_u16(b, off + 12),
            free_inodes_count: read_u16(b, off + 14),
            dirs_count: read_u16(b, off + 16),
        }
    }
}

/// Bytes to read for `num` descriptors: their size rounded up past the next
/// multiple of 512, as the block device reads whole sectors.
pub fn bgdt_read_len(num: usize) -> (r: usize)
    requires
        BGD_SIZE * num + 512 <= usize::MAX,
    ensures
        r == (BGD_SIZE * num + 512) / 512 * 512,
{
    let x = BGD_SIZE * num + 512;
    x - x % 512
}

/// Read all `num` descriptors from the bytes of the table.
pub fn parse_bgdt(b: &[u8], num: usize) -> (t: Vec<BlockGroupDescriptor>)
    requires
        BGD_SIZE * num <= b@.len(),
    ensures
        t@.len() == num,
        forall|i: int| 0 <= i < num ==> #[trigger] t@[i] == descriptor_of(b@, i * 32),
{
    let mut t: Vec<BlockGroupDescriptor> = Vec::new();
    let _len: usize = b.len();
    let mut i: usize = 0;
    while i < num
        invariant
            i <= num,
            BGD_SIZE * num <= b@.len(),
            _len == b@.len(),
            t@.len() == i,
            forall|k: int| 0 <= k < i ==> #[trigger] t@[k] == descriptor_of(b@, k * 32),
        decreases num - i,
    {
        proof {
            assert(i * 32 + 32 <= num * 32) by (nonlinear_arith)
                requires
                    i < num,
            ;
        }
        t.push(BlockGroupDescriptor::parse(b, i * BGD_SIZE));
        i = i + 1;
    }
    t
}

/// Kind and permission bits of an inode.
#[derive(Copy, Clone, Debug, PartialEq, Eq, Structural)]
pub enum TypePerm {
    Fifo,
    CharDevice,
    Directory,
    BlockDevice,
    File,
    Symlink,
    Socket,
    OExec,
    OWrite,
    ORead,
    GExec,
    GWrite,
    GRead,
    UExec,
    UWrite,
    URead,
    Sticky,
    SetGid,
    SetUid,
}

impl TypePerm {
    /// The bits that stand for this kind or permission in an inode.
    pub fn bits(&self) -> (r: u16)
        ensures
            r == type_perm_bits(*self),
    {
        match self {
            TypePerm::Fifo => 0x1000,
            TypePerm::CharDevice => 0x2000,
            TypePerm::Directory => 0x4000,
            TypePerm::BlockDevice => 0x6000,
            TypePerm::File => 0x8000,
            TypePerm::Symlink => 0xA000,
            TypePerm::Socket => 0xC000,
            TypePerm::OExec => 0x001,
            TypePerm::OWrite => 0x002,
            TypePerm::ORead => 0x004,
            TypePerm::GExec => 0x008,
            TypePerm::GWrite => 0x010,
            TypePerm::GRead => 0x020,
            TypePerm::UExec => 0x040,
            TypePerm::UWrite => 0x080,
            TypePerm::URead => 0x100,
            TypePerm::Sticky => 0x200,
            TypePerm::SetGid => 0x400,
            TypePerm::SetUid => 0x800,
        }
    }
}

pub open spec fn type_perm_bits(t: TypePerm) -> u16 {
    match t {
        TypePerm::Fifo => 0x1000,
        TypePerm::CharDevice => 0x2000,
        TypePerm::Directory => 0x4000,
        TypePerm::BlockDevice => 0x6000,
        TypePerm::File => 0x8000,
        TypePerm::Symlink => 0xA000,
        TypePerm::Socket => 0xC000,
        TypePerm::OExec => 0x001,
        TypePerm::OWrite => 0x002,
        TypePerm::ORead => 0x004,
        TypePerm::GExec => 0x008,
        TypePerm::GWrite => 0x010,
        TypePerm::GRead => 0x020,
        TypePerm::UExec => 0x040,
        TypePerm::UWrite => 0x080,
        TypePerm::URead => 0x100,
        TypePerm::Sticky => 0x200,
        TypePerm::SetGid => 0x400,
        TypePerm::SetUid => 0x800,
    }
}

} // verus!
