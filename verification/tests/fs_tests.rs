use lib::fs::structs::{
    bgdt_read_len, parse_bgdt, BlockGroupDescriptor, Superblock, TypePerm, EXT2_MAGIC,
};
use lib::fs::{
    bytes_eq, linear_search_dir, parse_dir_block, path_components, DirPair, FileHandle, FsError,
    Hint, Inode, PathWalk, WalkAction,
};

fn put16(b: &mut [u8], at: usize, v: u16) {
    b[at..at + 2].copy_from_slice(&v.to_le_bytes());
}

fn put32(b: &mut [u8], at: usize, v: u32) {
    b[at..at + 4].copy_from_slice(&v.to_le_bytes());
}

fn superblock_bytes(blocks: u32, per_group: u32, log_block_size: u32, magic: u16) -> Vec<u8> {
    let mut b = vec![0u8; 1024];
    put32(&mut b, 0, 4096);
    put32(&mut b, 4, blocks);
    put32(&mut b, 20, 1);
    put32(&mut b, 24, log_block_size);
    put32(&mut b, 32, per_group);
    put32(&mut b, 40, 2048);
    put16(&mut b, 56, magic);
    put16(&mut b, 88, 256);
    b
}

#[test]
fn superblock_parse_reads_the_fields() {
    let sb = Superblock::parse(&superblock_bytes(16384, 8192, 0, EXT2_MAGIC)).unwrap();
    assert_eq!(sb.inodes_count, 4096);
    assert_eq!(sb.blocks_count, 16384);
    assert_eq!(sb.first_data_block, 1);
    assert_eq!(sb.blocks_per_group, 8192);
    assert_eq!(sb.inodes_per_group, 2048);
    assert_eq!(sb.inode_size, 256);
    assert_eq!(sb.block_size(), 1024);
    assert_eq!(sb.bgdt_location(), (2048, 2));
}

#[test]
fn superblock_parse_refuses_a_bad_magic() {
    assert_eq!(Superblock::parse(&superblock_bytes(16384, 8192, 0, 0x1234)), Err(FsError::BadMagic));
}

#[test]
fn superblock_parse_refuses_a_huge_block_size() {
    assert_eq!(
        Superblock::parse(&superblock_bytes(16384, 8192, 22, EXT2_MAGIC)),
        Err(FsError::BadBlockSize)
    );
}

#[test]
fn superblock_parse_refuses_less_than_one_group() {
    assert_eq!(
        Superblock::parse(&superblock_bytes(100, 8192, 0, EXT2_MAGIC)),
        Err(FsError::NoBlocksPerGroup)
    );
    assert_eq!(
        Superblock::parse(&superblock_bytes(100, 0, 0, EXT2_MAGIC)),
        Err(FsError::NoBlocksPerGroup)
    );
}

#[test]
fn larger_blocks_move_the_descriptor_table() {
    let sb = Superblock::parse(&superblock_bytes(20000, 8192, 2, EXT2_MAGIC)).unwrap();
    assert_eq!(sb.block_size(), 4096);
    // 20000 blocks make two full groups and a partial one.
    assert_eq!(sb.bgdt_location(), (4096, 3));
}

#[test]
fn build_hint_keeps_sizes_and_table() {
    let sb = Superblock::parse(&superblock_bytes(16384, 8192, 1, EXT2_MAGIC)).unwrap();
    let d = BlockGroupDescriptor {
        block_usage_addr: 3,
        inode_usage_addr: 4,
        inode_table_block: 5,
        free_blocks_count: 0,
        free_inodes_count: 0,
        dirs_count: 1,
    };
    let h = sb.build_hint(vec![d]);
    assert_eq!(h.block_size, 2048);
    assert_eq!(h.inode_size, 256);
    assert_eq!(h.blocks_per_group, 8192);
    assert_eq!(h.inodes_per_group, 2048);
    assert_eq!(h.block_desc_table, vec![d]);
}

#[test]
fn bgdt_read_len_rounds_past_a_sector() {
    assert_eq!(bgdt_read_len(2), 512);
    assert_eq!(bgdt_read_len(16), 1024);
    assert_eq!(bgdt_read_len(0), 512);
}

#[test]
fn parse_bgdt_reads_every_descriptor() {
    let mut b = vec![0u8; 64];
    put32(&mut b, 0, 3);
    put32(&mut b, 8, 5);
    put16(&mut b, 16, 7);
    put32(&mut b, 32 + 8, 8197);
    let t = parse_bgdt(&b, 2);
    assert_eq!(t.len(), 2);
    assert_eq!(t[0].block_usage_addr, 3);
    assert_eq!(t[0].inode_table_block, 5);
    assert_eq!(t[0].dirs_count, 7);
    assert_eq!(t[1].inode_table_block, 8197);
}

fn hint() -> Hint {
    let d = BlockGroupDescriptor {
        block_usage_addr: 3,
        inode_usage_addr: 4,
        inode_table_block: 5,
        free_blocks_count: 0,
        free_inodes_count: 0,
        dirs_count: 1,
    };
    let mut d2 = d;
    d2.inode_table_block = 8197;
    Hint {
        block_size: 1024,
        inode_size: 256,
        blocks_per_group: 8192,
        inodes_per_group: 2048,
        block_desc_table: vec![d, d2],
    }
}

#[test]
fn inode_location_finds_the_inode_table_entry() {
    let h = hint();
    assert_eq!(h.inode_location(1), (5 * 1024, 0));
    // Inode 2 lies 256 bytes into the sector read.
    assert_eq!(h.inode_location(2), (5 * 1024, 256));
    // Index 4 gives block 1 of the table, and 1024 bytes more as its offset.
    assert_eq!(h.inode_location(5), (7 * 1024, 0));
    // Inode 2049 is the first of the second group.
    assert_eq!(h.inode_location(2049), (8197 * 1024, 0));
}

#[test]
fn try_inode_location_refuses_inodes_out_of_the_table() {
    let h = hint();
    assert_eq!(h.try_inode_location(0), None);
    assert_eq!(h.try_inode_location(2), Some((5 * 1024, 256)));
    assert_eq!(h.try_inode_location(4096), Some(h.inode_location(4096)));
    // Two groups of 2048 inodes: inode 4097 would be in a third.
    assert_eq!(h.try_inode_location(4097), None);
}

fn inode_bytes(type_perm: u16, size: u32, direct: &[u32]) -> Vec<u8> {
    let mut b = vec![0u8; 256];
    put16(&mut b, 0, type_perm);
    put32(&mut b, 4, size);
    for (k, p) in direct.iter().enumerate() {
        put32(&mut b, 40 + 4 * k, *p);
    }
    put32(&mut b, 108, 0);
    b
}

#[test]
fn inode_parse_and_type() {
    let b = inode_bytes(0x81A4, 1500, &[10, 0, 11]);
    let i = Inode::parse(&b, 0);
    assert_eq!(i.type_perm, 0x81A4);
    assert_eq!(i.size_low, 1500);
    assert_eq!(i.direct_pointer[0], 10);
    assert_eq!(i.direct_pointer[2], 11);
    assert_eq!(i.get_type(), Some(TypePerm::File));
    let d = Inode::parse(&inode_bytes(0x41ED, 1024, &[20]), 0);
    assert_eq!(d.get_type(), Some(TypePerm::Directory));
    let s = Inode::parse(&inode_bytes(0x21B6, 0, &[]), 0);
    assert_eq!(s.get_type(), None);
}

#[test]
fn inode_type_is_the_high_nibble() {
    // A symlink, a socket and a block device carry the file or directory
    // bit among others; none is a file or a directory.
    for t in [0xA1FFu16, 0xC1A4, 0x61B0] {
        let i = Inode::parse(&inode_bytes(t, 10, &[1]), 0);
        assert_eq!(i.get_type(), None);
        assert!(i.file_reads(1024, 64).is_err());
        assert!(i.dir_reads(1024).is_err());
    }
}

#[test]
fn file_reads_plans_direct_blocks() {
    let i = Inode::parse(&inode_bytes(0x81A4, 1500, &[10, 0, 11, 12]), 0);
    let (reads, n) = i.file_reads(1024, 1500).unwrap();
    // Zero pointers are passed over; the last read is cut to the buffer.
    assert_eq!(reads, vec![(10 * 1024, 0, 1024), (11 * 1024, 1024, 476)]);
    assert_eq!(n, 2048);
}

#[test]
fn file_reads_refuses_a_directory() {
    let d = Inode::parse(&inode_bytes(0x41ED, 1024, &[20]), 0);
    assert!(matches!(d.file_reads(1024, 1024), Err(FsError::IncorrectParseType)));
}

fn dir_block() -> Vec<u8> {
    let mut b = vec![0u8; 64];
    // "." -> 2
    put32(&mut b, 0, 2);
    put16(&mut b, 4, 12);
    b[6] = 1;
    b[7] = 2;
    b[8] = b'.';
    // an unused entry
    put32(&mut b, 12, 0);
    put16(&mut b, 16, 12);
    b[18] = 2;
    b[20] = b'.';
    b[21] = b'.';
    // "hello" -> 12, reaching the end of the block
    put32(&mut b, 24, 12);
    put16(&mut b, 28, 40);
    b[30] = 5;
    b[31] = 1;
    b[32..37].copy_from_slice(b"hello");
    b
}

#[test]
fn parse_dir_block_keeps_used_entries() {
    let d = parse_dir_block(&dir_block());
    assert_eq!(d.len(), 2);
    assert_eq!(d[0].name, b".".to_vec());
    assert_eq!(d[0].inode, 2);
    assert_eq!(d[1].name, b"hello".to_vec());
    assert_eq!(d[1].inode, 12);
}

#[test]
fn parse_dir_block_stops_at_a_zero_sized_entry() {
    let mut b = dir_block();
    put16(&mut b, 4, 0);
    let d = parse_dir_block(&b);
    assert_eq!(d.len(), 1);
    assert_eq!(d[0].inode, 2);
}

#[test]
fn linear_search_dir_finds_the_first_match() {
    let d = vec![
        DirPair::new(b"a".to_vec(), 3),
        DirPair::new(b"hello".to_vec(), 12),
        DirPair::new(b"hello".to_vec(), 13),
    ];
    assert_eq!(linear_search_dir(b"hello", &d), Some(12));
    assert_eq!(linear_search_dir(b"a", &d), Some(3));
    assert_eq!(linear_search_dir(b"hell", &d), None);
}

#[test]
fn bytes_eq_compares_contents() {
    assert!(bytes_eq(b"abc", b"abc"));
    assert!(!bytes_eq(b"abc", b"abd"));
    assert!(!bytes_eq(b"abc", b"ab"));
    assert!(bytes_eq(b"", b""));
}

#[test]
fn path_components_split_after_the_root() {
    assert_eq!(
        path_components(b"/usr/bin/ls"),
        vec![b"usr".to_vec(), b"bin".to_vec(), b"ls".to_vec()]
    );
    assert_eq!(path_components(b"/"), vec![Vec::<u8>::new()]);
    assert_eq!(path_components(b"/a//b"), vec![b"a".to_vec(), Vec::new(), b"b".to_vec()]);
}

#[test]
fn file_handle_steps_through_directories_to_a_file() {
    assert_eq!(FileHandle::step(TypePerm::Directory), Ok(true));
    assert_eq!(FileHandle::step(TypePerm::File), Ok(false));
    assert_eq!(FileHandle::step(TypePerm::Symlink), Err(FsError::IncorrectParseType));
    let i = Inode::parse(&inode_bytes(0x81A4, 10, &[1]), 0);
    let f = FileHandle::new(b"/x".to_vec(), i);
    assert_eq!(f.cursor, 0);
    assert_eq!(f.path, b"/x".to_vec());
}

#[test]
fn type_perm_bits_values() {
    assert_eq!(TypePerm::Directory.bits(), 0x4000);
    assert_eq!(TypePerm::File.bits(), 0x8000);
    assert_eq!(TypePerm::URead.bits(), 0x100);
    assert_eq!(TypePerm::SetUid.bits(), 0x800);
}

#[test]
fn dir_reads_lists_the_directory_blocks() {
    let d = Inode::parse(&inode_bytes(0x41ED, 2048, &[20, 0, 21]), 0);
    assert_eq!(d.dir_reads(1024), Ok(vec![20 * 1024, 21 * 1024]));
    let f = Inode::parse(&inode_bytes(0x81A4, 10, &[1]), 0);
    assert_eq!(f.dir_reads(1024), Err(FsError::IncorrectParseType));
}

fn entry(name: &[u8], inode: u32) -> DirPair {
    DirPair { name: name.to_vec(), inode }
}

#[test]
fn path_walk_reaches_a_file() {
    let (mut w, a) = PathWalk::start(b"/bin/ls");
    assert_eq!(a, WalkAction::ReadInode(2));
    // The root's entries are read whatever its kind.
    assert_eq!(w.inode_read(None), WalkAction::ReadDir);
    assert_eq!(w.dir_read(&vec![entry(b"etc", 4), entry(b"bin", 5)]), WalkAction::ReadInode(5));
    assert_eq!(w.inode_read(Some(TypePerm::Directory)), WalkAction::ReadDir);
    assert_eq!(w.dir_read(&vec![entry(b"ls", 9), entry(b"ls", 10)]), WalkAction::ReadInode(9));
    assert_eq!(w.inode_read(Some(TypePerm::File)), WalkAction::Found);
}

#[test]
fn path_walk_ends_at_a_directory() {
    let (mut w, _) = PathWalk::start(b"/bin");
    assert_eq!(w.inode_read(Some(TypePerm::Directory)), WalkAction::ReadDir);
    assert_eq!(w.dir_read(&vec![entry(b"bin", 5)]), WalkAction::ReadInode(5));
    assert_eq!(w.inode_read(Some(TypePerm::Directory)), WalkAction::ReadDir);
    assert_eq!(w.dir_read(&vec![entry(b"x", 7)]), WalkAction::Found);
}

#[test]
fn path_walk_fails_on_a_missing_name_or_an_odd_kind() {
    let (mut w, _) = PathWalk::start(b"/nope");
    assert_eq!(w.inode_read(Some(TypePerm::Directory)), WalkAction::ReadDir);
    assert_eq!(w.dir_read(&vec![entry(b"bin", 5)]), WalkAction::Fail(FsError::DoesNotExist));
    let (mut w, _) = PathWalk::start(b"/dev/tty");
    assert_eq!(w.inode_read(Some(TypePerm::Directory)), WalkAction::ReadDir);
    assert_eq!(w.dir_read(&vec![entry(b"dev", 3)]), WalkAction::ReadInode(3));
    assert_eq!(w.inode_read(Some(TypePerm::Symlink)), WalkAction::Fail(FsError::IncorrectParseType));
}
