//! Interpretation of 64 bit ELF executable files.
//!
//! Multi-byte fields are little endian. The file header is the first 64
//! bytes; program headers are 56 bytes each.
use vstd::prelude::*;

verus! {

#[derive(Copy, Clone, Debug, PartialEq, Eq, Structural)]
pub enum Endianness {
    Little,
    Big,
}

#[derive(Copy, Clone, Debug, PartialEq, Eq, Structural)]
pub enum AddrWidth {
    Word,
    DoubleWord,
}

#[derive(Copy, Clone, Debug, PartialEq, Eq, Structural)]
pub enum ELFType {
    Relocatable,
    Executable,
    Shared,
    Core,
}

#[derive(Copy, Clone, Debug, PartialEq, Eq, Structural)]
pub enum Architecture {
    Unspecified,
    Sparc,
    X86,
    Mips,
    PowerPC,
    Arm,
    SuperH,
    IA64,
    X86_64,
    Aarch64,
    RISCV,
}

/// Size of the ELF64 file header in bytes.
pub const ELF64_HEADER_SIZE: usize = 64;

/// Size of an ELF64 program header in bytes.
pub const PROGRAM_HEADER_SIZE: usize = 56;

pub const PROG_SEG_EXEC: u32 = 1;
pub const PROG_SEG_WRITE: u32 = 2;
pub const PROG_SEG_READ: u32 = 4;

/// Little endian 16 bit value at `off`.
pub open spec fn le16(b: Seq<u8>, off: int) -> int {
    b[off] + 0x100 * b[off + 1]
}

/// Little endian 32 bit value at `off`.
pub open spec fn le32(b: Seq<u8>, off: int) -> int {
    le16(b, off) + 0x1_0000 * le16(b, off + 2)
}

/// Little endian 64 bit value at `off`.
pub open spec fn le64(b: Seq<u8>, off: int) -> int {
    le32(b, off) + 0x1_0000_0000 * le32(b, off + 4)
}

pub fn read_u16(b: &[u8], off: usize) -> (r: u16)
    requires
        off + 2 <= b@.len(),
    ensures
        r == le16(b@, off as int),
{
    (b[off] as u16) + (b[off + 1] as u16) * 0x100
}

pub fn read_u32(b: &[u8], off: usize) -> (r: u32)
    requires
        off + 4 <= b@.len(),
    ensures
        r == le32(b@, off as int),
{
    let _len: usize = b.len();
    (read_u16(b, off) as u32) + (read_u16(b, off + 2) as u32) * 0x1_0000
}

pub fn read_u64(b: &[u8], off: usize) -> (r: u64)
    requires
        off + 8 <= b@.len(),
    ensures
        r == le64(b@, off as int),
{
    let _len: usize = b.len();
    (read_u32(b, off) as u64) + (read_u32(b, off + 4) as u64) * 0x1_0000_0000
}

/// The identifying bytes say: ELF magic, 64 bit, little endian, an
/// executable, for RISC-V.
pub open spec fn header_supported(b: Seq<u8>) -> bool {
    &&& b.len() >= 64
    &&& b[0] == 0x7f && b[1] == 0x45 && b[2] == 0x4c && b[3] == 0x46
    &&& b[4] == 2
    &&& b[5] == 1
    &&& le16(b, 16) == 2
    &&& le16(b, 18) == 0xF3
}

/// Whether `new64` accepts the file.
pub fn elf64_supported(src: &[u8]) -> (r: bool)
    ensures
        r == header_supported(src@),
{
    if src.len() < 64 {
        return false;
    }
    src[0] == 0x7f && src[1] == 0x45 && src[2] == 0x4c && src[3] == 0x46 && src[4] == 2 && src[5]
        == 1 && read_u16(src, 16) == 2 && read_u16(src, 18) == 0xF3
}

/// The bits of the file header. Identification fields that `new64` checks
/// hold their only accepted value.
#[derive(Copy, Clone, Debug)]
pub struct ELFHeader {
    pub magic: [u8; 4],
    pub width: AddrWidth,
    pub endian: Endianness,
    pub header_version: u8,
    pub padding: [u8; 8],
    pub ident_size: u8,
    pub elf_type: ELFType,
    pub instruction_set: Architecture,
    pub version: u32,
    pub entry: u64,
    pub program_header_pos: u64,
    pub section_header_pos: u64,
    pub flags: u32,
    pub header_size: u16,
    pub program_entry_size: u16,
    pub num_program_entries: u16,
    pub section_entry_size: u16,
    pub num_section_entries: u16,
    pub section_name_index: u16,
}

/// The header fields read from the bytes of a supported file.
pub open spec fn header_of(b: Seq<u8>) -> ELFHeader {
    ELFHeader {
        magic: [0x7f, 0x45, 0x4c, 0x46],
        width: AddrWidth::DoubleWord,
        endian: Endianness::Little,
        header_version: b[6],
        padding: [b[7], b[8], b[9], b[10], b[11], b[12], b[13], b[14]],
        ident_size: b[15],
        elf_type: ELFType::Executable,
        instruction_set: Architecture::RISCV,
        version: le32(b, 20) as u32,
        entry: le64(b, 24) as u64,
        program_header_pos: le64(b, 32) as u64,
        section_header_pos: le64(b, 40) as u64,
        flags: le32(b, 48) as u32,
        header_size: le16(b, 52) as u16,
        program_entry_size: le16(b, 54) as u16,
        num_program_entries: le16(b, 56) as u16,
        section_entry_size: le16(b, 58) as u16,
        num_section_entries: le16(b, 60) as u16,
        section_name_index: le16(b, 62) as u16,
    }
}

/// Kind of a program segment. Values this kernel does not know are `Other`.
#[derive(Copy, Clone, Debug, PartialEq, Eq, Structural)]
pub enum ProgramSegmentType {
    Ignore,
    Load,
    Dynamic,
    Interpreter,
    Notes,
    Reserved,
    ProgramTable,
    Other(u32),
}

pub open spec fn segment_type_of(v: u32) -> ProgramSegmentType {
    if v == 0 {
        ProgramSegmentType::Ignore
    } else if v == 1 {
        ProgramSegmentType::Load
    } else if v == 2 {
        ProgramSegmentType::Dynamic
    } else if v == 3 {
        ProgramSegmentType::Interpreter
    } else if v == 4 {
        ProgramSegmentType::Notes
    } else if v == 5 {
        ProgramSegmentType::Reserved
    } else if v == 6 {
        ProgramSegmentType::ProgramTable
    } else {
        ProgramSegmentType::Other(v)
    }
}

fn segment_type(v: u32) -> (r: ProgramSegmentType)
    ensures
        r == segment_type_of(v),
{
    match v {
        0 => ProgramSegmentType::Ignore,
        1 => ProgramSegmentType::Load,
        2 => ProgramSegmentType::Dynamic,
        3 => ProgramSegmentType::Interpreter,
        4 => ProgramSegmentType::Notes,
        5 => ProgramSegmentType::Reserved,
        6 => ProgramSegmentType::ProgramTable,
        _ => ProgramSegmentType::Other(v),
    }
}

/// A program header: describes one segment of the file.
#[derive(Copy, Clone, Debug, PartialEq, Eq, Structural)]
pub struct ProgramHeaderSegment64 {
    pub seg_type: ProgramSegmentType,
    pub flags: u32,
    pub file_offset: u64,
    pub vmem_addr: u64,
    pub unused: u64,
    pub size_in_file: u64,
    pub size_in_memory: u64,
    pub alignment: u64,
}

/// The program header read from the 56 bytes at `off`.
pub open spec fn segment_of(b: Seq<u8>, off: int) -> ProgramHeaderSegment64 {
    ProgramHeaderSegment64 {
        seg_type: segment_type_of(le32(b, off) as u32),
        flags: le32(b, off + 4) as u32,
        file_offset: le64(b, off + 8) as u64,
        vmem_addr: le64(b, off + 16) as u64,
        unused: le64(b, off + 24) as u64,
        size_in_file: le64(b, off + 32) as u64,
        size_in_memory: le64(b, off + 40) as u64,
        alignment: le64(b, off + 48) as u64,
    }
}

impl ProgramHeaderSegment64 {
    /// Read the program header at byte offset `off` of `b`.
    pub fn parse(b: &[u8], off: usize) -> (r: Self)
        requires
            off + 56 <= b@.len(),
        ensures
            r == segment_of(b@, off as int),
    {
        let _len: usize = b.len();
        ProgramHeaderSegment64 {
            seg_type: segment_type(read_u32(b, off)),
            flags: read_u32(b, off + 4),
            file_offset: read_u64(b, off + 8),
            vmem_addr: read_u64(b, off + 16),
            unused: read_u64(b, off + 24),
            size_in_file: read_u64(b, off + 32),
            size_in_memory: read_u64(b, off + 40),
            alignment: read_u64(b, off + 48),
        }
    }
}

/// Why a program cannot be loaded.
#[derive(Copy, Clone, Debug, PartialEq, Eq, Structural)]
pub enum ELFError {
    MappedZeroPage,
    MappedKernelText,
    FailedAlloc,
    FailedMap,
    InequalSizes,
    ExcessiveAlignment,
}

/// An ELF executable: its header and the bytes of the file.
pub struct ELFProgram {
    pub header: ELFHeader,
    pub source: Vec<u8>,
}

impl ELFProgram {
    /// Read the header of a 64 bit little endian RISC-V executable. Other
    /// files are refused by `elf64_supported`.
    pub fn new64(src: Vec<u8>) -> (p: Self)
        requires
            header_supported(src@),
        ensures
            p.header == header_of(src@),
            p.source@ == src@,
    {
        let s = src.as_slice();
        let header = ELFHeader {
            magic: [src[0], src[1], src[2], src[3]],
            width: AddrWidth::DoubleWord,
            endian: Endianness::Little,
            header_version: src[6],
            padding: [src[7], src[8], src[9], src[10], src[11], src[12], src[13], src[14]],
            ident_size: src[15],
            elf_type: ELFType::Executable,
            instruction_set: Architecture::RISCV,
            version: read_u32(s, 20),
            entry: read_u64(s, 24),
            program_header_pos: read_u64(s, 32),
            section_header_pos: read_u64(s, 40),
            flags: read_u32(s, 48),
            header_size: read_u16(s, 52),
            program_entry_size: read_u16(s, 54),
            num_program_entries: read_u16(s, 56),
            section_entry_size: read_u16(s, 58),
            num_section_entries: read_u16(s, 60),
            section_name_index: read_u16(s, 62),
        };
        proof {
            assert(header.magic =~= [0x7fu8, 0x45, 0x4c, 0x46]);
            assert(header.padding =~= [src@[7], src@[8], src@[9], src@[10], src@[11], src@[12], src@[13], src@[14]]);
        }
        ELFProgram { header, source: src }
    }
}

} // verus!
