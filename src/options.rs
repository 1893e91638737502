use vstd::prelude::*;
use crate::header::{
    MainHeader, SectionHeader, FLAG_CHECK_CRC32, FLAG_CHECK_WEAK, FLAG_COMPRESS_XZ,
    FLAG_COMPRESS_ZLIB,
};

verus! {

/// Open policy flag: accept a main header whose checksum does not match.
pub const FLAG_IGNORE_CHECKSUM: u8 = 0x1;
/// Open policy flag: accept a stream whose signature is not `BPX`.
pub const FLAG_IGNORE_SIGNATURE: u8 = 0x2;
/// Open policy flag: accept an unknown format version.
pub const FLAG_IGNORE_VERSION: u8 = 0x4;
/// Policy flag: a failed save leaves the stream as it was.
pub const FLAG_REVERT_ON_SAVE_FAIL: u8 = 0x8;

/// Sections of at least this many uncompressed bytes are compressed when
/// their flags ask for it, unless the section sets its own threshold.
pub const DEFAULT_COMPRESSION_THRESHOLD: u32 = 65536;
/// Sections above this size would rather be staged outside memory.
pub const DEFAULT_MEMORY_THRESHOLD: u32 = 100_000_000;

#[derive(Debug, Clone, Copy, PartialEq, Eq, Structural)]
pub enum Checksum {
    Unchecked,
    Weak,
    Crc32,
}

#[derive(Debug, Clone, Copy, PartialEq, Eq, Structural)]
pub enum CompressionMethod {
    Uncompressed,
    Zlib,
    Xz,
}

/// The per-section policy, fixed when the section is created.
#[derive(Debug, Clone, Copy, PartialEq, Eq, Structural)]
pub struct SectionSettings {
    pub ty: u8,
    pub checksum: Checksum,
    pub compression: CompressionMethod,
    /// `None` takes the container's threshold.
    pub threshold: Option<u32>,
}

/// The checksum kind that a flags byte selects; CRC-32 wins over weak.
pub open spec fn checksum_of_flags(flags: u8) -> Checksum {
    if flags & FLAG_CHECK_CRC32 != 0 {
        Checksum::Crc32
    } else if flags & FLAG_CHECK_WEAK != 0 {
        Checksum::Weak
    } else {
        Checksum::Unchecked
    }
}

/// The compression kind that a flags byte selects; xz wins over zlib.
pub open spec fn compression_of_flags(flags: u8) -> CompressionMethod {
    if flags & FLAG_COMPRESS_XZ != 0 {
        CompressionMethod::Xz
    } else if flags & FLAG_COMPRESS_ZLIB != 0 {
        CompressionMethod::Zlib
    } else {
        CompressionMethod::Uncompressed
    }
}

pub open spec fn is_compressed(flags: u8) -> bool {
    flags & FLAG_COMPRESS_XZ != 0 || flags & FLAG_COMPRESS_ZLIB != 0
}

pub fn checksum_from_flags(flags: u8) -> (r: Checksum)
    ensures
        r == checksum_of_flags(flags),
{
    if flags & FLAG_CHECK_CRC32 != 0 {
        Checksum::Crc32
    } else if flags & FLAG_CHECK_WEAK != 0 {
        Checksum::Weak
    } else {
        Checksum::Unchecked
    }
}

pub fn compression_from_flags(flags: u8) -> (r: CompressionMethod)
    ensures
        r == compression_of_flags(flags),
{
    if flags & FLAG_COMPRESS_XZ != 0 {
        CompressionMethod::Xz
    } else if flags & FLAG_COMPRESS_ZLIB != 0 {
        CompressionMethod::Zlib
    } else {
        CompressionMethod::Uncompressed
    }
}

/// The flag bits that name a checksum kind.
pub open spec fn checksum_bits(c: Checksum) -> u8 {
    match c {
        Checksum::Unchecked => 0u8,
        Checksum::Weak => FLAG_CHECK_WEAK,
        Checksum::Crc32 => FLAG_CHECK_CRC32,
    }
}

/// The flag bits that name a compression kind.
pub open spec fn compression_bits(c: CompressionMethod) -> u8 {
    match c {
        CompressionMethod::Uncompressed => 0u8,
        CompressionMethod::Zlib => FLAG_COMPRESS_ZLIB,
        CompressionMethod::Xz => FLAG_COMPRESS_XZ,
    }
}

pub fn checksum_flag(c: Checksum) -> (r: u8)
    ensures
        r == checksum_bits(c),
        checksum_of_flags(r) == c,
        !is_compressed(r),
{
    let r = match c {
        Checksum::Unchecked => 0u8,
        Checksum::Weak => FLAG_CHECK_WEAK,
        Checksum::Crc32 => FLAG_CHECK_CRC32,
    };
    assert(0u8 & 4u8 == 0 && 0u8 & 8u8 == 0 && 0u8 & 1u8 == 0 && 0u8 & 2u8 == 0) by (bit_vector);
    assert(8u8 & 4u8 == 0 && 8u8 & 8u8 != 0 && 8u8 & 1u8 == 0 && 8u8 & 2u8 == 0) by (bit_vector);
    assert(4u8 & 4u8 != 0 && 4u8 & 1u8 == 0 && 4u8 & 2u8 == 0) by (bit_vector);
    r
}

pub fn compression_flag(c: CompressionMethod) -> (r: u8)
    ensures
        r == compression_bits(c),
        compression_of_flags(r) == c,
        checksum_of_flags(r) == Checksum::Unchecked,
        r & 0xC == 0,
{
    let r = match c {
        CompressionMethod::Uncompressed => 0u8,
        CompressionMethod::Zlib => FLAG_COMPRESS_ZLIB,
        CompressionMethod::Xz => FLAG_COMPRESS_XZ,
    };
    assert(0u8 & 4u8 == 0 && 0u8 & 8u8 == 0 && 0u8 & 1u8 == 0 && 0u8 & 2u8 == 0 && 0u8 & 0xCu8 == 0) by (bit_vector);
    assert(1u8 & 4u8 == 0 && 1u8 & 8u8 == 0 && 1u8 & 1u8 != 0 && 1u8 & 2u8 == 0 && 1u8 & 0xCu8 == 0) by (bit_vector);
    assert(2u8 & 4u8 == 0 && 2u8 & 8u8 == 0 && 2u8 & 2u8 != 0 && 2u8 & 0xCu8 == 0) by (bit_vector);
    r
}

/// Options of a new section, as a flags byte and a threshold where a negative
/// threshold takes the container's.
#[derive(Debug, Clone, Copy, PartialEq, Eq, Structural)]
pub struct SectionOptions {
    pub ty: u8,
    pub flags: u8,
    pub compression_threshold: isize,
}

/// The section policy that options stand for. A threshold is kept only when
/// it is not negative and a compression is asked for.
pub open spec fn settings_of_options(o: SectionOptions) -> SectionSettings {
    SectionSettings {
        ty: o.ty,
        checksum: checksum_of_flags(o.flags),
        compression: compression_of_flags(o.flags),
        threshold: if o.compression_threshold >= 0 && is_compressed(o.flags) {
            Some(o.compression_threshold as u32)
        } else {
            None::<u32>
        },
    }
}

impl SectionOptions {
    /// Weak checksum and zlib compression at the container's threshold.
    pub fn default_options() -> (r: SectionOptions)
        ensures
            r == (SectionOptions { ty: 0, flags: FLAG_CHECK_WEAK | FLAG_COMPRESS_ZLIB, compression_threshold: -1isize }),
    {
        SectionOptions { ty: 0, flags: FLAG_CHECK_WEAK | FLAG_COMPRESS_ZLIB, compression_threshold: -1 }
    }

    pub fn to_options(&self) -> (r: SectionSettings)
        ensures
            r == settings_of_options(*self),
    {
        let threshold = if self.compression_threshold >= 0
            && (self.flags & FLAG_COMPRESS_ZLIB != 0 || self.flags & FLAG_COMPRESS_XZ != 0) {
            Some(self.compression_threshold as u32)
        } else {
            None
        };
        SectionSettings {
            ty: self.ty,
            checksum: checksum_from_flags(self.flags),
            compression: compression_from_flags(self.flags),
            threshold,
        }
    }
}

/// Options of a new section with an unsigned threshold, used whenever a
/// compression is asked for.
#[derive(Debug, Clone, Copy, PartialEq, Eq, Structural)]
pub struct BPXSectionOptions {
    pub ty: u8,
    pub flags: u8,
    pub compression_threshold: u32,
}

impl BPXSectionOptions {
    pub fn to_options(&self) -> (r: SectionSettings)
        ensures
            r.ty == self.ty,
            r.checksum == checksum_of_flags(self.flags),
            r.compression == compression_of_flags(self.flags),
            r.threshold == (if is_compressed(self.flags) {
                Some(self.compression_threshold)
            } else {
                None::<u32>
            }),
    {
        let threshold = if self.flags & FLAG_COMPRESS_ZLIB != 0 || self.flags & FLAG_COMPRESS_XZ != 0 {
            Some(self.compression_threshold)
        } else {
            None
        };
        SectionSettings {
            ty: self.ty,
            checksum: checksum_from_flags(self.flags),
            compression: compression_from_flags(self.flags),
            threshold,
        }
    }
}

/// A directory entry as handed to a host, with the checksum field spelled
/// out.
#[derive(Debug, Clone, Copy, PartialEq, Eq, Structural)]
pub struct BPXSectionHeader {
    pub pointer: u64,
    pub csize: u32,
    pub size: u32,
    pub checksum: u32,
    pub ty: u8,
    pub flags: u8,
}

impl BPXSectionHeader {
    pub fn from_header(header: &SectionHeader) -> (r: BPXSectionHeader)
        ensures
            r == (BPXSectionHeader {
                pointer: header.pointer,
                csize: header.csize,
                size: header.size,
                checksum: header.chksum,
                ty: header.ty,
                flags: header.flags,
            }),
    {
        BPXSectionHeader {
            pointer: header.pointer,
            csize: header.csize,
            size: header.size,
            checksum: header.chksum,
            ty: header.ty,
            flags: header.flags,
        }
    }
}

/// How to open an existing container.
#[derive(Debug, Clone, Copy, PartialEq, Eq, Structural)]
pub struct OpenOptions {
    pub flags: u8,
    pub memory_threshold: u32,
    pub compression_threshold: u32,
}

/// How to create a new container; the type, version and type extension come
/// from `main_header`.
#[derive(Debug, Clone, Copy)]
pub struct CreateOptions {
    pub flags: u8,
    pub memory_threshold: u32,
    pub compression_threshold: u32,
    pub main_header: MainHeader,
}

pub fn bpx_create_options_default() -> (r: CreateOptions)
    ensures
        r.flags == 0,
        r.memory_threshold == DEFAULT_MEMORY_THRESHOLD,
        r.compression_threshold == DEFAULT_COMPRESSION_THRESHOLD,
        crate::header::signature_ok(r.main_header.signature@),
        r.main_header.ty == crate::header::DEFAULT_TYPE,
        r.main_header.version == crate::header::BPX_CURRENT_VERSION,
{
    CreateOptions {
        flags: 0,
        memory_threshold: DEFAULT_MEMORY_THRESHOLD,
        compression_threshold: DEFAULT_COMPRESSION_THRESHOLD,
        main_header: MainHeader::new(),
    }
}

pub fn bpx_open_options_default() -> (r: OpenOptions)
    ensures
        r == (OpenOptions {
            flags: 0,
            memory_threshold: DEFAULT_MEMORY_THRESHOLD,
            compression_threshold: DEFAULT_COMPRESSION_THRESHOLD,
        }),
{
    OpenOptions {
        flags: 0,
        memory_threshold: DEFAULT_MEMORY_THRESHOLD,
        compression_threshold: DEFAULT_COMPRESSION_THRESHOLD,
    }
}

} // verus!
