use vstd::prelude::*;
use crate::bytes::{le_bytes, le_value, push_le, read_le, lemma_le_round_trip, lemma_pow256_values};

verus! {

/// Length of the main header in bytes.
pub const SIZE_MAIN_HEADER: usize = 40;
/// Length of one section directory entry in bytes.
pub const SIZE_SECTION_HEADER: usize = 22;

/// Section flag: payload compressed with zlib.
pub const FLAG_COMPRESS_ZLIB: u8 = 0x1;
/// Section flag: payload compressed with xz.
pub const FLAG_COMPRESS_XZ: u8 = 0x2;
/// Section flag: checksum is a CRC-32 of the uncompressed bytes.
pub const FLAG_CHECK_CRC32: u8 = 0x4;
/// Section flag: checksum is the weak checksum of the uncompressed bytes.
pub const FLAG_CHECK_WEAK: u8 = 0x8;

/// The format version written by this library.
pub const BPX_CURRENT_VERSION: u32 = 2;
/// The default container type byte, `P`.
pub const DEFAULT_TYPE: u8 = 0x50;

/// The fixed-size record at the start of every container. Multi-byte fields
/// are little-endian on the stream.
#[derive(Debug, Clone, Copy)]
pub struct MainHeader {
    pub signature: [u8; 3],
    pub ty: u8,
    pub chksum: u32,
    pub file_size: u64,
    pub section_num: u32,
    pub version: u32,
    pub type_ext: [u8; 16],
}

/// One entry of the section directory.
#[derive(Debug, Clone, Copy, PartialEq, Eq, Structural)]
pub struct SectionHeader {
    /// Offset of the payload in the stream.
    pub pointer: u64,
    /// Size of the payload as stored.
    pub csize: u32,
    /// Size of the payload once decompressed.
    pub size: u32,
    pub chksum: u32,
    pub ty: u8,
    pub flags: u8,
}

pub open spec fn signature_ok(sig: Seq<u8>) -> bool {
    sig == seq![0x42u8, 0x50u8, 0x58u8]
}

pub open spec fn version_known(v: u32) -> bool {
    v == 1 || v == 2
}

/// The 40 bytes of a main header.
pub open spec fn main_header_bytes(h: MainHeader) -> Seq<u8> {
    h.signature@ + seq![h.ty] + le_bytes(h.chksum as nat, 4) + le_bytes(h.file_size as nat, 8)
        + le_bytes(h.section_num as nat, 4) + le_bytes(h.version as nat, 4) + h.type_ext@
}

/// The 22 bytes of a directory entry.
pub open spec fn section_header_bytes(h: SectionHeader) -> Seq<u8> {
    le_bytes(h.pointer as nat, 8) + le_bytes(h.csize as nat, 4) + le_bytes(h.size as nat, 4)
        + le_bytes(h.chksum as nat, 4) + seq![h.ty, h.flags]
}

/// `h` is the main header that the 40 bytes of `s` at `off` spell.
pub open spec fn main_header_read(s: Seq<u8>, off: int, h: MainHeader) -> bool {
    &&& h.signature@ == s.subrange(off, off + 3)
    &&& h.ty == s[off + 3]
    &&& h.chksum as nat == le_value(s.subrange(off + 4, off + 8))
    &&& h.file_size as nat == le_value(s.subrange(off + 8, off + 16))
    &&& h.section_num as nat == le_value(s.subrange(off + 16, off + 20))
    &&& h.version as nat == le_value(s.subrange(off + 20, off + 24))
    &&& h.type_ext@ == s.subrange(off + 24, off + 40)
}

/// The directory entry that the 22 bytes of `s` at `off` spell.
pub open spec fn section_header_at(s: Seq<u8>, off: int) -> SectionHeader {
    SectionHeader {
        pointer: le_value(s.subrange(off, off + 8)) as u64,
        csize: le_value(s.subrange(off + 8, off + 12)) as u32,
        size: le_value(s.subrange(off + 12, off + 16)) as u32,
        chksum: le_value(s.subrange(off + 16, off + 20)) as u32,
        ty: s[off + 20],
        flags: s[off + 21],
    }
}

pub proof fn lemma_section_header_round_trip(h: SectionHeader, pre: Seq<u8>, post: Seq<u8>)
    ensures
        section_header_bytes(h).len() == SIZE_SECTION_HEADER,
        section_header_at(pre + section_header_bytes(h) + post, pre.len() as int) == h,
{
    lemma_pow256_values();
    lemma_le_round_trip(h.pointer as nat, 8);
    lemma_le_round_trip(h.csize as nat, 4);
    lemma_le_round_trip(h.size as nat, 4);
    lemma_le_round_trip(h.chksum as nat, 4);
    let s = pre + section_header_bytes(h) + post;
    let o = pre.len() as int;
    assert(s.subrange(o, o + 8) =~= le_bytes(h.pointer as nat, 8));
    assert(s.subrange(o + 8, o + 12) =~= le_bytes(h.csize as nat, 4));
    assert(s.subrange(o + 12, o + 16) =~= le_bytes(h.size as nat, 4));
    assert(s.subrange(o + 16, o + 20) =~= le_bytes(h.chksum as nat, 4));
}

pub proof fn lemma_main_header_round_trip(h: MainHeader, post: Seq<u8>)
    ensures
        main_header_bytes(h).len() == SIZE_MAIN_HEADER,
        main_header_read(main_header_bytes(h) + post, 0, h),
{
    lemma_pow256_values();
    lemma_le_round_trip(h.chksum as nat, 4);
    lemma_le_round_trip(h.file_size as nat, 8);
    lemma_le_round_trip(h.section_num as nat, 4);
    lemma_le_round_trip(h.version as nat, 4);
    let s = main_header_bytes(h) + post;
    assert(s.subrange(0, 3) =~= h.signature@);
    assert(s.subrange(4, 8) =~= le_bytes(h.chksum as nat, 4));
    assert(s.subrange(8, 16) =~= le_bytes(h.file_size as nat, 8));
    assert(s.subrange(16, 20) =~= le_bytes(h.section_num as nat, 4));
    assert(s.subrange(20, 24) =~= le_bytes(h.version as nat, 4));
    assert(s.subrange(24, 40) =~= h.type_ext@);
}

impl MainHeader {
    /// A header for an empty container of the current version.
    pub fn new() -> (r: MainHeader)
        ensures
            signature_ok(r.signature@),
            r.ty == DEFAULT_TYPE,
            r.chksum == 0,
            r.file_size == SIZE_MAIN_HEADER,
            r.section_num == 0,
            r.version == BPX_CURRENT_VERSION,
            r.type_ext@ == Seq::new(16, |i: int| 0u8),
    {
        let r = MainHeader {
            signature: [0x42u8, 0x50u8, 0x58u8],
            ty: DEFAULT_TYPE,
            chksum: 0,
            file_size: SIZE_MAIN_HEADER as u64,
            section_num: 0,
            version: BPX_CURRENT_VERSION,
            type_ext: [0u8; 16],
        };
        assert(r.signature@ =~= seq![0x42u8, 0x50u8, 0x58u8]);
        assert(r.type_ext@ =~= Seq::new(16, |i: int| 0u8));
        r
    }

    /// Appends the 40 bytes of this header.
    pub fn write_to(&self, out: &mut Vec<u8>)
        ensures
            final(out)@ == old(out)@ + main_header_bytes(*self),
    {
        let ghost start = out@;
        let mut i: usize = 0;
        while i < 3
            invariant
                i <= 3,
                out@ == start + self.signature@.subrange(0, i as int),
            decreases 3 - i,
        {
            out.push(self.signature[i]);
            i = i + 1;
            assert(out@ =~= start + self.signature@.subrange(0, i as int));
        }
        out.push(self.ty);
        push_le(out, self.chksum as u64, 4);
        push_le(out, self.file_size, 8);
        push_le(out, self.section_num as u64, 4);
        push_le(out, self.version as u64, 4);
        let ghost mid = out@;
        let mut j: usize = 0;
        while j < 16
            invariant
                j <= 16,
                out@ == mid + self.type_ext@.subrange(0, j as int),
            decreases 16 - j,
        {
            out.push(self.type_ext[j]);
            j = j + 1;
            assert(out@ =~= mid + self.type_ext@.subrange(0, j as int));
        }
        assert(self.signature@.subrange(0, 3) =~= self.signature@);
        assert(self.type_ext@.subrange(0, 16) =~= self.type_ext@);
        assert(out@ =~= start + main_header_bytes(*self));
    }

    /// Reads the 40 bytes at `off`.
    pub fn read_from(s: &[u8], off: usize) -> (r: MainHeader)
        requires
            off + SIZE_MAIN_HEADER <= s@.len(),
        ensures
            main_header_read(s@, off as int, r),
    {
        let len = s.len();
        let mut signature: [u8; 3] = [0u8; 3];
        let mut i: usize = 0;
        while i < 3
            invariant
                i <= 3,
                off + 40 <= s@.len() == len,
                forall|k: int| 0 <= k < i ==> signature@[k] == s@[off + k],
            decreases 3 - i,
        {
            signature[i] = s[off + i];
            i = i + 1;
        }
        let mut type_ext: [u8; 16] = [0u8; 16];
        let mut j: usize = 0;
        while j < 16
            invariant
                j <= 16,
                off + 40 <= s@.len() == len,
                forall|k: int| 0 <= k < j ==> type_ext@[k] == s@[off + 24 + k],
            decreases 16 - j,
        {
            type_ext[j] = s[off + 24 + j];
            j = j + 1;
        }
        proof { lemma_pow256_values(); }
        let chksum = read_le(s, off + 4, 4);
        let file_size = read_le(s, off + 8, 8);
        let section_num = read_le(s, off + 16, 4);
        let version = read_le(s, off + 20, 4);
        proof {
            crate::bytes::lemma_le_value_bound(s@.subrange(off + 4, off + 8));
            crate::bytes::lemma_le_value_bound(s@.subrange(off + 16, off + 20));
            crate::bytes::lemma_le_value_bound(s@.subrange(off + 20, off + 24));
        }
        let r = MainHeader {
            signature,
            ty: s[off + 3],
            chksum: chksum as u32,
            file_size,
            section_num: section_num as u32,
            version: version as u32,
            type_ext,
        };
        assert(r.signature@ =~= s@.subrange(off as int, off + 3));
        assert(r.type_ext@ =~= s@.subrange(off + 24, off + 40));
        r
    }
}

impl SectionHeader {
    /// An empty, uncompressed and unchecked section of type 0.
    pub fn new() -> (r: SectionHeader)
        ensures
            r == (SectionHeader { pointer: 0, csize: 0, size: 0, chksum: 0, ty: 0, flags: 0 }),
    {
        SectionHeader { pointer: 0, csize: 0, size: 0, chksum: 0, ty: 0, flags: 0 }
    }

    /// Appends the 22 bytes of this entry.
    pub fn write_to(&self, out: &mut Vec<u8>)
        ensures
            final(out)@ == old(out)@ + section_header_bytes(*self),
    {
        let ghost start = out@;
        push_le(out, self.pointer, 8);
        push_le(out, self.csize as u64, 4);
        push_le(out, self.size as u64, 4);
        push_le(out, self.chksum as u64, 4);
        out.push(self.ty);
        out.push(self.flags);
        assert(out@ =~= start + section_header_bytes(*self));
    }

    /// Reads the 22 bytes at `off`.
    pub fn read_from(s: &[u8], off: usize) -> (r: SectionHeader)
        requires
            off + SIZE_SECTION_HEADER <= s@.len(),
        ensures
            r == section_header_at(s@, off as int),
    {
        let len = s.len();
        proof {
            lemma_pow256_values();
            crate::bytes::lemma_le_value_bound(s@.subrange(off + 8, off + 12));
            crate::bytes::lemma_le_value_bound(s@.subrange(off + 12, off + 16));
            crate::bytes::lemma_le_value_bound(s@.subrange(off + 16, off + 20));
        }
        let pointer = read_le(s, off, 8);
        let csize = read_le(s, off + 8, 4);
        let size = read_le(s, off + 12, 4);
        let chksum = read_le(s, off + 16, 4);
        SectionHeader {
            pointer,
            csize: csize as u32,
            size: size as u32,
            chksum: chksum as u32,
            ty: s[off + 20],
            flags: s[off + 21],
        }
    }
}

} // verus!
