use vstd::prelude::*;
use crate::bytes::{byte_sum, le_value, weak_sum, weak_sum_range};
use crate::codec::{
    crc32, crc32_of, xz_compress, xz_decompress, xz_deflated, xz_inflated, zlib_compress,
    zlib_decompress, zlib_deflated, zlib_inflated,
};
use crate::error::{Error, FormatCheck, IoErrorKind};
use crate::header::{
    main_header_bytes, main_header_read, section_header_at, section_header_bytes, signature_ok,
    version_known, MainHeader, SectionHeader, SIZE_MAIN_HEADER,
};
use crate::options::{
    checksum_bits, checksum_flag, checksum_from_flags, checksum_of_flags, compression_bits,
    compression_flag, compression_from_flags, compression_of_flags, is_compressed, Checksum,
    CompressionMethod, CreateOptions, OpenOptions, SectionOptions, SectionSettings, settings_of_options,
    FLAG_IGNORE_CHECKSUM, FLAG_IGNORE_SIGNATURE, FLAG_IGNORE_VERSION, FLAG_REVERT_ON_SAVE_FAIL,
};
use crate::section::{
    read_at, seek_target, shifted_left, shifted_right, write_at, CSeekFrom, SectionData, ShiftTo,
};

verus! {

/// Identifies a live section independently of its place in the directory.
/// Handles are never given out twice by one container.
#[derive(Debug, Clone, Copy, PartialEq, Eq, Structural)]
pub struct Handle {
    pub raw: u32,
}

impl Handle {
    pub fn from_raw(raw: u32) -> (r: Handle)
        ensures
            r.raw == raw,
    {
        Handle { raw }
    }

    pub fn into_raw(self) -> (r: u32)
        ensures
            r == self.raw,
    {
        self.raw
    }
}

/// A snapshot of one directory entry.
#[derive(Debug, Clone, Copy, PartialEq, Eq, Structural)]
pub struct SectionInfo {
    pub header: SectionHeader,
    pub index: u32,
    pub handle: u32,
}

/// What a section holds once its stored bytes are decompressed.
pub open spec fn decoded(flags: u8, stored: Seq<u8>) -> Seq<u8> {
    match compression_of_flags(flags) {
        CompressionMethod::Xz => xz_inflated(stored),
        CompressionMethod::Zlib => zlib_inflated(stored),
        CompressionMethod::Uncompressed => stored,
    }
}

/// The weak checksum: the sum of all bytes modulo 2^32.
/// The stored bytes are what the codec that `flags` names writes for some
/// input; uncompressed bytes always are.
pub open spec fn stored_decodes(flags: u8, stored: Seq<u8>) -> bool {
    match compression_of_flags(flags) {
        CompressionMethod::Xz => exists|x: Seq<u8>| stored == #[trigger] xz_deflated(x),
        CompressionMethod::Zlib => exists|x: Seq<u8>| stored == #[trigger] zlib_deflated(x),
        CompressionMethod::Uncompressed => true,
    }
}

pub open spec fn weak_checksum(data: Seq<u8>) -> u32 {
    (byte_sum(data) % 0x1_0000_0000) as u32
}

pub open spec fn checksum_value(c: Checksum, data: Seq<u8>) -> u32 {
    match c {
        Checksum::Crc32 => crc32_of(data),
        Checksum::Weak => weak_checksum(data),
        Checksum::Unchecked => 0,
    }
}

/// The decompressed bytes `data` agree with the checksum in `h`.
pub open spec fn checksum_ok(h: SectionHeader, data: Seq<u8>) -> bool {
    checksum_of_flags(h.flags) == Checksum::Unchecked
        || checksum_value(checksum_of_flags(h.flags), data) == h.chksum
}

/// The section policy read back from a directory entry.
pub open spec fn settings_of_header(h: SectionHeader) -> SectionSettings {
    SectionSettings {
        ty: h.ty,
        checksum: checksum_of_flags(h.flags),
        compression: compression_of_flags(h.flags),
        threshold: None,
    }
}

pub open spec fn threshold_of(s: SectionSettings, default_threshold: u32) -> u32 {
    match s.threshold {
        Some(t) => t,
        None => default_threshold,
    }
}

/// A resident section of `size` bytes is compressed when saved.
pub open spec fn compress_on_save(s: SectionSettings, size: nat, default_threshold: u32) -> bool {
    s.compression != CompressionMethod::Uncompressed && size >= threshold_of(s, default_threshold)
}

pub open spec fn compressed_form(c: CompressionMethod, data: Seq<u8>) -> Seq<u8> {
    match c {
        CompressionMethod::Zlib => zlib_deflated(data),
        CompressionMethod::Xz => xz_deflated(data),
        CompressionMethod::Uncompressed => data,
    }
}

pub open spec fn with_pointer(h: SectionHeader, p: nat) -> SectionHeader {
    SectionHeader { pointer: p as u64, ..h }
}

/// The directory whose entries `hs` point at payloads `ps` laid out one after
/// another from offset `at`.
pub open spec fn directory_bytes(hs: Seq<SectionHeader>, ps: Seq<Seq<u8>>, at: nat) -> Seq<u8>
    decreases hs.len(),
{
    if hs.len() == 0 || ps.len() == 0 {
        Seq::empty()
    } else {
        section_header_bytes(with_pointer(hs[0], at))
            + directory_bytes(hs.drop_first(), ps.drop_first(), at + ps[0].len())
    }
}

pub open spec fn concat(ps: Seq<Seq<u8>>) -> Seq<u8>
    decreases ps.len(),
{
    if ps.len() == 0 { Seq::empty() } else { ps[0] + concat(ps.drop_first()) }
}

/// The main header checksum of a stream with `n` sections: the weak sum of the
/// header without its signature and checksum fields, and of the directory.
pub open spec fn header_checksum(s: Seq<u8>, n: nat) -> nat {
    (byte_sum(s.subrange(3, 4)) + byte_sum(s.subrange(8, (40 + 22 * n) as int))) % 0x1_0000_0000
}

/// The main header that a save writes: `mh` with the size, the section count
/// and the checksum over the header and directory `dir`.
pub open spec fn saved_main_header(mh: MainHeader, n: nat, dir: Seq<u8>, body_len: nat) -> MainHeader {
    let h0 = MainHeader {
        chksum: 0,
        file_size: (40 + 22 * n + body_len) as u64,
        section_num: n as u32,
        ..mh
    };
    let b0 = main_header_bytes(h0);
    MainHeader {
        chksum: ((byte_sum(b0.subrange(3, 4)) + byte_sum(b0.subrange(8, 40)) + byte_sum(dir))
            % 0x1_0000_0000) as u32,
        ..h0
    }
}

/// The stream that a save writes for main header `mh`, entries `hs` and
/// payloads `ps`.
pub open spec fn image_of(mh: MainHeader, hs: Seq<SectionHeader>, ps: Seq<Seq<u8>>) -> Seq<u8> {
    let n = hs.len();
    let dir = directory_bytes(hs, ps, 40 + 22 * n);
    let body = concat(ps);
    main_header_bytes(saved_main_header(mh, n, dir, body.len())) + dir + body
}

/// The failure that opening `s` with policy `flags` meets first, if any.
pub open spec fn open_failure(s: Seq<u8>, flags: u8) -> Option<Error> {
    let n = le_value(s.subrange(16, 20));
    match header_failure(s, flags) {
        Some(e) => Some(e),
        None => if exists|i: int| 0 <= i < n && #[trigger] payload_end(s, i) > s.len() {
            Some(Error::Format(FormatCheck::Truncated))
        } else {
            None
        },
    }
}

/// The failure that the main header and directory of `s` meet first, if any.
pub open spec fn header_failure(s: Seq<u8>, flags: u8) -> Option<Error> {
    let n = le_value(s.subrange(16, 20));
    if s.len() < 40 {
        Some(Error::Format(FormatCheck::Truncated))
    } else if flags & FLAG_IGNORE_SIGNATURE == 0 && !signature_ok(s.subrange(0, 3)) {
        Some(Error::Format(FormatCheck::Signature))
    } else if flags & FLAG_IGNORE_VERSION == 0 && !version_known(le_value(s.subrange(20, 24)) as u32) {
        Some(Error::Format(FormatCheck::Version))
    } else if 40 + 22 * n > s.len() {
        Some(Error::Format(FormatCheck::Truncated))
    } else if flags & FLAG_IGNORE_CHECKSUM == 0 && header_checksum(s, n) != le_value(s.subrange(4, 8)) {
        Some(Error::Format(FormatCheck::Checksum))
    } else {
        None
    }
}

/// Where the payload of directory entry `i` of `s` ends.
pub open spec fn payload_end(s: Seq<u8>, i: int) -> nat {
    let h = section_header_at(s, 40 + 22 * i);
    h.pointer as nat + h.csize as nat
}

/// The last position of `h` in `s`, or -1.
pub open spec fn index_in(s: Seq<u32>, h: u32) -> int
    decreases s.len(),
{
    if s.len() == 0 {
        -1
    } else if s.last() == h {
        s.len() - 1
    } else {
        index_in(s.drop_last(), h)
    }
}

pub proof fn lemma_index_in(s: Seq<u32>, h: u32)
    ensures
        -1 <= index_in(s, h) < s.len(),
        index_in(s, h) == -1 <==> (forall|j: int| 0 <= j < s.len() ==> s[j] != h),
        index_in(s, h) >= 0 ==> s[index_in(s, h)] == h,
        (forall|a: int, b: int| 0 <= a < b < s.len() ==> s[a] != s[b]) ==>
            (forall|j: int| 0 <= j < s.len() && s[j] == h ==> index_in(s, h) == j),
    decreases s.len(),
{
    if s.len() > 0 {
        lemma_index_in(s.drop_last(), h);
        if s.last() != h {
            assert forall|j: int| 0 <= j < s.len() - 1 implies s.drop_last()[j] == s[j] by {}
        }
    }
}

pub proof fn lemma_flag_bits(a: u8, b: u8)
    requires
        a == 0 || a == 4 || a == 8,
        b == 0 || b == 1 || b == 2,
    ensures
        checksum_of_flags(a | b) == checksum_of_flags(a),
        compression_of_flags(a | b) == compression_of_flags(b),
{
    assert((a | b) & 4 == a & 4 && (a | b) & 8 == a & 8 && (a | b) & 1 == b & 1 && (a | b) & 2 == b & 2)
        by (bit_vector)
        requires
            a == 0 || a == 4 || a == 8,
            b == 0 || b == 1 || b == 2;
    assert(b == 0 ==> (b & 1 == 0 && b & 2 == 0)) by (bit_vector);
    assert(b == 1 ==> (b & 1 != 0 && b & 2 == 0)) by (bit_vector);
    assert(b == 2 ==> b & 2 != 0) by (bit_vector);
    assert(a == 0 ==> (a & 4 == 0 && a & 8 == 0)) by (bit_vector);
    assert(a == 4 ==> a & 4 != 0) by (bit_vector);
    assert(a == 8 ==> (a & 4 == 0 && a & 8 != 0)) by (bit_vector);
}

pub proof fn lemma_concat_push(ps: Seq<Seq<u8>>, x: Seq<u8>)
    ensures
        concat(ps.push(x)) == concat(ps) + x,
    decreases ps.len(),
{
    if ps.len() == 0 {
        assert(ps.push(x).drop_first() =~= Seq::<Seq<u8>>::empty());
        assert(concat(Seq::<Seq<u8>>::empty()) == Seq::<u8>::empty());
        assert(concat(ps) == Seq::<u8>::empty());
        assert(ps.push(x)[0] == x);
        assert(concat(ps.push(x)) =~= x);
    } else {
        lemma_concat_push(ps.drop_first(), x);
        assert(ps.push(x).drop_first() =~= ps.drop_first().push(x));
        assert(concat(ps.push(x)) =~= concat(ps) + x);
    }
}

pub proof fn lemma_concat_split(ps: Seq<Seq<u8>>, i: int)
    requires
        0 <= i <= ps.len(),
    ensures
        concat(ps) == concat(ps.take(i)) + concat(ps.skip(i)),
    decreases i,
{
    if i == 0 {
        assert(ps.take(0) =~= Seq::<Seq<u8>>::empty());
        assert(ps.skip(0) =~= ps);
        assert(concat(ps) =~= Seq::<u8>::empty() + concat(ps));
    } else {
        lemma_concat_split(ps.drop_first(), i - 1);
        assert(ps.drop_first().take(i - 1) =~= ps.take(i).drop_first());
        assert(ps.drop_first().skip(i - 1) =~= ps.skip(i));
        assert(concat(ps) =~= concat(ps.take(i)) + concat(ps.skip(i)));
    }
}

pub proof fn lemma_mod_sum3(x: nat, y: nat, z: nat)
    ensures
        (x % 0x1_0000_0000 + y % 0x1_0000_0000 + z % 0x1_0000_0000) % 0x1_0000_0000
            == (x + y + z) % 0x1_0000_0000,
{
    assert((x % 0x1_0000_0000 + y % 0x1_0000_0000 + z % 0x1_0000_0000) % 0x1_0000_0000
        == (x + y + z) % 0x1_0000_0000) by (nonlinear_arith);
}

/// Appends the bytes of `s`.
fn append_bytes(out: &mut Vec<u8>, s: &[u8])
    ensures
        final(out)@ == old(out)@ + s@,
{
    let mut i: usize = 0;
    while i < s.len()
        invariant
            i <= s@.len(),
            out@ == old(out)@ + s@.subrange(0, i as int),
        decreases s@.len() - i,
    {
        out.push(s[i]);
        i = i + 1;
        assert(out@ =~= old(out)@ + s@.subrange(0, i as int));
    }
    assert(s@.subrange(0, i as int) =~= s@);
}

struct Entry {
    handle: u32,
    header: SectionHeader,
    settings: SectionSettings,
    stored: Vec<u8>,
    data: SectionData,
    loaded: bool,
}

/// The container: a main header, a directory of sections, and the stream
/// they are saved to.
pub struct Container {
    stream: Vec<u8>,
    main_header: MainHeader,
    entries: Vec<Entry>,
    next_handle: u32,
    compression_threshold: u32,
    memory_threshold: u32,
    revert_on_save_failure: bool,
    sections: Vec<SectionInfo>,
}

spec fn entry_bytes(e: Entry) -> Seq<u8> {
    if e.loaded { e.data.bytes() } else { decoded(e.header.flags, e.stored@) }
}

spec fn entry_payload(e: Entry, dt: u32) -> Seq<u8> {
    if !e.loaded {
        e.stored@
    } else if compress_on_save(e.settings, e.data.bytes().len(), dt) {
        compressed_form(e.settings.compression, e.data.bytes())
    } else {
        e.data.bytes()
    }
}

spec fn entry_header(e: Entry, dt: u32) -> SectionHeader {
    if !e.loaded {
        with_pointer(e.header, 0)
    } else {
        let c = compress_on_save(e.settings, e.data.bytes().len(), dt);
        SectionHeader {
            pointer: 0,
            csize: entry_payload(e, dt).len() as u32,
            size: e.data.bytes().len() as u32,
            chksum: checksum_value(e.settings.checksum, e.data.bytes()),
            ty: e.settings.ty,
            flags: checksum_bits(e.settings.checksum) | (if c {
                compression_bits(e.settings.compression)
            } else {
                0u8
            }),
        }
    }
}

spec fn entry_fits(e: Entry, dt: u32) -> bool {
    e.loaded ==> entry_payload(e, dt).len() <= u32::MAX && e.data.bytes().len() <= u32::MAX
}

impl Container {
    pub closed spec fn wf(&self) -> bool {
        &&& self.entries@.len() <= u32::MAX
        &&& forall|i: int, j: int| 0 <= i < j < self.entries@.len()
            ==> self.entries@[i].handle != self.entries@[j].handle
        &&& forall|i: int| 0 <= i < self.entries@.len() ==> self.entries@[i].handle < self.next_handle
        &&& self.sections@.len() == self.entries@.len()
        &&& forall|i: int| 0 <= i < self.entries@.len() ==> #[trigger] self.sections@[i] == (SectionInfo {
            header: self.entries@[i].header,
            index: i as u32,
            handle: self.entries@[i].handle,
        })
        &&& self.main_header.section_num == self.entries@.len()
        &&& forall|i: int| 0 <= i < self.entries@.len() && !self.entries@[i].loaded
            ==> #[trigger] self.entries@[i].stored@.len() == self.entries@[i].header.csize
    }

    /// Room is left for another section and another handle.
    pub open spec fn can_create(&self) -> bool {
        self.num() + 1 < u32::MAX && self.handle_bound() < u32::MAX
    }

    /// The bytes of the stream as last read or saved.
    pub closed spec fn stream(&self) -> Seq<u8> {
        self.stream@
    }

    pub closed spec fn header(&self) -> MainHeader {
        self.main_header
    }

    pub closed spec fn default_threshold(&self) -> u32 {
        self.compression_threshold
    }

    /// The number of live sections.
    pub closed spec fn num(&self) -> nat {
        self.entries@.len()
    }

    pub open spec fn handle_at(&self, i: int) -> u32 {
        self.handles()[i]
    }

    /// The directory entry of section `i` as last read or saved.
    pub closed spec fn header_at(&self, i: int) -> SectionHeader {
        self.entries@[i].header
    }

    pub closed spec fn settings_at(&self, i: int) -> SectionSettings {
        self.entries@[i].settings
    }

    /// The payload of section `i` as it stands on the stream.
    pub closed spec fn stored_at(&self, i: int) -> Seq<u8> {
        self.entries@[i].stored@
    }

    /// Section `i` has been decompressed into memory.
    pub closed spec fn loaded_at(&self, i: int) -> bool {
        self.entries@[i].loaded
    }

    /// The decompressed bytes of section `i`.
    pub closed spec fn bytes_at(&self, i: int) -> Seq<u8> {
        entry_bytes(self.entries@[i])
    }

    /// The cursor of section `i`; 0 until it is loaded.
    pub closed spec fn pos_at(&self, i: int) -> nat {
        if self.entries@[i].loaded { self.entries@[i].data.pos() } else { 0 }
    }

    /// The payload that a save writes for section `i`.
    pub closed spec fn payload_at(&self, i: int) -> Seq<u8> {
        entry_payload(self.entries@[i], self.compression_threshold)
    }

    /// The directory entry that a save writes for section `i`, before its
    /// pointer is set.
    pub closed spec fn saved_header_at(&self, i: int) -> SectionHeader {
        entry_header(self.entries@[i], self.compression_threshold)
    }

    /// The handles of the live sections, in directory order.
    pub closed spec fn handles(&self) -> Seq<u32> {
        Seq::new(self.entries@.len(), |i: int| self.entries@[i].handle)
    }

    /// The directory position of the section with handle `h`, or -1.
    pub open spec fn index_of(&self, h: u32) -> int {
        index_in(self.handles(), h)
    }

    /// Section `i` can be made resident without failure: it already is, or
    /// its stored bytes are what the codec its flags name writes, and they
    /// decode to bytes that match its checksum.
    pub open spec fn loadable_at(&self, i: int) -> bool {
        self.loaded_at(i) || (stored_decodes(self.header_at(i).flags, self.stored_at(i))
            && checksum_ok(self.header_at(i), decoded(self.header_at(i).flags, self.stored_at(i))))
    }

    pub closed spec fn memory_threshold_spec(&self) -> u32 {
        self.memory_threshold
    }

    pub closed spec fn revert_spec(&self) -> bool {
        self.revert_on_save_failure
    }

    /// No handle at or above this bound has been given out.
    pub closed spec fn handle_bound(&self) -> u32 {
        self.next_handle
    }

    /// Each section's handle is its position, as after `create` or `open`
    /// when no section has been removed since.
    pub open spec fn handles_are_positions(&self) -> bool {
        &&& self.handle_bound() == self.num()
        &&& forall|i: int| 0 <= i < self.num() ==> #[trigger] self.handle_at(i) == i
    }

    /// The payload that a save writes for section `i`, spelled out.
    pub open spec fn payload_spec(&self, i: int) -> Seq<u8> {
        if !self.loaded_at(i) {
            self.stored_at(i)
        } else if compress_on_save(self.settings_at(i), self.bytes_at(i).len(), self.default_threshold()) {
            compressed_form(self.settings_at(i).compression, self.bytes_at(i))
        } else {
            self.bytes_at(i)
        }
    }

    /// The directory entry that a save writes for section `i`, spelled out.
    pub open spec fn saved_header_spec(&self, i: int) -> SectionHeader {
        if !self.loaded_at(i) {
            with_pointer(self.header_at(i), 0)
        } else {
            let c = compress_on_save(self.settings_at(i), self.bytes_at(i).len(), self.default_threshold());
            SectionHeader {
                pointer: 0,
                csize: self.payload_spec(i).len() as u32,
                size: self.bytes_at(i).len() as u32,
                chksum: checksum_value(self.settings_at(i).checksum, self.bytes_at(i)),
                ty: self.settings_at(i).ty,
                flags: checksum_bits(self.settings_at(i).checksum) | (if c {
                    compression_bits(self.settings_at(i).compression)
                } else {
                    0u8
                }),
            }
        }
    }

    /// What a save writes for section `i` is `payload_spec(i)` and
    /// `saved_header_spec(i)`.
    pub proof fn lemma_saved_forms(&self, i: int)
        requires
            0 <= i < self.num(),
        ensures
            self.payload_at(i) == self.payload_spec(i),
            self.saved_header_at(i) == self.saved_header_spec(i),
    {
    }

    /// `self` and `o` hold the same sections, except for the content, cursor
    /// and residency of section `i`.
    pub open spec fn same_but(&self, o: &Container, i: int) -> bool {
        &&& self.handle_bound() == o.handle_bound()
        &&& self.stream() == o.stream()
        &&& self.header() == o.header()
        &&& self.default_threshold() == o.default_threshold()
        &&& self.num() == o.num()
        &&& forall|j: int| 0 <= j < self.num() ==> {
            &&& self.handle_at(j) == o.handle_at(j)
            &&& self.header_at(j) == o.header_at(j)
            &&& self.settings_at(j) == o.settings_at(j)
            &&& self.stored_at(j) == o.stored_at(j)
        }
        &&& forall|j: int| 0 <= j < self.num() && j != i ==> {
            &&& self.loaded_at(j) == o.loaded_at(j)
            &&& self.bytes_at(j) == o.bytes_at(j)
            &&& self.pos_at(j) == o.pos_at(j)
        }
    }

    /// The payloads that a save writes, in directory order.
    pub open spec fn payloads(&self) -> Seq<Seq<u8>> {
        Seq::new(self.num(), |i: int| self.payload_at(i))
    }

    pub open spec fn saved_headers(&self) -> Seq<SectionHeader> {
        Seq::new(self.num(), |i: int| self.saved_header_at(i))
    }

    /// The stream that a save writes.
    pub open spec fn image(&self) -> Seq<u8> {
        image_of(self.header(), self.saved_headers(), self.payloads())
    }

    /// A new, empty container. Nothing reaches the stream before `save`.
    pub fn create(stream: Vec<u8>, options: &CreateOptions) -> (r: Container)
        ensures
            r.wf(),
            r.num() == 0,
            r.stream() == stream@,
            signature_ok(r.header().signature@),
            r.header().ty == options.main_header.ty,
            r.header().version == options.main_header.version,
            r.header().type_ext == options.main_header.type_ext,
            r.header().section_num == 0,
            r.default_threshold() == options.compression_threshold,
            r.handles_are_positions(),
            r.memory_threshold_spec() == options.memory_threshold,
            r.revert_spec() == (options.flags & FLAG_REVERT_ON_SAVE_FAIL != 0),
    {
        let mut mh = MainHeader::new();
        mh.ty = options.main_header.ty;
        mh.version = options.main_header.version;
        mh.type_ext = options.main_header.type_ext;
        Container {
            stream,
            main_header: mh,
            entries: Vec::new(),
            next_handle: 0,
            compression_threshold: options.compression_threshold,
            memory_threshold: options.memory_threshold,
            revert_on_save_failure: options.flags & FLAG_REVERT_ON_SAVE_FAIL != 0,
            sections: Vec::new(),
        }
    }

    /// Reads the main header and the directory of `stream`. The signature, the
    /// version and the header checksum are each checked unless `options`
    /// masks them; the first failed check is named in the error.
    pub fn open(stream: Vec<u8>, options: &OpenOptions) -> (r: Result<Container, Error>)
        ensures
            match open_failure(stream@, options.flags) {
                Some(e) => r == Err::<Container, Error>(e),
                None => r is Ok,
            },
            r matches Ok(c) ==> c.opened_from(stream@) && c.default_threshold() == options.compression_threshold,
    {
        let len = stream.len();
        if len < SIZE_MAIN_HEADER {
            return Err(Error::Format(FormatCheck::Truncated));
        }
        let mh = MainHeader::read_from(stream.as_slice(), 0);
        if options.flags & FLAG_IGNORE_SIGNATURE == 0 {
            if !(mh.signature[0] == 0x42 && mh.signature[1] == 0x50 && mh.signature[2] == 0x58) {
                assert(!signature_ok(stream@.subrange(0, 3))) by {
                    if signature_ok(stream@.subrange(0, 3)) {
                        assert(mh.signature@[0] == stream@.subrange(0, 3)[0]);
                        assert(mh.signature@[1] == stream@.subrange(0, 3)[1]);
                        assert(mh.signature@[2] == stream@.subrange(0, 3)[2]);
                    }
                }
                return Err(Error::Format(FormatCheck::Signature));
            }
            assert(mh.signature@ =~= seq![0x42u8, 0x50u8, 0x58u8]);
        }
        if options.flags & FLAG_IGNORE_VERSION == 0 && !(mh.version == 1 || mh.version == 2) {
            return Err(Error::Format(FormatCheck::Version));
        }
        let n = mh.section_num;
        let dir_end: u64 = 40 + 22 * (n as u64);
        if dir_end > len as u64 {
            return Err(Error::Format(FormatCheck::Truncated));
        }
        let dir_end = dir_end as usize;
        if options.flags & FLAG_IGNORE_CHECKSUM == 0 {
            let a = weak_sum_range(stream.as_slice(), 3, 4) as u64;
            let b = weak_sum_range(stream.as_slice(), 8, dir_end) as u64;
            let sum = ((a + b) % 0x1_0000_0000) as u32;
            proof {
                let x = byte_sum(stream@.subrange(3, 4));
                let y = byte_sum(stream@.subrange(8, dir_end as int));
                assert((x % 0x1_0000_0000 + y % 0x1_0000_0000) % 0x1_0000_0000
                    == (x + y) % 0x1_0000_0000) by (nonlinear_arith);
            }
            if sum != mh.chksum {
                return Err(Error::Format(FormatCheck::Checksum));
            }
        }
        assert(header_failure(stream@, options.flags) is None);
        let mut entries: Vec<Entry> = Vec::new();
        let mut sections: Vec<SectionInfo> = Vec::new();
        let mut i: u32 = 0;
        while i < n
            invariant
                header_failure(stream@, options.flags) is None,
                0 <= i <= n == mh.section_num,
                n as nat == le_value(stream@.subrange(16, 20)),
                dir_end == 40 + 22 * n,
                dir_end <= len == stream@.len(),
                entries@.len() == i,
                sections@.len() == i,
                forall|k: int| 0 <= k < i ==> payload_end(stream@, k) <= stream@.len(),
                forall|k: int| 0 <= k < i ==> {
                    &&& (#[trigger] entries@[k]).handle == k
                    &&& entries@[k].header == section_header_at(stream@, 40 + 22 * k)
                    &&& entries@[k].settings == settings_of_header(entries@[k].header)
                    &&& entries@[k].stored@ == stream@.subrange(
                        entries@[k].header.pointer as int,
                        entries@[k].header.pointer + entries@[k].header.csize,
                    )
                    &&& !entries@[k].loaded
                    &&& entries@[k].stored@.len() == entries@[k].header.csize
                    &&& entries@[k].data.pos() == 0
                    &&& sections@[k] == (SectionInfo { header: entries@[k].header, index: k as u32, handle: k as u32 })
                },
            decreases n - i,
        {
            let off = 40 + 22 * (i as usize);
            let h = SectionHeader::read_from(stream.as_slice(), off);
            if h.pointer > len as u64 || (h.csize as u64) > (len as u64) - h.pointer {
                assert(payload_end(stream@, i as int) > stream@.len());
                return Err(Error::Format(FormatCheck::Truncated));
            }
            let start = h.pointer as usize;
            let end = start + h.csize as usize;
            let stored = copy_range(stream.as_slice(), start, end);
            let settings = SectionSettings {
                ty: h.ty,
                checksum: checksum_from_flags(h.flags),
                compression: compression_from_flags(h.flags),
                threshold: None,
            };
            entries.push(Entry {
                handle: i,
                header: h,
                settings,
                stored,
                data: SectionData::new(),
                loaded: false,
            });
            sections.push(SectionInfo { header: h, index: i, handle: i });
            i = i + 1;
        }
        assert(!(exists|k: int| 0 <= k < n && #[trigger] payload_end(stream@, k) > stream@.len()));
        let c = Container {
            stream,
            main_header: mh,
            entries,
            next_handle: n,
            compression_threshold: options.compression_threshold,
            memory_threshold: options.memory_threshold,
            revert_on_save_failure: options.flags & FLAG_REVERT_ON_SAVE_FAIL != 0,
            sections,
        };
        assert(c.wf());
        assert forall|k: int| 0 <= k < c.num() implies c.handle_at(k) == k by {
            assert(c.entries@[k].handle == k);
        }
        Ok(c)
    }

    /// The size above which a host would rather stage a section outside
    /// memory.
    pub fn memory_threshold(&self) -> (r: u32)
        ensures
            r == self.memory_threshold_spec(),
    {
        self.memory_threshold
    }

    /// Whether a failed save must leave the stream as it was; every save of
    /// this library stages the new image first, so it always does.
    pub fn revert_on_save_failure(&self) -> (r: bool)
        ensures
            r == self.revert_spec(),
    {
        self.revert_on_save_failure
    }

    /// The stream as last read or saved.
    pub fn stream_bytes(&self) -> (r: &Vec<u8>)
        ensures
            r@ == self.stream(),
    {
        &self.stream
    }

    /// Gives the stream back.
    pub fn into_stream(self) -> (r: Vec<u8>)
        ensures
            r@ == self.stream(),
    {
        self.stream
    }

    /// The main header as last read, created or saved.
    pub fn main_header(&self) -> (r: &MainHeader)
        ensures
            *r == self.header(),
    {
        &self.main_header
    }

    /// A snapshot of the directory, in order.
    pub fn sections(&self) -> (r: &Vec<SectionInfo>)
        requires
            self.wf(),
        ensures
            r@.len() == self.num(),
            forall|i: int| 0 <= i < self.num() ==> #[trigger] r@[i] == (SectionInfo {
                header: self.header_at(i),
                index: i as u32,
                handle: self.handle_at(i),
            }),
    {
        &self.sections
    }

    /// Rebuilds the directory snapshot and the section count.
    fn refresh(&mut self)
        requires
            old(self).entries@.len() <= u32::MAX,
            forall|i: int, j: int| 0 <= i < j < old(self).entries@.len()
                ==> old(self).entries@[i].handle != old(self).entries@[j].handle,
            forall|i: int| 0 <= i < old(self).entries@.len() ==> old(self).entries@[i].handle < old(self).next_handle,
            forall|i: int| 0 <= i < old(self).entries@.len() && !old(self).entries@[i].loaded
                ==> #[trigger] old(self).entries@[i].stored@.len() == old(self).entries@[i].header.csize,
        ensures
            final(self).wf(),
            final(self).entries == old(self).entries,
            final(self).stream == old(self).stream,
            final(self).next_handle == old(self).next_handle,
            final(self).compression_threshold == old(self).compression_threshold,
            final(self).main_header == (MainHeader { section_num: old(self).entries@.len() as u32, ..old(self).main_header }),
    {
        let mut sections: Vec<SectionInfo> = Vec::new();
        let mut i: usize = 0;
        while i < self.entries.len()
            invariant
                i <= self.entries@.len() <= u32::MAX,
                sections@.len() == i,
                forall|k: int| 0 <= k < i ==> #[trigger] sections@[k] == (SectionInfo {
                    header: self.entries@[k].header,
                    index: k as u32,
                    handle: self.entries@[k].handle,
                }),
            decreases self.entries@.len() - i,
        {
            sections.push(SectionInfo {
                header: self.entries[i].header,
                index: i as u32,
                handle: self.entries[i].handle,
            });
            i = i + 1;
        }
        self.sections = sections;
        self.main_header.section_num = self.entries.len() as u32;
    }

    fn find(&self, h: Handle) -> (r: Option<usize>)
        requires
            self.wf(),
        ensures
            match r {
                Some(i) => i < self.num() && i == self.index_of(h.raw) && self.handle_at(i as int) == h.raw,
                None => self.index_of(h.raw) == -1,
            },
    {
        let mut i: usize = 0;
        while i < self.entries.len()
            invariant
                self.wf(),
                i <= self.entries@.len(),
                forall|k: int| 0 <= k < i ==> self.entries@[k].handle != h.raw,
            decreases self.entries@.len() - i,
        {
            if self.entries[i].handle == h.raw {
                assert(self.handle_at(i as int) == h.raw);
                proof { self.lemma_handles(h.raw); }
                return Some(i);
            }
            i = i + 1;
        }
        proof { self.lemma_handles(h.raw); }
        None
    }

    pub proof fn lemma_handles(&self, h: u32)
        requires
            self.wf(),
        ensures
            -1 <= self.index_of(h) < self.num(),
            self.index_of(h) == -1 <==> (forall|j: int| 0 <= j < self.num() ==> self.handle_at(j) != h),
            self.index_of(h) >= 0 ==> self.handle_at(self.index_of(h)) == h,
            forall|j: int| 0 <= j < self.num() && self.handle_at(j) == h ==> self.index_of(h) == j,
            forall|j: int| 0 <= j < self.num() ==> #[trigger] self.handle_at(j) < self.handle_bound(),
    {
        let s = self.handles();
        lemma_index_in(s, h);
        assert(s.len() == self.num());
        assert forall|a: int, b: int| 0 <= a < b < s.len() implies s[a] != s[b] by {}
        if index_in(s, h) == -1 {
            assert forall|j: int| 0 <= j < self.num() implies self.handle_at(j) != h by {
                assert(s[j] != h);
            }
        } else {
            assert(self.handle_at(index_in(s, h)) == h);
        }
    }

    /// Appends a new, empty, resident section; it occupies no stream bytes
    /// until the next save.
    pub fn section_create(&mut self, options: &SectionOptions) -> (r: Result<Handle, Error>)
        requires
            old(self).wf(),
        ensures
            final(self).wf(),
            old(self).can_create() ==> r is Ok,
            r is Err ==> r == Err::<Handle, Error>(Error::Io(IoErrorKind::Overflow)) && *final(self) == *old(self),
            r matches Ok(h) ==> {
                &&& final(self).num() == old(self).num() + 1
                &&& h.raw == old(self).handle_bound()
                &&& final(self).handle_bound() == h.raw + 1
                &&& old(self).index_of(h.raw) == -1
                &&& final(self).index_of(h.raw) == old(self).num()
                &&& (old(self).handles_are_positions() ==> final(self).handles_are_positions())
                &&& final(self).header() == (MainHeader { section_num: (old(self).num() + 1) as u32, ..old(self).header() })
                &&& final(self).header_at(old(self).num() as int) == (SectionHeader {
                    pointer: 0, csize: 0, size: 0, chksum: 0,
                    ty: options.ty,
                    flags: checksum_bits(checksum_of_flags(options.flags)) | compression_bits(compression_of_flags(options.flags)),
                })
                &&& final(self).settings_at(old(self).num() as int) == settings_of_options(*options)
                &&& final(self).loaded_at(old(self).num() as int)
                &&& final(self).bytes_at(old(self).num() as int) == Seq::<u8>::empty()
                &&& final(self).pos_at(old(self).num() as int) == 0
                &&& final(self).stream() == old(self).stream()
                &&& final(self).default_threshold() == old(self).default_threshold()
                &&& forall|j: int| 0 <= j < old(self).num() ==> {
                    &&& final(self).handle_at(j) == old(self).handle_at(j)
                    &&& final(self).header_at(j) == old(self).header_at(j)
                    &&& final(self).settings_at(j) == old(self).settings_at(j)
                    &&& final(self).stored_at(j) == old(self).stored_at(j)
                    &&& final(self).loaded_at(j) == old(self).loaded_at(j)
                    &&& final(self).bytes_at(j) == old(self).bytes_at(j)
                    &&& final(self).pos_at(j) == old(self).pos_at(j)
                }
            },
    {
        if self.entries.len() >= (u32::MAX - 1) as usize || self.next_handle == u32::MAX {
            return Err(Error::Io(IoErrorKind::Overflow));
        }
        let settings = options.to_options();
        let handle = self.next_handle;
        let flags = checksum_flag(settings.checksum) | compression_flag(settings.compression);
        let header = SectionHeader { pointer: 0, csize: 0, size: 0, chksum: 0, ty: settings.ty, flags };
        let ghost before = self.entries@;
        self.entries.push(Entry {
            handle,
            header,
            settings,
            stored: Vec::new(),
            data: SectionData::new(),
            loaded: true,
        });
        self.next_handle = handle + 1;
        self.refresh();
        let ghost n = before.len() as int;
        proof {
            self.lemma_handles(handle);
            old(self).lemma_handles(handle);
            assert(self.handle_at(n) == handle);
            if old(self).handles_are_positions() {
                assert forall|i: int| 0 <= i < self.num() implies #[trigger] self.handle_at(i) == i by {
                    if i < n {
                        assert(self.entries@[i] == before[i]);
                        assert(old(self).handle_at(i) == i);
                    }
                }
            }
        }
        Ok(Handle { raw: handle })
    }

    /// Deletes a section from the directory; its handle is never valid again.
    /// Its stream bytes are reclaimed by the next save.
    pub fn section_remove(&mut self, h: Handle) -> (r: Result<(), Error>)
        requires
            old(self).wf(),
        ensures
            final(self).wf(),
            old(self).index_of(h.raw) == -1 <==> r == Err::<(), Error>(Error::NotFound),
            old(self).index_of(h.raw) >= 0 ==> r is Ok,
            r is Err ==> *final(self) == *old(self),
            r is Ok ==> {
                let i = old(self).index_of(h.raw);
                &&& final(self).handle_bound() == old(self).handle_bound()
                &&& final(self).num() == old(self).num() - 1
                &&& final(self).index_of(h.raw) == -1
                &&& final(self).stream() == old(self).stream()
                &&& forall|j: int| 0 <= j < final(self).num() ==> {
                    let k = if j < i { j } else { j + 1 };
                    &&& #[trigger] final(self).handle_at(j) == old(self).handle_at(k)
                    &&& final(self).header_at(j) == old(self).header_at(k)
                    &&& final(self).settings_at(j) == old(self).settings_at(k)
                    &&& final(self).stored_at(j) == old(self).stored_at(k)
                    &&& final(self).loaded_at(j) == old(self).loaded_at(k)
                    &&& final(self).bytes_at(j) == old(self).bytes_at(k)
                    &&& final(self).pos_at(j) == old(self).pos_at(k)
                }
            },
    {
        match self.find(h) {
            None => Err(Error::NotFound),
            Some(i) => {
                let ghost before = self.entries@;
                let _removed = self.entries.remove(i);
                assert forall|a: int, b: int| 0 <= a < b < self.entries@.len() implies
                    self.entries@[a].handle != self.entries@[b].handle by {
                    let ka = if a < i { a } else { a + 1 };
                    let kb = if b < i { b } else { b + 1 };
                    assert(self.entries@[a] == before[ka]);
                    assert(self.entries@[b] == before[kb]);
                }
                self.refresh();
                proof {
                    old(self).lemma_handles(h.raw);
                    self.lemma_handles(h.raw);
                    assert forall|j: int| 0 <= j < self.num() implies self.handle_at(j) != h.raw by {
                        let k = if j < i { j } else { j + 1 };
                        assert(self.entries@[j] == before[k]);
                        assert(old(self).handle_at(k) != old(self).handle_at(i as int));
                    }
                }
                Ok(())
            },
        }
    }

    /// Makes section `i` resident: decompresses and checks its stored bytes.
    fn make_resident(&mut self, i: usize) -> (r: Result<(), Error>)
        requires
            old(self).wf(),
            i < old(self).num(),
        ensures
            final(self).wf(),
            final(self).same_but(old(self), i as int),
            final(self).handles_same(old(self)),
            old(self).loadable_at(i as int) ==> r is Ok,
            !old(self).loaded_at(i as int) && !is_compressed(old(self).header_at(i as int).flags)
                && !checksum_ok(old(self).header_at(i as int), old(self).stored_at(i as int))
                ==> r == Err::<(), Error>(Error::Format(FormatCheck::SectionChecksum)),
            r is Ok ==> final(self).loaded_at(i as int)
                && final(self).bytes_at(i as int) == old(self).bytes_at(i as int)
                && final(self).pos_at(i as int) == old(self).pos_at(i as int),
            r is Err ==> *final(self) == *old(self),
    {
        if self.entries[i].loaded {
            return Ok(());
        }
        let flags = self.entries[i].header.flags;
        let content: Vec<u8> = match compression_from_flags(flags) {
            CompressionMethod::Xz => match xz_decompress(self.entries[i].stored.as_slice()) {
                Ok(v) => v,
                Err(_) => return Err(Error::Io(IoErrorKind::Codec)),
            },
            CompressionMethod::Zlib => match zlib_decompress(self.entries[i].stored.as_slice()) {
                Ok(v) => v,
                Err(_) => return Err(Error::Io(IoErrorKind::Codec)),
            },
            CompressionMethod::Uncompressed => {
                let s = self.entries[i].stored.as_slice();
                copy_range(s, 0, s.len())
            },
        };
        assert(content@ == decoded(flags, self.entries@[i as int].stored@)) by {
            assert(self.entries@[i as int].stored@.subrange(0, self.entries@[i as int].stored@.len() as int)
                =~= self.entries@[i as int].stored@);
        }
        let kind = checksum_from_flags(flags);
        let sum: u32 = match kind {
            Checksum::Unchecked => 0,
            Checksum::Weak => weak_sum(content.as_slice()),
            Checksum::Crc32 => crc32(content.as_slice()),
        };
        if kind != Checksum::Unchecked && sum != self.entries[i].header.chksum {
            return Err(Error::Format(FormatCheck::SectionChecksum));
        }
        let ghost before = self.entries@;
        let mut e = self.entries.remove(i);
        e.data = SectionData::from_bytes(content);
        e.loaded = true;
        self.entries.insert(i, e);
        assert(self.entries@ =~= before.update(i as int, e));
        assert(self.handles() =~= old(self).handles());
        Ok(())
    }

    proof fn lemma_replace(a: Container, b: Container, i: int)
        requires
            a.wf(),
            0 <= i < a.entries@.len(),
            b.entries@.len() == a.entries@.len(),
            forall|j: int| 0 <= j < a.entries@.len() && j != i ==> b.entries@[j] == a.entries@[j],
            b.entries@[i].handle == a.entries@[i].handle,
            b.entries@[i].header == a.entries@[i].header,
            b.entries@[i].settings == a.entries@[i].settings,
            b.entries@[i].stored@ == a.entries@[i].stored@,
            b.entries@[i].loaded,
            b.stream == a.stream,
            b.main_header == a.main_header,
            b.sections == a.sections,
            b.next_handle == a.next_handle,
            b.compression_threshold == a.compression_threshold,
        ensures
            b.wf(),
            b.same_but(&a, i),
            b.handles_same(&a),
            b.loaded_at(i),
    {
        assert(b.handles() =~= a.handles());
    }

    /// Finds section `h` and makes it resident.
    fn resident(&mut self, h: Handle) -> (r: Result<usize, Error>)
        requires
            old(self).wf(),
        ensures
            final(self).wf(),
            final(self).handles_same(old(self)),
            old(self).index_of(h.raw) == -1 ==> r == Err::<usize, Error>(Error::NotFound),
            r is Err ==> *final(self) == *old(self),
            r matches Ok(i) ==> i < final(self).num() && i == old(self).index_of(h.raw),
            old(self).index_of(h.raw) >= 0 ==> {
                let i = old(self).index_of(h.raw);
                &&& final(self).same_but(old(self), i)
                &&& old(self).loadable_at(i) ==> r is Ok
                &&& !old(self).loaded_at(i) && !is_compressed(old(self).header_at(i).flags)
                    && !checksum_ok(old(self).header_at(i), old(self).stored_at(i))
                    ==> r == Err::<usize, Error>(Error::Format(FormatCheck::SectionChecksum))
                &&& r is Ok ==> r == Ok::<usize, Error>(i as usize) && final(self).loaded_at(i)
                    && final(self).bytes_at(i) == old(self).bytes_at(i)
                    && final(self).pos_at(i) == old(self).pos_at(i)
            },
    {
        match self.find(h) {
            None => Err(Error::NotFound),
            Some(i) => {
                match self.make_resident(i) {
                    Ok(()) => Ok(i),
                    Err(e) => Err(e),
                }
            },
        }
    }

    /// Loads section `h`: decompresses its stored bytes and checks them
    /// against its checksum. A section already in memory stays as it is.
    pub fn section_load(&mut self, h: Handle) -> (r: Result<(), Error>)
        requires
            old(self).wf(),
        ensures
            final(self).wf(),
            final(self).handles_same(old(self)),
            old(self).index_of(h.raw) == -1 ==> r == Err::<(), Error>(Error::NotFound),
            r is Err ==> *final(self) == *old(self),
            old(self).index_of(h.raw) >= 0 ==> {
                let i = old(self).index_of(h.raw);
                &&& final(self).same_but(old(self), i)
                &&& old(self).loadable_at(i) ==> r is Ok
                &&& !old(self).loaded_at(i) && !is_compressed(old(self).header_at(i).flags)
                    && !checksum_ok(old(self).header_at(i), old(self).stored_at(i))
                    ==> r == Err::<(), Error>(Error::Format(FormatCheck::SectionChecksum))
                &&& r is Ok ==> final(self).loaded_at(i)
                    && final(self).bytes_at(i) == old(self).bytes_at(i)
                    && final(self).pos_at(i) == old(self).pos_at(i)
            },
    {
        match self.resident(h) {
            Ok(_) => Ok(()),
            Err(e) => Err(e),
        }
    }

    /// The uncompressed size of section `h`, which is loaded first.
    pub fn section_size(&mut self, h: Handle) -> (r: Result<usize, Error>)
        requires
            old(self).wf(),
        ensures
            final(self).wf(),
            final(self).handles_same(old(self)),
            old(self).index_of(h.raw) == -1 ==> r == Err::<usize, Error>(Error::NotFound),
            r is Err ==> *final(self) == *old(self),
            old(self).index_of(h.raw) >= 0 ==> {
                let i = old(self).index_of(h.raw);
                &&& final(self).same_but(old(self), i)
                &&& old(self).loadable_at(i) ==> r is Ok
                &&& r matches Ok(n) ==> n == old(self).bytes_at(i).len()
                    && final(self).loaded_at(i)
                    && final(self).bytes_at(i) == old(self).bytes_at(i)
                    && final(self).pos_at(i) == old(self).pos_at(i)
            },
    {
        match self.resident(h) {
            Err(e) => Err(e),
            Ok(i) => Ok(self.entries[i].data.size()),
        }
    }

    /// Moves the cursor of section `h`, as `SectionData::seek` does.
    pub fn section_seek(&mut self, h: Handle, from: CSeekFrom, pos: i64) -> (r: Result<u64, Error>)
        requires
            old(self).wf(),
        ensures
            final(self).wf(),
            final(self).handles_same(old(self)),
            old(self).index_of(h.raw) == -1 ==> r == Err::<u64, Error>(Error::NotFound)
                && *final(self) == *old(self),
            old(self).index_of(h.raw) >= 0 ==> {
                let i = old(self).index_of(h.raw);
                let b = old(self).bytes_at(i);
                let t = seek_target(from, pos as int, old(self).pos_at(i), b.len());
                &&& final(self).same_but(old(self), i)
                &&& final(self).bytes_at(i) == b
                &&& old(self).loadable_at(i) && 0 <= t <= usize::MAX ==> r == Ok::<u64, Error>(t as u64)
                &&& old(self).loadable_at(i) && t < 0 ==> r == Err::<u64, Error>(Error::Io(IoErrorKind::InvalidSeek))
                &&& r is Ok ==> r == Ok::<u64, Error>(t as u64) && 0 <= t <= usize::MAX && final(self).pos_at(i) == t
                    && final(self).loaded_at(i)
                &&& r is Err ==> final(self).pos_at(i) == old(self).pos_at(i)
            },
    {
        let i = match self.resident(h) {
            Err(e) => return Err(e),
            Ok(i) => i,
        };
        let ghost c1 = *self;
        let mut e = self.entries.remove(i);
        let r = e.data.seek(from, pos);
        self.entries.insert(i, e);
        proof {
            assert(self.entries@ =~= c1.entries@.update(i as int, e));
            Container::lemma_replace(c1, *self, i as int);
        }
        r
    }

    /// Reads up to `n` bytes at the cursor of section `h`.
    pub fn section_read(&mut self, h: Handle, n: usize) -> (r: Result<Vec<u8>, Error>)
        requires
            old(self).wf(),
        ensures
            final(self).wf(),
            final(self).handles_same(old(self)),
            old(self).index_of(h.raw) == -1 ==> r == Err::<Vec<u8>, Error>(Error::NotFound)
                && *final(self) == *old(self),
            old(self).index_of(h.raw) >= 0 ==> {
                let i = old(self).index_of(h.raw);
                let b = old(self).bytes_at(i);
                &&& final(self).same_but(old(self), i)
                &&& final(self).bytes_at(i) == b
                &&& old(self).loadable_at(i) ==> r is Ok
                &&& r matches Ok(v) ==> v@ == read_at(b, old(self).pos_at(i), n as nat)
                    && final(self).pos_at(i) == old(self).pos_at(i) + v@.len()
                    && final(self).loaded_at(i)
            },
    {
        let i = match self.resident(h) {
            Err(e) => return Err(e),
            Ok(i) => i,
        };
        let ghost c1 = *self;
        let mut e = self.entries.remove(i);
        let r = e.data.read(n);
        self.entries.insert(i, e);
        proof {
            assert(self.entries@ =~= c1.entries@.update(i as int, e));
            Container::lemma_replace(c1, *self, i as int);
        }
        Ok(r)
    }

    /// Writes `buf` at the cursor of section `h`, growing it as needed.
    pub fn section_write(&mut self, h: Handle, buf: &[u8]) -> (r: Result<usize, Error>)
        requires
            old(self).wf(),
        ensures
            final(self).wf(),
            final(self).handles_same(old(self)),
            old(self).index_of(h.raw) == -1 ==> r == Err::<usize, Error>(Error::NotFound)
                && *final(self) == *old(self),
            old(self).index_of(h.raw) >= 0 ==> {
                let i = old(self).index_of(h.raw);
                let b = old(self).bytes_at(i);
                let p = old(self).pos_at(i);
                &&& final(self).same_but(old(self), i)
                &&& old(self).loadable_at(i) && p + buf@.len() <= usize::MAX ==> r is Ok
                &&& r is Ok ==> r == Ok::<usize, Error>(buf@.len() as usize)
                    && final(self).bytes_at(i) == write_at(b, p, buf@)
                    && final(self).pos_at(i) == p + buf@.len()
                    && final(self).loaded_at(i)
                &&& r is Err ==> final(self).bytes_at(i) == b && final(self).pos_at(i) == p
            },
    {
        let i = match self.resident(h) {
            Err(e) => return Err(e),
            Ok(i) => i,
        };
        let ghost c1 = *self;
        let mut e = self.entries.remove(i);
        let r = e.data.write(buf);
        self.entries.insert(i, e);
        proof {
            assert(self.entries@ =~= c1.entries@.update(i as int, e));
            Container::lemma_replace(c1, *self, i as int);
        }
        r
    }

    /// Inserts or removes bytes at the cursor of section `h`, as
    /// `SectionData::shift` does.
    pub fn section_shift(&mut self, h: Handle, to: ShiftTo) -> (r: Result<(), Error>)
        requires
            old(self).wf(),
        ensures
            final(self).wf(),
            final(self).handles_same(old(self)),
            old(self).index_of(h.raw) == -1 ==> r == Err::<(), Error>(Error::NotFound)
                && *final(self) == *old(self),
            old(self).index_of(h.raw) >= 0 ==> {
                let i = old(self).index_of(h.raw);
                let b = old(self).bytes_at(i);
                let p = old(self).pos_at(i);
                &&& final(self).same_but(old(self), i)
                &&& final(self).pos_at(i) == p
                &&& r is Err ==> final(self).bytes_at(i) == b
                &&& match to {
                    ShiftTo::Right(l) => {
                        &&& old(self).loadable_at(i) && p <= b.len() && b.len() + l <= usize::MAX ==> r is Ok
                        &&& r is Ok ==> final(self).bytes_at(i) == shifted_right(b, p, l as nat)
                        &&& p > b.len() && old(self).loadable_at(i) ==> r == Err::<(), Error>(Error::Io(IoErrorKind::ShiftOutOfRange))
                    },
                    ShiftTo::Left(l) => {
                        &&& old(self).loadable_at(i) && p + l <= b.len() ==> r is Ok
                        &&& r is Ok ==> final(self).bytes_at(i) == shifted_left(b, p, l as nat)
                        &&& p + l > b.len() && old(self).loadable_at(i) ==> r == Err::<(), Error>(Error::Io(IoErrorKind::ShiftOutOfRange))
                    },
                }
            },
    {
        let i = match self.resident(h) {
            Err(e) => return Err(e),
            Ok(i) => i,
        };
        let ghost c1 = *self;
        let mut e = self.entries.remove(i);
        let r = e.data.shift(to);
        self.entries.insert(i, e);
        proof {
            assert(self.entries@ =~= c1.entries@.update(i as int, e));
            Container::lemma_replace(c1, *self, i as int);
        }
        r
    }

    /// Writing the image needs no xz compression, the one codec that may
    /// fail: no resident section is due for it.
    pub open spec fn save_needs_no_xz(&self) -> bool {
        forall|i: int| 0 <= i < self.num() ==> !#[trigger] self.loaded_at(i)
            || !compress_on_save(self.settings_at(i), self.bytes_at(i).len(), self.default_threshold())
            || self.settings_at(i).compression != CompressionMethod::Xz
    }

    /// Every size that the image records fits its field, and the image fits
    /// in memory.
    pub open spec fn image_fits(&self) -> bool {
        &&& forall|i: int| 0 <= i < self.num() ==> #[trigger] self.loaded_at(i)
            ==> self.payload_at(i).len() <= u32::MAX && self.bytes_at(i).len() <= u32::MAX
        &&& 40 + 22 * self.num() + concat(self.payloads()).len() <= usize::MAX
    }

    /// The directory entry (pointer 0) and payload that a save writes for
    /// section `i`.
    fn saved_form(&self, i: usize) -> (r: Result<(SectionHeader, Vec<u8>), Error>)
        requires
            self.wf(),
            i < self.num(),
        ensures
            r matches Ok((h, p)) ==> h == self.saved_header_at(i as int) && p@ == self.payload_at(i as int)
                && entry_fits(self.entries@[i as int], self.compression_threshold)
                && decoded(h.flags, p@) == self.bytes_at(i as int)
                && h.csize == p@.len()
                && (self.loadable_at(i as int) ==> checksum_ok(h, self.bytes_at(i as int)))
                && (self.loadable_at(i as int) ==> stored_decodes(h.flags, p@)),
            entry_fits(self.entries@[i as int], self.compression_threshold)
                && (!self.entries@[i as int].loaded || !compress_on_save(self.entries@[i as int].settings,
                    self.entries@[i as int].data.bytes().len(), self.compression_threshold)
                    || self.entries@[i as int].settings.compression != CompressionMethod::Xz) ==> r is Ok,
            r is Err ==> r == Err::<(SectionHeader, Vec<u8>), Error>(Error::Io(IoErrorKind::Codec))
                || r == Err::<(SectionHeader, Vec<u8>), Error>(Error::Io(IoErrorKind::Overflow)),
    {
        let e = &self.entries[i];
        if !e.loaded {
            let p = copy_range(e.stored.as_slice(), 0, e.stored.len());
            assert(e.stored@.subrange(0, e.stored@.len() as int) =~= e.stored@);
            return Ok((SectionHeader { pointer: 0, ..e.header }, p));
        }
        let bytes = e.data.as_bytes();
        let size = bytes.len();
        let threshold = match e.settings.threshold {
            Some(t) => t,
            None => self.compression_threshold,
        };
        let compress = e.settings.compression != CompressionMethod::Uncompressed && size as u64 >= threshold as u64;
        let payload: Vec<u8> = if compress {
            match e.settings.compression {
                CompressionMethod::Zlib => match zlib_compress(bytes.as_slice()) {
                    Ok(c) => c,
                    Err(_) => return Err(Error::Io(IoErrorKind::Codec)),
                },
                CompressionMethod::Xz => match xz_compress(bytes.as_slice()) {
                    Ok(c) => c,
                    Err(_) => return Err(Error::Io(IoErrorKind::Codec)),
                },
                CompressionMethod::Uncompressed => copy_range(bytes.as_slice(), 0, size),
            }
        } else {
            copy_range(bytes.as_slice(), 0, size)
        };
        assert(bytes@.subrange(0, size as int) =~= bytes@);
        if payload.len() > u32::MAX as usize || size > u32::MAX as usize {
            return Err(Error::Io(IoErrorKind::Overflow));
        }
        let chk: u32 = match e.settings.checksum {
            Checksum::Unchecked => 0,
            Checksum::Weak => weak_sum(bytes.as_slice()),
            Checksum::Crc32 => crc32(bytes.as_slice()),
        };
        let cbits: u8 = if compress { compression_flag(e.settings.compression) } else { 0 };
        let flags = checksum_flag(e.settings.checksum) | cbits;
        proof {
            if compress {
                assert(payload@ == compressed_form(e.settings.compression, bytes@));
                if e.settings.compression == CompressionMethod::Zlib {
                    assert(payload@ == zlib_deflated(bytes@));
                } else if e.settings.compression == CompressionMethod::Xz {
                    assert(payload@ == xz_deflated(bytes@));
                }
            }
            lemma_flag_bits(checksum_bits(e.settings.checksum), cbits);
            assert(compression_of_flags(0u8) == CompressionMethod::Uncompressed) by {
                assert(0u8 & 1 == 0 && 0u8 & 2 == 0) by (bit_vector);
            }
        }
        Ok((SectionHeader {
            pointer: 0,
            csize: payload.len() as u32,
            size: size as u32,
            chksum: chk,
            ty: e.settings.ty,
            flags,
        }, payload))
    }

    /// Writes the container to its stream: each resident section is
    /// recompressed (when its policy and size ask for it) and re-checksummed,
    /// sections that were never loaded are copied as stored, and the main
    /// header gets the new size, section count and checksum. The new image is
    /// built in full before it replaces the stream, so a failed save leaves
    /// the stream, and the container, as they were.
    pub fn save(&mut self) -> (r: Result<(), Error>)
        requires
            old(self).wf(),
        ensures
            final(self).wf(),
            r is Err ==> *final(self) == *old(self),
            r is Err ==> r == Err::<(), Error>(Error::Io(IoErrorKind::Codec))
                || r == Err::<(), Error>(Error::Io(IoErrorKind::Overflow)),
            old(self).save_needs_no_xz() && old(self).image_fits() ==> r is Ok,
            r is Ok ==> final(self).saved_from(old(self)),
    {
        let n = self.entries.len();
        let ghost hs = self.saved_headers();
        let ghost ps = self.payloads();
        if n > (usize::MAX - 40) / 22 {
            proof {
                lemma_concat_split(ps, 0);
            }
            return Err(Error::Io(IoErrorKind::Overflow));
        }
        let base: usize = 40 + 22 * n;
        assert(ps.take(0) =~= Seq::<Seq<u8>>::empty());
        assert(concat(Seq::<Seq<u8>>::empty()) == Seq::<u8>::empty());
        let mut headers: Vec<SectionHeader> = Vec::new();
        let mut payloads: Vec<Vec<u8>> = Vec::new();
        let mut body_len: usize = 0;
        let mut i: usize = 0;
        while i < n
            invariant
                self.wf(),
                n == self.num(),
                hs == self.saved_headers(),
                ps == self.payloads(),
                base == 40 + 22 * n,
                i <= n,
                headers@.len() == i,
                payloads@.len() == i,
                forall|k: int| 0 <= k < i ==> #[trigger] headers@[k] == hs[k],
                forall|k: int| 0 <= k < i ==> (#[trigger] payloads@[k])@ == ps[k],
                body_len == concat(ps.take(i as int)).len(),
                base + body_len <= usize::MAX,
                *self == *old(self),
                forall|k: int| 0 <= k < i ==> {
                    &&& decoded((#[trigger] hs[k]).flags, ps[k]) == self.bytes_at(k)
                    &&& hs[k].csize == ps[k].len()
                    &&& self.loadable_at(k) ==> checksum_ok(hs[k], self.bytes_at(k))
                    &&& self.loadable_at(k) ==> stored_decodes(hs[k].flags, ps[k])
                },
                forall|k: int| 0 <= k < i ==> entry_fits(#[trigger] self.entries@[k], self.compression_threshold),
            decreases n - i,
        {
            let (h, p) = match self.saved_form(i) {
                Ok(v) => v,
                Err(e) => {
                    proof {
                        assert(!(entry_fits(self.entries@[i as int], self.compression_threshold)
                            && (!self.entries@[i as int].loaded || !compress_on_save(self.entries@[i as int].settings,
                            self.entries@[i as int].data.bytes().len(), self.compression_threshold)
                            || self.entries@[i as int].settings.compression != CompressionMethod::Xz)));
                        if old(self).save_needs_no_xz() && old(self).image_fits() {
                            assert(old(self).loaded_at(i as int) ==> old(self).payload_at(i as int).len() <= u32::MAX
                                && old(self).bytes_at(i as int).len() <= u32::MAX);
                            assert(!old(self).loaded_at(i as int) || !compress_on_save(old(self).settings_at(i as int),
                                old(self).bytes_at(i as int).len(), old(self).default_threshold())
                                || old(self).settings_at(i as int).compression != CompressionMethod::Xz);
                        }
                    }
                    return Err(e);
                },
            };
            proof {
                lemma_concat_push(ps.take(i as int), ps[i as int]);
                assert(ps.take(i + 1) =~= ps.take(i as int).push(ps[i as int]));
            }
            if p.len() > usize::MAX - base - body_len {
                proof {
                    lemma_concat_split(ps, i + 1);
                }
                return Err(Error::Io(IoErrorKind::Overflow));
            }
            body_len = body_len + p.len();
            headers.push(h);
            payloads.push(p);
            i = i + 1;
        }
        assert(ps.take(n as int) =~= ps);
        assert(old(self).image_fits());
        assert forall|j: int| 0 <= j < n implies {
            &&& decoded((#[trigger] old(self).saved_header_at(j)).flags, old(self).payload_at(j)) == old(self).bytes_at(j)
            &&& old(self).saved_header_at(j).csize == old(self).payload_at(j).len()
            &&& old(self).loadable_at(j) ==> checksum_ok(old(self).saved_header_at(j), old(self).bytes_at(j))
            &&& old(self).loadable_at(j) ==> stored_decodes(old(self).saved_header_at(j).flags, old(self).payload_at(j))
        } by {
            assert(hs[j] == old(self).saved_header_at(j));
            assert(ps[j] == old(self).payload_at(j));
        }
        assert(hs.skip(0) =~= hs);
        assert(ps.skip(0) =~= ps);
        // The directory, with each entry pointing at its payload.
        let mut dir: Vec<u8> = Vec::new();
        let mut placed: Vec<SectionHeader> = Vec::new();
        let mut at: usize = base;
        let mut j: usize = 0;
        while j < n
            invariant
                n == hs.len() == ps.len(),
                headers@.len() == n,
                payloads@.len() == n,
                forall|k: int| 0 <= k < n ==> #[trigger] headers@[k] == hs[k],
                forall|k: int| 0 <= k < n ==> (#[trigger] payloads@[k])@ == ps[k],
                body_len == concat(ps).len(),
                base + body_len <= usize::MAX,
                j <= n,
                at == base + concat(ps.take(j as int)).len(),
                placed@.len() == j,
                forall|k: int| 0 <= k < j ==> #[trigger] placed@[k] == with_pointer(hs[k],
                    (base + concat(ps.take(k)).len()) as nat),
                dir@ + directory_bytes(hs.skip(j as int), ps.skip(j as int), at as nat)
                    == directory_bytes(hs, ps, base as nat),
            decreases n - j,
        {
            proof {
                lemma_concat_push(ps.take(j as int), ps[j as int]);
                assert(ps.take(j + 1) =~= ps.take(j as int).push(ps[j as int]));
                lemma_concat_split(ps, j + 1);
                assert(hs.skip(j as int).drop_first() =~= hs.skip(j + 1));
                assert(ps.skip(j as int).drop_first() =~= ps.skip(j + 1));
            }
            let h = SectionHeader { pointer: at as u64, ..headers[j] };
            let ghost before = dir@;
            h.write_to(&mut dir);
            placed.push(h);
            at = at + payloads[j].len();
            assert(dir@ + directory_bytes(hs.skip(j + 1), ps.skip(j + 1), at as nat)
                =~= before + directory_bytes(hs.skip(j as int), ps.skip(j as int), (at - payloads@[j as int]@.len()) as nat));
            j = j + 1;
        }
        assert(hs.skip(n as int) =~= Seq::<SectionHeader>::empty());
        assert(dir@ =~= directory_bytes(hs, ps, base as nat));
        // The main header, whose checksum covers itself and the directory.
        let h0 = MainHeader {
            chksum: 0,
            file_size: (base + body_len) as u64,
            section_num: n as u32,
            ..self.main_header
        };
        let mut b0: Vec<u8> = Vec::new();
        h0.write_to(&mut b0);
        proof {
            crate::header::lemma_main_header_round_trip(h0, Seq::empty());
        }
        let x = weak_sum_range(b0.as_slice(), 3, 4) as u64;
        let y = weak_sum_range(b0.as_slice(), 8, 40) as u64;
        let z = weak_sum(dir.as_slice()) as u64;
        let chk = ((x + y + z) % 0x1_0000_0000) as u32;
        proof {
            lemma_mod_sum3(byte_sum(b0@.subrange(3, 4)), byte_sum(b0@.subrange(8, 40)), byte_sum(dir@));
        }
        let mh = MainHeader { chksum: chk, ..h0 };
        assert(mh == saved_main_header(self.main_header, n as nat, dir@, body_len as nat));
        let mut image: Vec<u8> = Vec::new();
        mh.write_to(&mut image);
        append_bytes(&mut image, dir.as_slice());
        let mut k: usize = 0;
        while k < n
            invariant
                n == ps.len(),
                payloads@.len() == n,
                forall|q: int| 0 <= q < n ==> (#[trigger] payloads@[q])@ == ps[q],
                k <= n,
                image@ == main_header_bytes(mh) + dir@ + concat(ps.take(k as int)),
            decreases n - k,
        {
            proof {
                lemma_concat_push(ps.take(k as int), ps[k as int]);
                assert(ps.take(k + 1) =~= ps.take(k as int).push(ps[k as int]));
            }
            append_bytes(&mut image, payloads[k].as_slice());
            k = k + 1;
        }
        assert(image@ =~= image_of(self.main_header, hs, ps));
        // Commit.
        self.stream = image;
        self.main_header = mh;
        let ghost c0 = *self;
        let mut q: usize = 0;
        while q < n
            invariant
                n == self.entries@.len() == c0.entries@.len(),
                placed@.len() == n,
                forall|t: int| 0 <= t < n ==> #[trigger] placed@[t] == with_pointer(hs[t],
                    (base + concat(ps.take(t)).len()) as nat),
                hs == c0.saved_headers(),
                c0.wf(),
                q <= n,
                forall|t: int| 0 <= t < n ==> {
                    &&& (#[trigger] self.entries@[t]).handle == c0.entries@[t].handle
                    &&& self.entries@[t].settings == c0.entries@[t].settings
                    &&& self.entries@[t].stored@ == c0.entries@[t].stored@
                    &&& self.entries@[t].loaded == c0.entries@[t].loaded
                    &&& self.entries@[t].data == c0.entries@[t].data
                    &&& self.entries@[t].header == (if t < q { placed@[t] } else { c0.entries@[t].header })
                },
                self.next_handle == c0.next_handle,
                self.stream == c0.stream,
                self.main_header == c0.main_header,
                self.compression_threshold == c0.compression_threshold,
            decreases n - q,
        {
            let ghost before = self.entries@;
            let mut e = self.entries.remove(q);
            e.header = placed[q];
            self.entries.insert(q, e);
            assert(self.entries@ =~= before.update(q as int, e));
            q = q + 1;
        }
        proof {
            assert forall|a: int, b: int| 0 <= a < b < self.entries@.len() implies
                self.entries@[a].handle != self.entries@[b].handle by {
                assert(c0.entries@[a].handle != c0.entries@[b].handle);
            }
        }
        self.refresh();
        proof {
            assert(self.handles() =~= c0.handles());
            assert forall|t: int| 0 <= t < n implies #[trigger] self.saved_header_at(t) == c0.saved_header_at(t)
                && self.payload_at(t) == c0.payload_at(t) && self.bytes_at(t) == c0.bytes_at(t) by {
                let e0 = c0.entries@[t];
                if !e0.loaded {
                    assert(self.entries@[t].header == with_pointer(with_pointer(e0.header, 0), (base + concat(ps.take(t)).len()) as nat));
                }
            }
            assert(self.saved_headers() =~= hs);
            assert(self.payloads() =~= ps);
            assert forall|t: int| 0 <= t < n implies #[trigger] self.header_at(t)
                == with_pointer(old(self).saved_header_at(t), 40 + 22 * old(self).num() + concat(old(self).payloads().take(t)).len()) by {
                assert(hs[t] == old(self).saved_header_at(t));
            }
        }
        Ok(())
    }

    /// `self` was read from stream `s`: its main header and directory are the
    /// ones `s` holds, each section's stored bytes are its payload in `s`, and
    /// no section is loaded yet.
    pub open spec fn opened_from(&self, s: Seq<u8>) -> bool {
        &&& self.wf()
        &&& self.stream() == s
        &&& main_header_read(s, 0, self.header())
        &&& self.num() == self.header().section_num
        &&& self.handles_are_positions()
        &&& forall|i: int| 0 <= i < self.num() ==> {
            &&& self.handle_at(i) == i
            &&& #[trigger] self.header_at(i) == section_header_at(s, 40 + 22 * i)
            &&& self.settings_at(i) == settings_of_header(self.header_at(i))
            &&& self.stored_at(i) == s.subrange(
                self.header_at(i).pointer as int,
                self.header_at(i).pointer + self.header_at(i).csize,
            )
            &&& !self.loaded_at(i)
            &&& self.pos_at(i) == 0
        }
    }

    /// `self` is `o` after a successful save.
    pub open spec fn saved_from(&self, o: &Container) -> bool {
        &&& o.image_fits()
        &&& self.handle_bound() == o.handle_bound()
        &&& forall|j: int| 0 <= j < o.num() ==> #[trigger] self.header_at(j)
            == with_pointer(o.saved_header_at(j), 40 + 22 * o.num() + concat(o.payloads().take(j)).len())
        &&& forall|j: int| 0 <= j < o.num() ==> {
            &&& decoded((#[trigger] o.saved_header_at(j)).flags, o.payload_at(j)) == o.bytes_at(j)
            &&& o.saved_header_at(j).csize == o.payload_at(j).len()
            &&& o.loadable_at(j) ==> checksum_ok(o.saved_header_at(j), o.bytes_at(j))
            &&& o.loadable_at(j) ==> stored_decodes(o.saved_header_at(j).flags, o.payload_at(j))
        }
        &&& self.stream() == o.image()
        &&& self.image() == o.image()
        &&& self.saved_headers() == o.saved_headers()
        &&& self.payloads() == o.payloads()
        &&& self.handles_same(o)
        &&& self.default_threshold() == o.default_threshold()
        &&& self.header() == saved_main_header(o.header(), o.num(),
            directory_bytes(o.saved_headers(), o.payloads(), 40 + 22 * o.num()),
            concat(o.payloads()).len())
        &&& forall|j: int| 0 <= j < self.num() ==> {
            &&& #[trigger] self.settings_at(j) == o.settings_at(j)
            &&& self.loaded_at(j) == o.loaded_at(j)
            &&& self.bytes_at(j) == o.bytes_at(j)
            &&& self.pos_at(j) == o.pos_at(j)
        }
    }

    /// Every section of `self` holds the bytes it holds in `o`.
    pub open spec fn same_bytes(&self, o: &Container) -> bool {
        &&& self.num() == o.num()
        &&& forall|q: int| 0 <= q < self.num() ==> #[trigger] self.bytes_at(q) == o.bytes_at(q)
    }

    pub open spec fn handles_same(&self, o: &Container) -> bool {
        self.handles() == o.handles()
    }
}

/// Saving twice in a row, with no change in between, writes the same stream
/// both times and leaves the same header checksum.
pub proof fn law_idempotent_save(c0: Container, c1: Container, c2: Container)
    requires
        c1.saved_from(&c0),
        c2.saved_from(&c1),
    ensures
        c2.stream() == c1.stream(),
        c2.header().chksum == c1.header().chksum,
{
    assert(c1.num() == c0.num()) by {
        assert(c1.handles().len() == c0.handles().len());
    }
}

/// After a successful save, a second save is owed success whenever the first
/// needed no xz compression, as for a container just opened: the image still
/// fits, and what is in memory has not changed.
pub proof fn lemma_save_again(c0: Container, c1: Container)
    requires
        c1.saved_from(&c0),
    ensures
        c1.image_fits(),
        c0.save_needs_no_xz() ==> c1.save_needs_no_xz(),
{
    assert(c1.num() == c0.num()) by {
        assert(c1.handles().len() == c0.handles().len());
    }
    assert forall|i: int| 0 <= i < c1.num() implies #[trigger] c1.loaded_at(i)
        ==> c1.payload_at(i).len() <= u32::MAX && c1.bytes_at(i).len() <= u32::MAX by {
        assert(c1.payloads()[i] == c0.payloads()[i]);
        assert(c1.settings_at(i) == c0.settings_at(i));
    }
    if c0.save_needs_no_xz() {
        assert forall|i: int| 0 <= i < c1.num() implies !#[trigger] c1.loaded_at(i)
            || !compress_on_save(c1.settings_at(i), c1.bytes_at(i).len(), c1.default_threshold())
            || c1.settings_at(i).compression != CompressionMethod::Xz by {
            assert(c1.settings_at(i) == c0.settings_at(i));
        }
    }
}

/// A container just read from a stream has nothing in memory, so saving it
/// needs no compression.
pub proof fn lemma_opened_needs_no_xz(c: Container, s: Seq<u8>)
    requires
        c.opened_from(s),
    ensures
        c.save_needs_no_xz(),
{
    assert forall|i: int| 0 <= i < c.num() implies !#[trigger] c.loaded_at(i)
        || !compress_on_save(c.settings_at(i), c.bytes_at(i).len(), c.default_threshold())
        || c.settings_at(i).compression != CompressionMethod::Xz by {
        assert(c.header_at(i) == section_header_at(s, 40 + 22 * i));
    }
}

/// A stream that opens cleanly, with its first signature byte damaged, is
/// refused with the signature named when the signature is checked, and opens
/// when the policy skips that check.
pub proof fn law_signature_fails_closed(s: Seq<u8>, b: u8)
    requires
        open_failure(s, 0) is None,
        b != 0x42,
    ensures
        open_failure(s.update(0, b), 0) == Some(Error::Format(FormatCheck::Signature)),
        open_failure(s.update(0, b), FLAG_IGNORE_SIGNATURE) is None,
{
    let t = s.update(0, b);
    assert(t.subrange(0, 3)[0] != 0x42u8);
    assert(!signature_ok(t.subrange(0, 3)));
    assert(t.subrange(16, 20) =~= s.subrange(16, 20));
    assert(t.subrange(20, 24) =~= s.subrange(20, 24));
    assert(t.subrange(4, 8) =~= s.subrange(4, 8));
    assert(t.subrange(3, 4) =~= s.subrange(3, 4));
    let n = le_value(s.subrange(16, 20));
    assert(t.subrange(8, (40 + 22 * n) as int) =~= s.subrange(8, (40 + 22 * n) as int));
    assert(0u8 & FLAG_IGNORE_SIGNATURE == 0 && 0u8 & FLAG_IGNORE_VERSION == 0 && 0u8 & FLAG_IGNORE_CHECKSUM == 0) by (bit_vector);
    assert(2u8 & FLAG_IGNORE_SIGNATURE != 0 && 2u8 & FLAG_IGNORE_VERSION == 0 && 2u8 & FLAG_IGNORE_CHECKSUM == 0) by (bit_vector);
    assert forall|i: int| 0 <= i < n implies #[trigger] payload_end(t, i) == payload_end(s, i) by {
        let o = 40 + 22 * i;
        assert(t.subrange(o, o + 8) =~= s.subrange(o, o + 8));
        assert(t.subrange(o + 8, o + 12) =~= s.subrange(o + 8, o + 12));
    }
}

pub proof fn lemma_directory_len(hs: Seq<SectionHeader>, ps: Seq<Seq<u8>>, at: nat)
    requires
        hs.len() == ps.len(),
    ensures
        directory_bytes(hs, ps, at).len() == 22 * hs.len(),
    decreases hs.len(),
{
    if hs.len() > 0 {
        crate::header::lemma_section_header_round_trip(with_pointer(hs[0], at), Seq::empty(), Seq::empty());
        lemma_directory_len(hs.drop_first(), ps.drop_first(), at + ps[0].len());
    }
}

/// Entry `j` of a directory sits at `22 * j` and points at payload `j`.
pub proof fn lemma_directory_at(hs: Seq<SectionHeader>, ps: Seq<Seq<u8>>, at: nat, j: int)
    requires
        hs.len() == ps.len(),
        0 <= j < hs.len(),
    ensures
        directory_bytes(hs, ps, at).subrange(22 * j, 22 * j + 22)
            == section_header_bytes(with_pointer(hs[j], at + concat(ps.take(j)).len())),
    decreases j,
{
    let first = section_header_bytes(with_pointer(hs[0], at));
    crate::header::lemma_section_header_round_trip(with_pointer(hs[0], at), Seq::empty(), Seq::empty());
    let rest = directory_bytes(hs.drop_first(), ps.drop_first(), at + ps[0].len());
    lemma_directory_len(hs.drop_first(), ps.drop_first(), at + ps[0].len());
    assert(directory_bytes(hs, ps, at) == first + rest);
    if j == 0 {
        assert(ps.take(0) =~= Seq::<Seq<u8>>::empty());
        assert(concat(Seq::<Seq<u8>>::empty()) == Seq::<u8>::empty());
        assert((first + rest).subrange(0, 22) =~= first);
    } else {
        lemma_directory_at(hs.drop_first(), ps.drop_first(), at + ps[0].len(), j - 1);
        assert(ps.take(j).drop_first() =~= ps.drop_first().take(j - 1));
        assert(ps.take(j)[0] == ps[0]);
        assert(concat(ps.take(j)) == ps[0] + concat(ps.take(j).drop_first()));
        assert(hs.drop_first()[j - 1] == hs[j]);
        assert((first + rest).subrange(22 * j, 22 * j + 22) =~= rest.subrange(22 * (j - 1), 22 * (j - 1) + 22));
    }
}

/// Payload `j` sits in the concatenation after the payloads before it.
pub proof fn lemma_concat_at(ps: Seq<Seq<u8>>, j: int)
    requires
        0 <= j < ps.len(),
    ensures
        concat(ps.take(j)).len() + ps[j].len() <= concat(ps).len(),
        concat(ps).subrange(concat(ps.take(j)).len() as int, (concat(ps.take(j)).len() + ps[j].len()) as int) == ps[j],
{
    lemma_concat_split(ps, j);
    let t = ps.skip(j);
    assert(t[0] == ps[j]);
    assert(concat(t) == ps[j] + concat(t.drop_first()));
    let a = concat(ps.take(j));
    assert((a + concat(t)).subrange(a.len() as int, (a.len() + ps[j].len()) as int) =~= ps[j]);
}

/// A stream written by a save, with a valid signature and version, opens
/// without error, and its directory and payloads are the ones saved.
pub proof fn lemma_image_opens(mh: MainHeader, hs: Seq<SectionHeader>, ps: Seq<Seq<u8>>)
    requires
        hs.len() == ps.len(),
        hs.len() <= u32::MAX,
        forall|j: int| 0 <= j < hs.len() ==> (#[trigger] hs[j]).csize == ps[j].len(),
        40 + 22 * hs.len() + concat(ps).len() <= u64::MAX,
        signature_ok(mh.signature@),
        version_known(mh.version),
    ensures
        ({
            let s = image_of(mh, hs, ps);
            let n = hs.len();
            &&& open_failure(s, 0) is None
            &&& le_value(s.subrange(16, 20)) == n
            &&& forall|j: int| 0 <= j < n ==> #[trigger] section_header_at(s, 40 + 22 * j)
                == with_pointer(hs[j], 40 + 22 * n + concat(ps.take(j)).len())
            &&& forall|j: int| 0 <= j < n ==> #[trigger] s.subrange(
                (40 + 22 * n + concat(ps.take(j)).len()) as int,
                (40 + 22 * n + concat(ps.take(j)).len() + ps[j].len()) as int) == ps[j]
        }),
{
    let n = hs.len();
    let dir = directory_bytes(hs, ps, 40 + 22 * n);
    let body = concat(ps);
    let mh2 = saved_main_header(mh, n, dir, body.len());
    let hb = main_header_bytes(mh2);
    let s = image_of(mh, hs, ps);
    lemma_directory_len(hs, ps, 40 + 22 * n);
    crate::header::lemma_main_header_round_trip(mh2, dir + body);
    assert(s == hb + (dir + body));
    assert(s.len() == 40 + 22 * n + body.len());
    // The header fields that open checks.
    crate::bytes::lemma_pow256_values();
    crate::bytes::lemma_le_round_trip(n, 4);
    crate::bytes::lemma_le_round_trip(mh.version as nat, 4);
    assert(le_value(s.subrange(16, 20)) == n);
    assert(le_value(s.subrange(20, 24)) == mh.version);
    assert(s.subrange(0, 3) == mh.signature@);
    // The checksum covers the same bytes that the save summed.
    let h0 = MainHeader { chksum: 0, file_size: (40 + 22 * n + body.len()) as u64, section_num: n as u32, ..mh };
    let b0 = main_header_bytes(h0);
    crate::bytes::lemma_le_bytes_len(0, 4);
    crate::bytes::lemma_le_bytes_len(mh2.chksum as nat, 4);
    crate::bytes::lemma_le_bytes_len(h0.file_size as nat, 8);
    crate::bytes::lemma_le_bytes_len(n, 4);
    crate::bytes::lemma_le_bytes_len(mh.version as nat, 4);
    assert(b0.subrange(3, 4) =~= hb.subrange(3, 4));
    assert(b0.subrange(8, 40) =~= hb.subrange(8, 40));
    assert(s.subrange(3, 4) =~= hb.subrange(3, 4));
    assert(s.subrange(8, (40 + 22 * n) as int) =~= hb.subrange(8, 40) + dir);
    crate::bytes::lemma_byte_sum_append(hb.subrange(8, 40), dir);
    assert(header_checksum(s, n) == le_value(s.subrange(4, 8)));
    assert(0u8 & FLAG_IGNORE_SIGNATURE == 0 && 0u8 & FLAG_IGNORE_VERSION == 0 && 0u8 & FLAG_IGNORE_CHECKSUM == 0) by (bit_vector);
    assert(header_failure(s, 0) is None);
    assert forall|j: int| 0 <= j < n implies #[trigger] section_header_at(s, 40 + 22 * j)
        == with_pointer(hs[j], 40 + 22 * n + concat(ps.take(j)).len()) by {
        lemma_directory_at(hs, ps, 40 + 22 * n, j);
        let e = with_pointer(hs[j], 40 + 22 * n + concat(ps.take(j)).len());
        let pre = s.subrange(0, 40 + 22 * j);
        let post = s.subrange(40 + 22 * j + 22, s.len() as int);
        assert(s =~= pre + section_header_bytes(e) + post);
        crate::header::lemma_section_header_round_trip(e, pre, post);
    }
    assert forall|j: int| 0 <= j < n implies #[trigger] s.subrange(
        (40 + 22 * n + concat(ps.take(j)).len()) as int,
        (40 + 22 * n + concat(ps.take(j)).len() + ps[j].len()) as int) == ps[j] by {
        lemma_concat_at(ps, j);
        let o = 40 + 22 * n + concat(ps.take(j)).len();
        assert(s.subrange(o as int, (o + ps[j].len()) as int) =~= body.subrange(
            concat(ps.take(j)).len() as int, (concat(ps.take(j)).len() + ps[j].len()) as int));
    }
    assert forall|j: int| 0 <= j < n implies #[trigger] payload_end(s, j) <= s.len() by {
        lemma_concat_at(ps, j);
        assert(section_header_at(s, 40 + 22 * j) == with_pointer(hs[j], 40 + 22 * n + concat(ps.take(j)).len()));
    }
}

/// Saving and opening the saved stream again gives back every section, in
/// directory order, with its bytes; each section's handle is then its
/// position, and a section that loaded without a codec before still does.
pub proof fn law_round_trip(c0: Container, c1: Container, d: Container, i: int)
    requires
        c0.wf(),
        signature_ok(c0.header().signature@),
        version_known(c0.header().version),
        c1.saved_from(&c0),
        d.opened_from(c1.stream()),
        0 <= i < c0.num(),
    ensures
        open_failure(c1.stream(), 0) is None,
        d.num() == c0.num(),
        d.handle_at(i) == i,
        d.bytes_at(i) == c0.bytes_at(i),
        d.header_at(i) == with_pointer(c0.saved_header_at(i), 40 + 22 * c0.num() + concat(c0.payloads().take(i)).len()),
        c0.loadable_at(i) ==> d.loadable_at(i),
        c0.handles_are_positions() ==> d.handles() == c0.handles(),
{
    let hs = c0.saved_headers();
    let ps = c0.payloads();
    let n = c0.num();
    assert forall|j: int| 0 <= j < hs.len() implies (#[trigger] hs[j]).csize == ps[j].len() by {
        assert(hs[j] == c0.saved_header_at(j));
    }
    lemma_image_opens(c0.header(), hs, ps);
    let s = c1.stream();
    assert(d.num() == n);
    assert(d.header_at(i) == section_header_at(s, 40 + 22 * i));
    let h = d.header_at(i);
    assert(h == with_pointer(hs[i], 40 + 22 * n + concat(ps.take(i)).len()));
    assert(hs[i] == c0.saved_header_at(i));
    assert(ps[i] == c0.payload_at(i));
    lemma_concat_at(ps, i);
    let o = 40 + 22 * n + concat(ps.take(i)).len();
    assert(h.pointer == o);
    assert(h.csize == ps[i].len());
    assert(s.subrange(o as int, (o + ps[i].len()) as int) == ps[i]);
    assert(d.stored_at(i) == ps[i]);
    if c0.handles_are_positions() {
        assert(d.handles().len() == c0.handles().len());
        assert forall|j: int| 0 <= j < d.handles().len() implies d.handles()[j] == c0.handles()[j] by {
            assert(d.handle_at(j) == j);
            assert(c0.handle_at(j) == j);
        }
        assert(d.handles() =~= c0.handles());
    }
}

/// A copy of `s[start..end]`.
fn copy_range(s: &[u8], start: usize, end: usize) -> (r: Vec<u8>)
    requires
        start <= end <= s@.len(),
    ensures
        r@ == s@.subrange(start as int, end as int),
{
    let mut out: Vec<u8> = Vec::with_capacity(end - start);
    let mut i: usize = start;
    while i < end
        invariant
            start <= i <= end <= s@.len(),
            out@ == s@.subrange(start as int, i as int),
        decreases end - i,
    {
        out.push(s[i]);
        i = i + 1;
        assert(out@ =~= s@.subrange(start as int, i as int));
    }
    out
}

} // verus!
