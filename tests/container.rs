use bpx_store::container::{Container, Handle};
use bpx_store::error::{Error, FormatCheck, IoErrorKind};
use bpx_store::header::{SectionHeader, FLAG_CHECK_CRC32, FLAG_CHECK_WEAK, FLAG_COMPRESS_XZ, FLAG_COMPRESS_ZLIB};
use bpx_store::options::{
    BPXSectionHeader, BPXSectionOptions, Checksum, CompressionMethod,
    bpx_create_options_default, bpx_open_options_default, OpenOptions, SectionOptions,
    FLAG_IGNORE_CHECKSUM, FLAG_IGNORE_SIGNATURE, FLAG_IGNORE_VERSION,
};
use bpx_store::section::CSeekFrom;

fn sample(n: usize) -> Vec<u8> {
    (0..n).map(|i| (i * 7 + 3) as u8).collect()
}

fn saved_with(flags: u8, threshold: isize, data: &[u8]) -> (Vec<u8>, Handle) {
    let mut c = Container::create(Vec::new(), &bpx_create_options_default());
    let h = c
        .section_create(&SectionOptions { ty: 1, flags, compression_threshold: threshold })
        .unwrap();
    assert_eq!(c.section_write(h, data).unwrap(), data.len());
    c.save().unwrap();
    (c.into_stream(), h)
}

fn reopen_read(stream: Vec<u8>, h: Handle) -> Vec<u8> {
    let mut c = Container::open(stream, &bpx_open_options_default()).unwrap();
    let size = c.section_size(h).unwrap();
    c.section_seek(h, CSeekFrom::Start, 0).unwrap();
    c.section_read(h, size).unwrap()
}

#[test]
fn round_trip_plain_sections() {
    for n in [0usize, 1, 2, 100, 4096] {
        let data = sample(n);
        let (stream, h) = saved_with(FLAG_CHECK_WEAK, -1, &data);
        assert_eq!(reopen_read(stream, h), data);
    }
}

#[test]
fn round_trip_zlib_section() {
    let data = sample(5000);
    let (stream, h) = saved_with(FLAG_CHECK_WEAK | FLAG_COMPRESS_ZLIB, 0, &data);
    let c = Container::open(stream.clone(), &bpx_open_options_default()).unwrap();
    let info = c.sections()[0];
    assert_eq!(info.header.size, 5000);
    assert_ne!(info.header.flags & FLAG_COMPRESS_ZLIB, 0);
    assert_ne!(info.header.csize as usize, data.len());
    assert_eq!(reopen_read(stream, h), data);
}

#[test]
fn round_trip_xz_crc32_section() {
    let data = sample(3000);
    let (stream, h) = saved_with(FLAG_CHECK_CRC32 | FLAG_COMPRESS_XZ, 0, &data);
    let c = Container::open(stream.clone(), &bpx_open_options_default()).unwrap();
    let info = c.sections()[0];
    assert_ne!(info.header.flags & FLAG_COMPRESS_XZ, 0);
    assert_ne!(info.header.csize as usize, data.len());
    assert_eq!(info.header.chksum, crc(&data));
    assert_eq!(reopen_read(stream, h), data);
}

fn crc(data: &[u8]) -> u32 {
    let mut c: u32 = 0xFFFF_FFFF;
    for b in data {
        c ^= *b as u32;
        for _ in 0..8 {
            c = if c & 1 != 0 { (c >> 1) ^ 0xEDB8_8320 } else { c >> 1 };
        }
    }
    !c
}

#[test]
fn small_section_below_threshold_is_stored_plain() {
    let data = sample(10);
    let (stream, h) = saved_with(FLAG_CHECK_WEAK | FLAG_COMPRESS_ZLIB, -1, &data);
    let c = Container::open(stream.clone(), &bpx_open_options_default()).unwrap();
    let info = c.sections()[0];
    assert_eq!(info.header.flags & FLAG_COMPRESS_ZLIB, 0);
    assert_eq!(info.header.csize, 10);
    let sum: u32 = data.iter().map(|b| *b as u32).sum();
    assert_eq!(info.header.chksum, sum);
    assert_eq!(reopen_read(stream, h), data);
}

#[test]
fn idempotent_save() {
    let (stream, _) = saved_with(FLAG_CHECK_WEAK | FLAG_COMPRESS_ZLIB, 0, &sample(2000));
    let mut c = Container::open(stream, &bpx_open_options_default()).unwrap();
    c.save().unwrap();
    let first = c.stream_bytes().clone();
    let chk1 = c.main_header().chksum;
    c.save().unwrap();
    assert_eq!(c.stream_bytes(), &first);
    assert_eq!(c.main_header().chksum, chk1);
}

#[test]
fn header_layout() {
    let (stream, _) = saved_with(0, -1, &[1, 2, 3]);
    assert_eq!(&stream[0..3], b"BPX");
    assert_eq!(stream[3], b'P');
    assert_eq!(u64::from_le_bytes(stream[8..16].try_into().unwrap()), stream.len() as u64);
    assert_eq!(u32::from_le_bytes(stream[16..20].try_into().unwrap()), 1);
    assert_eq!(u32::from_le_bytes(stream[20..24].try_into().unwrap()), 2);
    assert_eq!(stream.len(), 40 + 22 + 3);
    let pointer = u64::from_le_bytes(stream[40..48].try_into().unwrap());
    assert_eq!(pointer, 62);
    assert_eq!(&stream[62..65], &[1, 2, 3]);
    let expected: u32 = stream[3..4].iter().chain(stream[8..62].iter()).map(|b| *b as u32).sum();
    assert_eq!(u32::from_le_bytes(stream[4..8].try_into().unwrap()), expected);
}

#[test]
fn signature_fails_closed() {
    let (mut stream, h) = saved_with(FLAG_CHECK_WEAK, -1, &sample(50));
    stream[0] = b'X';
    let strict = bpx_open_options_default();
    assert_eq!(
        Container::open(stream.clone(), &strict).err(),
        Some(Error::Format(FormatCheck::Signature))
    );
    let lenient = OpenOptions { flags: FLAG_IGNORE_SIGNATURE, ..strict };
    let mut c = Container::open(stream, &lenient).unwrap();
    assert_eq!(c.section_size(h).unwrap(), 50);
}

#[test]
fn version_and_checksum_checks() {
    let (stream, _) = saved_with(FLAG_CHECK_WEAK, -1, &sample(8));
    let mut bad_version = stream.clone();
    bad_version[20] = 9;
    let strict = bpx_open_options_default();
    assert_eq!(
        Container::open(bad_version.clone(), &strict).err(),
        Some(Error::Format(FormatCheck::Version))
    );
    let skip_version = OpenOptions { flags: FLAG_IGNORE_VERSION, ..strict };
    assert_eq!(
        Container::open(bad_version.clone(), &skip_version).err(),
        Some(Error::Format(FormatCheck::Checksum))
    );
    let skip_both = OpenOptions { flags: FLAG_IGNORE_VERSION | FLAG_IGNORE_CHECKSUM, ..strict };
    assert!(Container::open(bad_version, &skip_both).is_ok());
    let mut bad_sum = stream.clone();
    bad_sum[4] ^= 0xFF;
    assert_eq!(
        Container::open(bad_sum, &strict).err(),
        Some(Error::Format(FormatCheck::Checksum))
    );
}

#[test]
fn truncated_streams_are_refused() {
    let strict = bpx_open_options_default();
    assert_eq!(
        Container::open(vec![0u8; 10], &strict).err(),
        Some(Error::Format(FormatCheck::Truncated))
    );
    let (stream, _) = saved_with(FLAG_CHECK_WEAK, -1, &sample(30));
    let cut = stream[..stream.len() - 5].to_vec();
    assert_eq!(
        Container::open(cut, &strict).err(),
        Some(Error::Format(FormatCheck::Truncated))
    );
}

#[test]
fn corrupted_section_fails_its_checksum() {
    let (mut stream, h) = saved_with(FLAG_CHECK_CRC32, -1, &sample(30));
    let last = stream.len() - 1;
    stream[last] ^= 0x55;
    let mut c = Container::open(stream, &bpx_open_options_default()).unwrap();
    assert_eq!(c.section_size(h).err(), Some(Error::Format(FormatCheck::SectionChecksum)));
}

#[test]
fn removed_handles_stay_invalid() {
    let mut c = Container::create(Vec::new(), &bpx_create_options_default());
    let opts = SectionOptions::default_options();
    let a = c.section_create(&opts).unwrap();
    let b = c.section_create(&opts).unwrap();
    assert_ne!(a, b);
    assert_eq!(c.main_header().section_num, 2);
    c.section_remove(a).unwrap();
    assert_eq!(c.section_remove(a).err(), Some(Error::NotFound));
    assert_eq!(c.section_size(a).err(), Some(Error::NotFound));
    let d = c.section_create(&opts).unwrap();
    assert_ne!(d, a);
    assert_eq!(c.sections().len(), 2);
    assert_eq!(c.sections()[0].handle, b.into_raw());
    assert_eq!(c.sections()[1].index, 1);
    assert_eq!(c.section_size(Handle::from_raw(1000)).err(), Some(Error::NotFound));
}

#[test]
fn save_after_remove_reclaims_space() {
    let mut c = Container::create(Vec::new(), &bpx_create_options_default());
    let opts = SectionOptions { ty: 3, flags: FLAG_CHECK_WEAK, compression_threshold: -1 };
    let a = c.section_create(&opts).unwrap();
    let b = c.section_create(&opts).unwrap();
    c.section_write(a, &sample(100)).unwrap();
    c.section_write(b, &[9, 9]).unwrap();
    c.save().unwrap();
    assert_eq!(c.stream_bytes().len(), 40 + 44 + 102);
    c.section_remove(a).unwrap();
    c.save().unwrap();
    assert_eq!(c.stream_bytes().len(), 40 + 22 + 2);
    assert_eq!(c.main_header().section_num, 1);
    assert_eq!(c.main_header().file_size, 64);
    let mut d = Container::open(c.into_stream(), &bpx_open_options_default()).unwrap();
    assert_eq!(d.sections()[0].header.ty, 3);
    let h = Handle::from_raw(d.sections()[0].handle);
    assert_eq!(d.section_read(h, 10).unwrap(), vec![9, 9]);
}

#[test]
fn create_keeps_header_options() {
    let mut opts = bpx_create_options_default();
    opts.main_header.ty = b'T';
    opts.main_header.type_ext[0] = 7;
    let mut c = Container::create(vec![1, 2, 3], &opts);
    assert_eq!(c.stream_bytes(), &vec![1, 2, 3]);
    c.save().unwrap();
    let s = c.into_stream();
    assert_eq!(s.len(), 40);
    assert_eq!(s[3], b'T');
    assert_eq!(s[24], 7);
}

#[test]
fn seek_before_start_is_refused() {
    let mut c = Container::create(Vec::new(), &bpx_create_options_default());
    let h = c.section_create(&SectionOptions::default_options()).unwrap();
    c.section_write(h, &[1, 2, 3, 4]).unwrap();
    assert_eq!(c.section_seek(h, CSeekFrom::End, -5).err(), Some(Error::Io(IoErrorKind::InvalidSeek)));
    assert_eq!(c.section_seek(h, CSeekFrom::End, -1).unwrap(), 3);
    assert_eq!(c.section_seek(h, CSeekFrom::Current, -2).unwrap(), 1);
    assert_eq!(c.section_read(h, 10).unwrap(), vec![2, 3, 4]);
}

#[test]
fn section_options_decode_flags() {
    let s = SectionOptions { ty: 4, flags: FLAG_CHECK_WEAK | FLAG_CHECK_CRC32 | FLAG_COMPRESS_ZLIB | FLAG_COMPRESS_XZ, compression_threshold: 10 }
        .to_options();
    assert_eq!(s.ty, 4);
    assert_eq!(s.checksum, Checksum::Crc32);
    assert_eq!(s.compression, CompressionMethod::Xz);
    assert_eq!(s.threshold, Some(10));
    let s = SectionOptions { ty: 0, flags: FLAG_CHECK_WEAK, compression_threshold: 10 }.to_options();
    assert_eq!(s.checksum, Checksum::Weak);
    assert_eq!(s.compression, CompressionMethod::Uncompressed);
    assert_eq!(s.threshold, None);
    assert_eq!(SectionOptions::default_options().to_options().threshold, None);
    let b = BPXSectionOptions { ty: 1, flags: FLAG_COMPRESS_ZLIB, compression_threshold: 77 }.to_options();
    assert_eq!(b.compression, CompressionMethod::Zlib);
    assert_eq!(b.checksum, Checksum::Unchecked);
    assert_eq!(b.threshold, Some(77));
}

#[test]
fn section_header_view() {
    let h = SectionHeader { pointer: 9, csize: 8, size: 7, chksum: 6, ty: 5, flags: 4 };
    let v = BPXSectionHeader::from_header(&h);
    assert_eq!(v, BPXSectionHeader { pointer: 9, csize: 8, size: 7, checksum: 6, ty: 5, flags: 4 });
}

#[test]
fn load_reports_checksum_mismatch() {
    let (mut stream, h) = saved_with(FLAG_CHECK_WEAK, -1, &sample(12));
    stream[62] = stream[62].wrapping_add(1);
    let mut c = Container::open(stream, &bpx_open_options_default()).unwrap();
    assert_eq!(c.section_load(h).err(), Some(Error::Format(FormatCheck::SectionChecksum)));
    let (stream, h) = saved_with(FLAG_CHECK_WEAK, -1, &sample(12));
    let mut c = Container::open(stream, &bpx_open_options_default()).unwrap();
    assert!(c.section_load(h).is_ok());
    assert_eq!(c.section_load(Handle::from_raw(99)).err(), Some(Error::NotFound));
}

#[test]
fn shifting_a_section_in_place() {
    let mut c = Container::create(Vec::new(), &bpx_create_options_default());
    let h = c.section_create(&SectionOptions::default_options()).unwrap();
    c.section_write(h, &[1, 2, 3, 4]).unwrap();
    c.section_seek(h, CSeekFrom::Start, 2).unwrap();
    c.section_shift(h, bpx_store::section::ShiftTo::Right(3)).unwrap();
    assert_eq!(c.section_size(h).unwrap(), 7);
    c.section_seek(h, CSeekFrom::Start, 0).unwrap();
    assert_eq!(c.section_read(h, 10).unwrap(), vec![1, 2, 0, 0, 0, 3, 4]);
    c.section_seek(h, CSeekFrom::Start, 2).unwrap();
    c.section_shift(h, bpx_store::section::ShiftTo::Left(3)).unwrap();
    c.section_seek(h, CSeekFrom::Start, 0).unwrap();
    assert_eq!(c.section_read(h, 10).unwrap(), vec![1, 2, 3, 4]);
    assert_eq!(
        c.section_shift(h, bpx_store::section::ShiftTo::Left(1)).err(),
        Some(Error::Io(IoErrorKind::ShiftOutOfRange))
    );
}

#[test]
fn policy_flags_are_kept() {
    let mut opts = bpx_create_options_default();
    opts.flags = bpx_store::options::FLAG_REVERT_ON_SAVE_FAIL;
    opts.memory_threshold = 1234;
    let c = Container::create(Vec::new(), &opts);
    assert!(c.revert_on_save_failure());
    assert_eq!(c.memory_threshold(), 1234);
    let (stream, _) = saved_with(FLAG_CHECK_WEAK, -1, &[1]);
    let d = Container::open(stream, &bpx_open_options_default()).unwrap();
    assert!(!d.revert_on_save_failure());
}

#[test]
fn handles_follow_creation_order_across_save() {
    let mut c = Container::create(Vec::new(), &bpx_create_options_default());
    let opts = SectionOptions { ty: 0, flags: FLAG_CHECK_WEAK | FLAG_COMPRESS_ZLIB, compression_threshold: 0 };
    let a = c.section_create(&opts).unwrap();
    let b = c.section_create(&opts).unwrap();
    assert_eq!((a.into_raw(), b.into_raw()), (0, 1));
    c.section_write(a, &sample(300)).unwrap();
    c.section_write(b, &sample(7)).unwrap();
    c.save().unwrap();
    assert_eq!(c.sections()[0].header.size, 300);
    assert_eq!(c.sections()[1].header.pointer as usize, 40 + 44 + c.sections()[0].header.csize as usize);
    let mut d = Container::open(c.into_stream(), &bpx_open_options_default()).unwrap();
    assert_eq!(d.section_size(a).unwrap(), 300);
    assert_eq!(d.section_size(b).unwrap(), 7);
    d.section_remove(a).unwrap();
    let e = d.section_create(&opts).unwrap();
    assert_eq!(e.into_raw(), 2);
}
