use bpx_store::error::{Error, IoErrorKind};
use bpx_store::section::{CSeekFrom, SectionData, ShiftTo};

#[test]
fn shift_right_then_left_restores() {
    let initial: Vec<u8> = (0u8..20).collect();
    for p in [0usize, 5, 20] {
        for l in [0usize, 1, 7] {
            let mut s = SectionData::from_bytes(initial.clone());
            s.seek(CSeekFrom::Start, p as i64).unwrap();
            s.shift(ShiftTo::Right(l)).unwrap();
            assert_eq!(s.size(), 20 + l);
            s.shift(ShiftTo::Left(l)).unwrap();
            assert_eq!(s.as_bytes(), &initial);
            assert_eq!(s.size(), 20);
            assert_eq!(s.position(), p);
        }
    }
}

#[test]
fn shift_right_inserts_zeros_at_cursor() {
    let mut s = SectionData::from_bytes(vec![1, 2, 3]);
    s.seek(CSeekFrom::Start, 1).unwrap();
    s.shift(ShiftTo::Right(2)).unwrap();
    assert_eq!(s.as_bytes(), &vec![1, 0, 0, 2, 3]);
    s.shift(ShiftTo::Left(1)).unwrap();
    assert_eq!(s.as_bytes(), &vec![1, 0, 2, 3]);
}

#[test]
fn shift_past_the_end_is_an_error() {
    let mut s = SectionData::from_bytes(vec![1, 2, 3]);
    s.seek(CSeekFrom::Start, 2).unwrap();
    assert_eq!(s.shift(ShiftTo::Left(2)).err(), Some(Error::Io(IoErrorKind::ShiftOutOfRange)));
    assert_eq!(s.as_bytes(), &vec![1, 2, 3]);
    s.seek(CSeekFrom::Start, 5).unwrap();
    assert_eq!(s.shift(ShiftTo::Right(1)).err(), Some(Error::Io(IoErrorKind::ShiftOutOfRange)));
}

#[test]
fn write_past_end_fills_gap_with_zeros() {
    let mut s = SectionData::new();
    s.seek(CSeekFrom::Start, 3).unwrap();
    assert_eq!(s.write(&[7, 8]).unwrap(), 2);
    assert_eq!(s.as_bytes(), &vec![0, 0, 0, 7, 8]);
    assert_eq!(s.position(), 5);
    s.seek(CSeekFrom::Start, 1).unwrap();
    s.write(&[5]).unwrap();
    assert_eq!(s.as_bytes(), &vec![0, 5, 0, 7, 8]);
}

#[test]
fn read_stops_at_end() {
    let mut s = SectionData::from_bytes(vec![1, 2, 3, 4]);
    assert_eq!(s.read(3), vec![1, 2, 3]);
    assert_eq!(s.read(3), vec![4]);
    assert_eq!(s.read(3), Vec::<u8>::new());
    s.seek(CSeekFrom::Start, 10).unwrap();
    assert_eq!(s.read(1), Vec::<u8>::new());
}

#[test]
fn seek_origins() {
    let mut s = SectionData::from_bytes(vec![0; 10]);
    assert_eq!(s.seek(CSeekFrom::Start, 4).unwrap(), 4);
    assert_eq!(s.seek(CSeekFrom::Current, 3).unwrap(), 7);
    assert_eq!(s.seek(CSeekFrom::Current, -7).unwrap(), 0);
    assert_eq!(s.seek(CSeekFrom::End, -2).unwrap(), 8);
    assert_eq!(s.seek(CSeekFrom::Current, -9).err(), Some(Error::Io(IoErrorKind::InvalidSeek)));
    assert_eq!(s.position(), 8);
}
