use vstd::prelude::*;
use crate::error::{Error, IoErrorKind};

verus! {

/// The origin of a seek.
#[derive(Debug, Clone, Copy, PartialEq, Eq, Structural)]
pub enum CSeekFrom {
    Start,
    Current,
    End,
}

/// Direction and length of a shift at the cursor.
#[derive(Debug, Clone, Copy, PartialEq, Eq, Structural)]
pub enum ShiftTo {
    /// Removes this many bytes at the cursor.
    Left(usize),
    /// Inserts this many zero bytes at the cursor.
    Right(usize),
}

pub open spec fn zeros(n: nat) -> Seq<u8> {
    Seq::new(n, |i: int| 0u8)
}

/// Where a seek lands, before the check that it is not negative.
pub open spec fn seek_target(from: CSeekFrom, pos: int, cursor: nat, len: nat) -> int {
    match from {
        CSeekFrom::Start => pos,
        CSeekFrom::Current => cursor + pos,
        CSeekFrom::End => len + pos,
    }
}

/// `b` after writing `w` at position `p`; a gap between the end of `b` and `p`
/// reads as zeros.
pub open spec fn write_at(b: Seq<u8>, p: nat, w: Seq<u8>) -> Seq<u8> {
    let n = if b.len() > p + w.len() { b.len() } else { p + w.len() };
    Seq::new(n as nat, |i: int|
        if p <= i < p + w.len() { w[i - p] }
        else if i < b.len() { b[i] }
        else { 0u8 })
}

/// What a read of up to `n` bytes at position `p` returns.
pub open spec fn read_at(b: Seq<u8>, p: nat, n: nat) -> Seq<u8> {
    if p >= b.len() {
        Seq::empty()
    } else if p + n >= b.len() {
        b.subrange(p as int, b.len() as int)
    } else {
        b.subrange(p as int, (p + n) as int)
    }
}

/// `b` with `l` zero bytes inserted at `p`.
pub open spec fn shifted_right(b: Seq<u8>, p: nat, l: nat) -> Seq<u8> {
    b.subrange(0, p as int) + zeros(l) + b.subrange(p as int, b.len() as int)
}

/// `b` with the `l` bytes at `p` removed.
pub open spec fn shifted_left(b: Seq<u8>, p: nat, l: nat) -> Seq<u8> {
    b.subrange(0, p as int) + b.subrange((p + l) as int, b.len() as int)
}

/// Shifting right by `l` at `p`, then left by `l` at `p`, gives back the
/// bytes it started from, and so their size.
pub proof fn lemma_shift_inverse(b: Seq<u8>, p: nat, l: nat)
    requires
        p <= b.len(),
    ensures
        p + l <= shifted_right(b, p, l).len(),
        shifted_left(shifted_right(b, p, l), p, l) == b,
        shifted_left(shifted_right(b, p, l), p, l).len() == b.len(),
{
    let r = shifted_right(b, p, l);
    assert(r.len() == b.len() + l);
    assert(shifted_left(r, p, l) =~= b);
}

/// A decompressed section: a byte buffer with a read/write cursor.
pub struct SectionData {
    data: Vec<u8>,
    cursor: usize,
}

impl SectionData {
    /// The bytes of the section.
    pub closed spec fn bytes(&self) -> Seq<u8> {
        self.data@
    }

    /// The cursor position, which may lie past the end.
    pub closed spec fn pos(&self) -> nat {
        self.cursor as nat
    }

    pub fn new() -> (r: SectionData)
        ensures
            r.bytes() == Seq::<u8>::empty(),
            r.pos() == 0,
    {
        SectionData { data: Vec::new(), cursor: 0 }
    }

    pub fn from_bytes(data: Vec<u8>) -> (r: SectionData)
        ensures
            r.bytes() == data@,
            r.pos() == 0,
    {
        SectionData { data, cursor: 0 }
    }

    pub fn as_bytes(&self) -> (r: &Vec<u8>)
        ensures
            r@ == self.bytes(),
    {
        &self.data
    }

    pub fn size(&self) -> (r: usize)
        ensures
            r == self.bytes().len(),
    {
        self.data.len()
    }

    pub fn position(&self) -> (r: usize)
        ensures
            r == self.pos(),
    {
        self.cursor
    }

    /// Moves the cursor; a target before the start is refused and leaves the
    /// cursor where it was.
    pub fn seek(&mut self, from: CSeekFrom, pos: i64) -> (r: Result<u64, Error>)
        ensures
            final(self).bytes() == old(self).bytes(),
            ({
                let t = seek_target(from, pos as int, old(self).pos(), old(self).bytes().len());
                &&& t < 0 ==> r == Err::<u64, Error>(Error::Io(IoErrorKind::InvalidSeek))
                    && final(self).pos() == old(self).pos()
                &&& 0 <= t <= usize::MAX ==> r == Ok::<u64, Error>(t as u64) && final(self).pos() == t
                &&& t > usize::MAX ==> r == Err::<u64, Error>(Error::Io(IoErrorKind::Overflow))
                    && final(self).pos() == old(self).pos()
            }),
    {
        let base: i128 = match from {
            CSeekFrom::Start => 0,
            CSeekFrom::Current => self.cursor as i128,
            CSeekFrom::End => self.data.len() as i128,
        };
        let t: i128 = base + pos as i128;
        if t < 0 {
            Err(Error::Io(IoErrorKind::InvalidSeek))
        } else if t > usize::MAX as i128 {
            Err(Error::Io(IoErrorKind::Overflow))
        } else {
            self.cursor = t as usize;
            Ok(t as u64)
        }
    }

    /// Reads up to `n` bytes at the cursor and moves the cursor past them.
    pub fn read(&mut self, n: usize) -> (r: Vec<u8>)
        ensures
            r@ == read_at(old(self).bytes(), old(self).pos(), n as nat),
            final(self).bytes() == old(self).bytes(),
            final(self).pos() == old(self).pos() + r@.len(),
    {
        let len = self.data.len();
        let start = self.cursor;
        let avail: usize = if start < len { len - start } else { 0 };
        let take: usize = if n < avail { n } else { avail };
        let s: usize = if start < len { start } else { len };
        let mut out: Vec<u8> = Vec::with_capacity(take);
        let mut i: usize = 0;
        while i < take
            invariant
                take <= avail,
                avail == len - s,
                s <= len == self.data@.len(),
                i <= take,
                out@ == self.data@.subrange(s as int, s + i),
            decreases take - i,
        {
            out.push(self.data[s + i]);
            i = i + 1;
            assert(out@ =~= self.data@.subrange(s as int, s + i));
        }
        self.cursor = start + take;
        assert(out@ =~= read_at(self.data@, start as nat, n as nat));
        out
    }

    /// Writes `buf` at the cursor, growing the section as needed, and moves the
    /// cursor past it.
    pub fn write(&mut self, buf: &[u8]) -> (r: Result<usize, Error>)
        ensures
            old(self).pos() + buf@.len() <= usize::MAX ==> r == Ok::<usize, Error>(buf@.len() as usize)
                && final(self).bytes() == write_at(old(self).bytes(), old(self).pos(), buf@)
                && final(self).pos() == old(self).pos() + buf@.len(),
            old(self).pos() + buf@.len() > usize::MAX ==> r == Err::<usize, Error>(Error::Io(IoErrorKind::Overflow))
                && final(self).bytes() == old(self).bytes() && final(self).pos() == old(self).pos(),
    {
        let p = self.cursor;
        if buf.len() > usize::MAX - p {
            return Err(Error::Io(IoErrorKind::Overflow));
        }
        let ghost b0 = self.data@;
        while self.data.len() < p
            invariant
                b0.len() <= self.data@.len() <= (if b0.len() > p { b0.len() } else { p as nat }),
                forall|k: int| 0 <= k < self.data@.len() ==> self.data@[k] == (if k < b0.len() { b0[k] } else { 0u8 }),
            decreases p - self.data@.len(),
        {
            self.data.push(0u8);
        }
        let mut i: usize = 0;
        while i < buf.len()
            invariant
                p + buf@.len() <= usize::MAX,
                i <= buf@.len(),
                self.data@.len() == (if b0.len() > p + i { b0.len() } else { (p + i) as nat }),
                forall|k: int| 0 <= k < self.data@.len() ==> self.data@[k] == (
                    if p <= k < p + i { buf@[k - p] } else if k < b0.len() { b0[k] } else { 0u8 }),
            decreases buf@.len() - i,
        {
            if p + i < self.data.len() {
                self.data.set(p + i, buf[i]);
            } else {
                self.data.push(buf[i]);
            }
            i = i + 1;
        }
        self.cursor = p + buf.len();
        assert(self.data@ =~= write_at(b0, p as nat, buf@));
        Ok(buf.len())
    }

    /// Inserts (`Right`) or removes (`Left`) bytes at the cursor; the cursor
    /// stays where it is. A cursor past the end, a removal past the end or a
    /// size that does not fit is refused and changes nothing.
    pub fn shift(&mut self, to: ShiftTo) -> (r: Result<(), Error>)
        ensures
            final(self).pos() == old(self).pos(),
            ({
                let b = old(self).bytes();
                let p = old(self).pos();
                match to {
                    ShiftTo::Right(l) => {
                        &&& p <= b.len() && b.len() + l <= usize::MAX ==> r is Ok
                            && final(self).bytes() == shifted_right(b, p, l as nat)
                        &&& p > b.len() ==> r == Err::<(), Error>(Error::Io(IoErrorKind::ShiftOutOfRange))
                        &&& p <= b.len() && b.len() + l > usize::MAX ==> r == Err::<(), Error>(Error::Io(IoErrorKind::Overflow))
                    },
                    ShiftTo::Left(l) => {
                        &&& p + l <= b.len() ==> r is Ok && final(self).bytes() == shifted_left(b, p, l as nat)
                        &&& p + l > b.len() ==> r == Err::<(), Error>(Error::Io(IoErrorKind::ShiftOutOfRange))
                    },
                }
            }),
            r is Err ==> final(self).bytes() == old(self).bytes(),
    {
        let len = self.data.len();
        let p = self.cursor;
        match to {
            ShiftTo::Right(l) => {
                if p > len {
                    return Err(Error::Io(IoErrorKind::ShiftOutOfRange));
                }
                if l > usize::MAX - len {
                    return Err(Error::Io(IoErrorKind::Overflow));
                }
                let mut out: Vec<u8> = Vec::with_capacity(len + l);
                let mut i: usize = 0;
                while i < p
                    invariant
                        p <= len == self.data@.len(),
                        i <= p,
                        out@ == self.data@.subrange(0, i as int),
                    decreases p - i,
                {
                    out.push(self.data[i]);
                    i = i + 1;
                    assert(out@ =~= self.data@.subrange(0, i as int));
                }
                let mut j: usize = 0;
                while j < l
                    invariant
                        p <= len == self.data@.len(),
                        j <= l,
                        out@ == self.data@.subrange(0, p as int) + zeros(j as nat),
                    decreases l - j,
                {
                    out.push(0u8);
                    j = j + 1;
                    assert(out@ =~= self.data@.subrange(0, p as int) + zeros(j as nat));
                }
                let mut k: usize = p;
                while k < len
                    invariant
                        p <= k <= len == self.data@.len(),
                        out@ == self.data@.subrange(0, p as int) + zeros(l as nat)
                            + self.data@.subrange(p as int, k as int),
                    decreases len - k,
                {
                    out.push(self.data[k]);
                    k = k + 1;
                    assert(out@ =~= self.data@.subrange(0, p as int) + zeros(l as nat)
                        + self.data@.subrange(p as int, k as int));
                }
                self.data = out;
                Ok(())
            },
            ShiftTo::Left(l) => {
                if l > len || p > len - l {
                    return Err(Error::Io(IoErrorKind::ShiftOutOfRange));
                }
                let mut out: Vec<u8> = Vec::with_capacity(len - l);
                let mut i: usize = 0;
                while i < p
                    invariant
                        p + l <= len == self.data@.len(),
                        i <= p,
                        out@ == self.data@.subrange(0, i as int),
                    decreases p - i,
                {
                    out.push(self.data[i]);
                    i = i + 1;
                    assert(out@ =~= self.data@.subrange(0, i as int));
                }
                let mut k: usize = p + l;
                while k < len
                    invariant
                        p + l <= k <= len == self.data@.len(),
                        out@ == self.data@.subrange(0, p as int) + self.data@.subrange((p + l) as int, k as int),
                    decreases len - k,
                {
                    out.push(self.data[k]);
                    k = k + 1;
                    assert(out@ =~= self.data@.subrange(0, p as int) + self.data@.subrange((p + l) as int, k as int));
                }
                self.data = out;
                Ok(())
            },
        }
    }
}

} // verus!
