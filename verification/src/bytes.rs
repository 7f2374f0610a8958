//! Little-endian integers in byte strings.

use vstd::prelude::*;

use crate::error::{Error, Invalid};

verus! {

/// The four bytes of a 32-bit integer, the least significant first.
pub open spec fn le32(x: u32) -> Seq<u8> {
    seq![
        (x % 256) as u8,
        (x / 256 % 256) as u8,
        (x / 65536 % 256) as u8,
        (x / 16777216) as u8,
    ]
}

/// The two bytes of a 16-bit integer, the least significant first.
pub open spec fn le16(x: u16) -> Seq<u8> {
    seq![(x % 256) as u8, (x / 256) as u8]
}

/// The 32-bit integer in the four bytes from position `p` on.
pub open spec fn u32_at(s: Seq<u8>, p: int) -> u32 {
    (s[p] + 256 * s[p + 1] + 65536 * s[p + 2] + 16777216 * s[p + 3]) as u32
}

/// The 16-bit integer in the two bytes from position `p` on.
pub open spec fn u16_at(s: Seq<u8>, p: int) -> u16 {
    (s[p] + 256 * s[p + 1]) as u16
}

/// The bytes of a sequence of 32-bit integers, one after the other.
pub open spec fn le32_all(xs: Seq<u32>) -> Seq<u8>
    decreases xs.len(),
{
    if xs.len() == 0 {
        Seq::empty()
    } else {
        le32_all(xs.drop_last()) + le32(xs.last())
    }
}

/// The 32-bit integers in a byte string, `n` of them from position `p` on.
pub open spec fn u32s_at(s: Seq<u8>, p: int, n: nat) -> Seq<u32> {
    Seq::new(n, |i: int| u32_at(s, p + 4 * i))
}

/// The bytes of an integer, wherever they stand, read as that integer.
pub proof fn law_le32_round_trip(x: u32, pre: Seq<u8>, post: Seq<u8>)
    ensures
        le32(x).len() == 4,
        u32_at(pre + le32(x) + post, pre.len() as int) == x,
{
    let s = pre + le32(x) + post;
    let p = pre.len() as int;
    assert(s[p] == le32(x)[0]);
    assert(s[p + 1] == le32(x)[1]);
    assert(s[p + 2] == le32(x)[2]);
    assert(s[p + 3] == le32(x)[3]);
}

/// The bytes of a short integer, wherever they stand, read as that integer.
pub proof fn law_le16_round_trip(x: u16, pre: Seq<u8>, post: Seq<u8>)
    ensures
        le16(x).len() == 2,
        u16_at(pre + le16(x) + post, pre.len() as int) == x,
{
    let s = pre + le16(x) + post;
    let p = pre.len() as int;
    assert(s[p] == le16(x)[0]);
    assert(s[p + 1] == le16(x)[1]);
}

/// The bytes of a sequence of integers, wherever they stand, read as that sequence.
pub proof fn law_le32_all_round_trip(xs: Seq<u32>, pre: Seq<u8>, post: Seq<u8>)
    ensures
        le32_all(xs).len() == 4 * xs.len(),
        u32s_at(pre + le32_all(xs) + post, pre.len() as int, xs.len()) == xs,
    decreases xs.len(),
{
    if xs.len() > 0 {
        let init = xs.drop_last();
        let s = pre + le32_all(xs) + post;
        law_le32_all_round_trip(init, pre, le32(xs.last()) + post);
        assert(s =~= pre + le32_all(init) + (le32(xs.last()) + post));
        law_le32_round_trip(xs.last(), pre + le32_all(init), post);
        assert(s =~= (pre + le32_all(init)) + le32(xs.last()) + post);
        let got = u32s_at(s, pre.len() as int, xs.len());
        assert forall|i: int| 0 <= i < xs.len() implies got[i] == xs[i] by {
            if i < init.len() {
                assert(u32s_at(s, pre.len() as int, init.len())[i] == init[i]);
            }
        }
        assert(got =~= xs);
    } else {
        assert(u32s_at(pre + le32_all(xs) + post, pre.len() as int, xs.len()) =~= xs);
    }
}

/// Appends the four bytes of an integer.
pub fn push_u32(out: &mut Vec<u8>, x: u32)
    ensures
        final(out)@ == old(out)@ + le32(x),
{
    out.push((x % 256) as u8);
    out.push((x / 256 % 256) as u8);
    out.push((x / 65536 % 256) as u8);
    out.push((x / 16777216) as u8);
}

/// Appends the two bytes of a short integer.
pub fn push_u16(out: &mut Vec<u8>, x: u16)
    ensures
        final(out)@ == old(out)@ + le16(x),
{
    out.push((x % 256) as u8);
    out.push((x / 256) as u8);
}

/// Appends a byte string.
pub fn push_bytes(out: &mut Vec<u8>, bytes: &[u8])
    ensures
        final(out)@ == old(out)@ + bytes@,
{
    let ghost before = out@;
    out.extend_from_slice(bytes);
    assert(out@ =~= before + bytes@);
}

/// Appends the bytes of a sequence of integers.
pub fn push_u32s(out: &mut Vec<u8>, xs: &[u32])
    ensures
        final(out)@ == old(out)@ + le32_all(xs@),
{
    let ghost before = out@;
    let mut i: usize = 0;
    while i < xs.len()
        invariant
            i <= xs.len(),
            out@ == before + le32_all(xs@.take(i as int)),
        decreases xs.len() - i,
    {
        push_u32(out, xs[i]);
        assert(xs@.take(i + 1).drop_last() =~= xs@.take(i as int));
        assert(xs@.take(i + 1).last() == xs@[i as int]);
        assert(out@ =~= before + le32_all(xs@.take(i + 1)));
        i = i + 1;
    }
    assert(xs@.take(xs@.len() as int) =~= xs@);
}

/// Reads integers off a byte string, from its start to its end.
pub struct Reader<'a> {
    buf: &'a [u8],
    pos: usize,
}

impl<'a> Reader<'a> {
    /// The byte string.
    pub closed spec fn bytes_spec(&self) -> Seq<u8> {
        self.buf@
    }

    /// How many bytes have been read.
    pub closed spec fn at(&self) -> int {
        self.pos as int
    }

    /// The position is within the byte string.
    pub open spec fn valid(&self) -> bool {
        0 <= self.at() <= self.bytes_spec().len()
    }

    /// A reader at the start of a byte string.
    pub fn new(buf: &'a [u8]) -> (r: Self)
        ensures
            r.valid(),
            r.bytes_spec() == buf@,
            r.at() == 0,
    {
        Reader { buf, pos: 0 }
    }

    /// How many bytes are left.
    pub fn remaining(&self) -> (n: usize)
        requires
            self.valid(),
        ensures
            n == self.bytes_spec().len() - self.at(),
    {
        self.buf.len() - self.pos
    }

    /// The next `n` bytes; fails where fewer are left.
    pub fn take(&mut self, n: usize) -> (r: Result<&'a [u8], Error>)
        requires
            old(self).valid(),
        ensures
            final(self).valid(),
            final(self).bytes_spec() == old(self).bytes_spec(),
            match r {
                Ok(b) => {
                    &&& old(self).at() + n <= old(self).bytes_spec().len()
                    &&& final(self).at() == old(self).at() + n
                    &&& b@ == old(self).bytes_spec().subrange(old(self).at(), old(self).at() + n)
                },
                Err(e) => {
                    &&& old(self).at() + n > old(self).bytes_spec().len()
                    &&& e == Error::Invalid(Invalid::IndexTruncated)
                    &&& *final(self) == *old(self)
                },
            },
    {
        if self.buf.len() - self.pos < n {
            return Err(Error::Invalid(Invalid::IndexTruncated));
        }
        let start = self.pos;
        self.pos = self.pos + n;
        Ok(vstd::slice::slice_subrange(self.buf, start, start + n))
    }

    /// The next four bytes as an integer.
    pub fn u32(&mut self) -> (r: Result<u32, Error>)
        requires
            old(self).valid(),
        ensures
            final(self).valid(),
            final(self).bytes_spec() == old(self).bytes_spec(),
            match r {
                Ok(x) => {
                    &&& old(self).at() + 4 <= old(self).bytes_spec().len()
                    &&& final(self).at() == old(self).at() + 4
                    &&& x == u32_at(old(self).bytes_spec(), old(self).at())
                },
                Err(e) => {
                    &&& old(self).at() + 4 > old(self).bytes_spec().len()
                    &&& e == Error::Invalid(Invalid::IndexTruncated)
                    &&& *final(self) == *old(self)
                },
            },
    {
        let b = self.take(4)?;
        Ok(b[0] as u32 + 256 * b[1] as u32 + 65536 * b[2] as u32 + 16777216 * b[3] as u32)
    }

    /// The next four bytes as a signed integer.
    pub fn i32(&mut self) -> (r: Result<i32, Error>)
        requires
            old(self).valid(),
        ensures
            final(self).valid(),
            final(self).bytes_spec() == old(self).bytes_spec(),
            match r {
                Ok(x) => {
                    &&& old(self).at() + 4 <= old(self).bytes_spec().len()
                    &&& final(self).at() == old(self).at() + 4
                    &&& x == u32_at(old(self).bytes_spec(), old(self).at()) as i32
                },
                Err(e) => {
                    &&& old(self).at() + 4 > old(self).bytes_spec().len()
                    &&& e == Error::Invalid(Invalid::IndexTruncated)
                    &&& *final(self) == *old(self)
                },
            },
    {
        let x = self.u32()?;
        Ok(
            #[verifier::truncate]
            (x as i32),
        )
    }

    /// The next two bytes as a short integer.
    pub fn u16(&mut self) -> (r: Result<u16, Error>)
        requires
            old(self).valid(),
        ensures
            final(self).valid(),
            final(self).bytes_spec() == old(self).bytes_spec(),
            match r {
                Ok(x) => {
                    &&& old(self).at() + 2 <= old(self).bytes_spec().len()
                    &&& final(self).at() == old(self).at() + 2
                    &&& x == u16_at(old(self).bytes_spec(), old(self).at())
                },
                Err(e) => {
                    &&& old(self).at() + 2 > old(self).bytes_spec().len()
                    &&& e == Error::Invalid(Invalid::IndexTruncated)
                    &&& *final(self) == *old(self)
                },
            },
    {
        let b = self.take(2)?;
        Ok(b[0] as u16 + 256 * b[1] as u16)
    }

    /// The next byte.
    pub fn u8(&mut self) -> (r: Result<u8, Error>)
        requires
            old(self).valid(),
        ensures
            final(self).valid(),
            final(self).bytes_spec() == old(self).bytes_spec(),
            match r {
                Ok(x) => {
                    &&& old(self).at() + 1 <= old(self).bytes_spec().len()
                    &&& final(self).at() == old(self).at() + 1
                    &&& x == old(self).bytes_spec()[old(self).at()]
                },
                Err(e) => {
                    &&& old(self).at() + 1 > old(self).bytes_spec().len()
                    &&& e == Error::Invalid(Invalid::IndexTruncated)
                    &&& *final(self) == *old(self)
                },
            },
    {
        let b = self.take(1)?;
        Ok(b[0])
    }
}

/// The bytes of integers come the least significant first.
pub proof fn law_le_bytes(x: u32, y: u16)
    ensures
        le32(x).len() == 4,
        x == le32(x)[0] + 256 * le32(x)[1] + 65536 * le32(x)[2] + 16777216 * le32(x)[3],
        le16(y).len() == 2,
        y == le16(y)[0] + 256 * le16(y)[1],
{
}

} // verus!
