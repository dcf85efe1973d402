use vstd::prelude::*;

use crate::error::NbtError;

verus! {

/// The two bytes of `x`, most significant first.
pub open spec fn be16(x: u16) -> Seq<u8> {
    seq![(x >> 8u16) as u8, x as u8]
}

/// The four bytes of `x`, most significant first.
pub open spec fn be32(x: u32) -> Seq<u8> {
    seq![(x >> 24u32) as u8, (x >> 16u32) as u8, (x >> 8u32) as u8, x as u8]
}

/// The eight bytes of `x`, most significant first.
pub open spec fn be64(x: u64) -> Seq<u8> {
    seq![
        (x >> 56u64) as u8,
        (x >> 48u64) as u8,
        (x >> 40u64) as u8,
        (x >> 32u64) as u8,
        (x >> 24u64) as u8,
        (x >> 16u64) as u8,
        (x >> 8u64) as u8,
        x as u8,
    ]
}

/// The number whose big-endian form starts `b`.
pub open spec fn from_be16(b: Seq<u8>) -> u16 {
    ((b[0] as u16) << 8u16) | (b[1] as u16)
}

pub open spec fn from_be32(b: Seq<u8>) -> u32 {
    ((b[0] as u32) << 24u32) | ((b[1] as u32) << 16u32) | ((b[2] as u32) << 8u32) | (b[3] as u32)
}

pub open spec fn from_be64(b: Seq<u8>) -> u64 {
    ((b[0] as u64) << 56u64) | ((b[1] as u64) << 48u64) | ((b[2] as u64) << 40u64) | ((b[3] as u64)
        << 32u64) | ((b[4] as u64) << 24u64) | ((b[5] as u64) << 16u64) | ((b[6] as u64) << 8u64)
        | (b[7] as u64)
}

/// Reading back a written 16-bit number, and writing back read bytes.
pub proof fn lemma_be16(x: u16, b: Seq<u8>)
    ensures
        from_be16(be16(x)) == x,
        b.len() == 2 ==> be16(from_be16(b)) == b,
{
    let y = from_be16(be16(x));
    assert(y == x) by {
        assert((((x >> 8u16) as u8 as u16) << 8u16) | (x as u8 as u16) == x) by (bit_vector);
    }
    if b.len() == 2 {
        let (b0, b1) = (b[0], b[1]);
        let v = ((b0 as u16) << 8u16) | (b1 as u16);
        assert((v >> 8u16) as u8 == b0 && v as u8 == b1) by (bit_vector)
            requires
                v == ((b0 as u16) << 8u16) | (b1 as u16),
        ;
        assert(be16(from_be16(b)) =~= b);
    }
}

pub proof fn lemma_be32(x: u32, b: Seq<u8>)
    ensures
        from_be32(be32(x)) == x,
        b.len() == 4 ==> be32(from_be32(b)) == b,
{
    assert(((((x >> 24u32) as u8 as u32) << 24u32) | (((x >> 16u32) as u8 as u32) << 16u32) | (((x
        >> 8u32) as u8 as u32) << 8u32) | (x as u8 as u32)) == x) by (bit_vector);
    if b.len() == 4 {
        let (b0, b1, b2, b3) = (b[0], b[1], b[2], b[3]);
        let v = ((b0 as u32) << 24u32) | ((b1 as u32) << 16u32) | ((b2 as u32) << 8u32) | (
        b3 as u32);
        assert((v >> 24u32) as u8 == b0 && (v >> 16u32) as u8 == b1 && (v >> 8u32) as u8 == b2
            && v as u8 == b3) by (bit_vector)
            requires
                v == ((b0 as u32) << 24u32) | ((b1 as u32) << 16u32) | ((b2 as u32) << 8u32) | (
                b3 as u32),
        ;
        assert(be32(from_be32(b)) =~= b);
    }
}

pub proof fn lemma_be64(x: u64, b: Seq<u8>)
    ensures
        from_be64(be64(x)) == x,
        b.len() == 8 ==> be64(from_be64(b)) == b,
{
    assert(((((x >> 56u64) as u8 as u64) << 56u64) | (((x >> 48u64) as u8 as u64) << 48u64) | (((x
        >> 40u64) as u8 as u64) << 40u64) | (((x >> 32u64) as u8 as u64) << 32u64) | (((x
        >> 24u64) as u8 as u64) << 24u64) | (((x >> 16u64) as u8 as u64) << 16u64) | (((x
        >> 8u64) as u8 as u64) << 8u64) | (x as u8 as u64)) == x) by (bit_vector);
    if b.len() == 8 {
        let (b0, b1, b2, b3, b4, b5, b6, b7) = (b[0], b[1], b[2], b[3], b[4], b[5], b[6], b[7]);
        let v = ((b0 as u64) << 56u64) | ((b1 as u64) << 48u64) | ((b2 as u64) << 40u64) | ((
        b3 as u64) << 32u64) | ((b4 as u64) << 24u64) | ((b5 as u64) << 16u64) | ((b6 as u64)
            << 8u64) | (b7 as u64);
        assert((v >> 56u64) as u8 == b0 && (v >> 48u64) as u8 == b1 && (v >> 40u64) as u8 == b2
            && (v >> 32u64) as u8 == b3 && (v >> 24u64) as u8 == b4 && (v >> 16u64) as u8 == b5
            && (v >> 8u64) as u8 == b6 && v as u8 == b7) by (bit_vector)
            requires
                v == ((b0 as u64) << 56u64) | ((b1 as u64) << 48u64) | ((b2 as u64) << 40u64) | ((
                b3 as u64) << 32u64) | ((b4 as u64) << 24u64) | ((b5 as u64) << 16u64) | ((
                b6 as u64) << 8u64) | (b7 as u64),
        ;
        assert(be64(from_be64(b)) =~= b);
    }
}

/// A forward-only cursor over an owned byte buffer.
pub struct Reader {
    pub data: Vec<u8>,
    pub idx: usize,
}

impl Reader {
    /// At least `n` bytes remain after the cursor.
    pub open spec fn has(&self, n: int) -> bool {
        self.idx + n <= self.data@.len()
    }

    /// The `n` bytes after the cursor.
    pub open spec fn ahead(&self, n: int) -> Seq<u8> {
        self.data@.subrange(self.idx as int, self.idx + n)
    }

    /// The bytes from the cursor to the end of the buffer.
    pub open spec fn rest(&self) -> Seq<u8> {
        if self.idx <= self.data@.len() {
            self.data@.subrange(self.idx as int, self.data@.len() as int)
        } else {
            seq![]
        }
    }

    /// What a consuming read of `n` bytes leaves behind: the cursor moved by
    /// `n` on success, untouched on failure, and the buffer unchanged.
    pub open spec fn advanced<T>(&self, after: &Reader, n: int, r: Result<T, NbtError>) -> bool {
        &&& after.data@ == self.data@
        &&& if self.has(n) {
            r is Ok && after.idx == self.idx + n
        } else {
            r == Err::<T, NbtError>(NbtError::OutOfBounds(self.idx)) && after.idx == self.idx
        }
    }

    /// A cursor at the start of `data`.
    pub fn new(data: Vec<u8>) -> (r: Self)
        ensures
            r.data@ == data@,
            r.idx == 0,
    {
        Reader { data, idx: 0 }
    }

    /// The cursor's offset.
    pub fn get_idx(&self) -> (r: usize)
        ensures
            r == self.idx,
    {
        self.idx
    }

    /// Moves the cursor over `n` bytes and returns where they start.
    fn skip(&mut self, n: usize) -> (r: Result<usize, NbtError>)
        ensures
            old(self).advanced(&*final(self), n as int, r),
            r is Ok ==> r->Ok_0 == old(self).idx,
    {
        if self.idx <= self.data.len() && self.data.len() - self.idx >= n {
            let start = self.idx;
            self.idx = self.idx + n;
            Ok(start)
        } else {
            Err(NbtError::OutOfBounds(self.idx))
        }
    }

    /// Reads the next `n` bytes.
    pub fn read_bytes(&mut self, n: usize) -> (r: Result<Vec<u8>, NbtError>)
        ensures
            old(self).advanced(&*final(self), n as int, r),
            r is Ok ==> r->Ok_0@ == old(self).ahead(n as int),
    {
        let start = self.skip(n)?;
        let mut out: Vec<u8> = Vec::new();
        let mut i: usize = 0;
        while i < n
            invariant
                i <= n,
                start + n <= self.data@.len(),
                self.idx == start + n,
                out@ == self.data@.subrange(start as int, start + i),
            decreases n - i,
        {
            out.push(self.data[start + i]);
            assert(out@ =~= self.data@.subrange(start as int, start + i + 1));
            i = i + 1;
        }
        Ok(out)
    }

    /// Reads one byte.
    pub fn read(&mut self) -> (r: Result<u8, NbtError>)
        ensures
            old(self).advanced(&*final(self), 1, r),
            r is Ok ==> r->Ok_0 == old(self).data@[old(self).idx as int],
    {
        let i = self.skip(1)?;
        Ok(self.data[i])
    }

    /// Reads one byte as a signed number.
    pub fn read_byte(&mut self) -> (r: Result<i8, NbtError>)
        ensures
            old(self).advanced(&*final(self), 1, r),
            r is Ok ==> r->Ok_0 == old(self).data@[old(self).idx as int] as i8,
    {
        let b = self.read()?;
        Ok(b as i8)
    }

    fn read_u16(&mut self) -> (r: Result<u16, NbtError>)
        ensures
            old(self).advanced(&*final(self), 2, r),
            r is Ok ==> r->Ok_0 == from_be16(old(self).ahead(2)),
    {
        let i = self.skip(2)?;
        Ok(((self.data[i] as u16) << 8u16) | (self.data[i + 1] as u16))
    }

    fn read_u32(&mut self) -> (r: Result<u32, NbtError>)
        ensures
            old(self).advanced(&*final(self), 4, r),
            r is Ok ==> r->Ok_0 == from_be32(old(self).ahead(4)),
    {
        let i = self.skip(4)?;
        Ok(((self.data[i] as u32) << 24u32) | ((self.data[i + 1] as u32) << 16u32) | ((self.data[i
            + 2] as u32) << 8u32) | (self.data[i + 3] as u32))
    }

    fn read_u64(&mut self) -> (r: Result<u64, NbtError>)
        ensures
            old(self).advanced(&*final(self), 8, r),
            r is Ok ==> r->Ok_0 == from_be64(old(self).ahead(8)),
    {
        let i = self.skip(8)?;
        let d = &self.data;
        Ok(((d[i] as u64) << 56u64) | ((d[i + 1] as u64) << 48u64) | ((d[i + 2] as u64) << 40u64)
            | ((d[i + 3] as u64) << 32u64) | ((d[i + 4] as u64) << 24u64) | ((d[i + 5] as u64)
            << 16u64) | ((d[i + 6] as u64) << 8u64) | (d[i + 7] as u64))
    }

    /// Reads a big-endian signed 16-bit number.
    pub fn read_short(&mut self) -> (r: Result<i16, NbtError>)
        ensures
            old(self).advanced(&*final(self), 2, r),
            r is Ok ==> r->Ok_0 == from_be16(old(self).ahead(2)) as i16,
    {
        let v = self.read_u16()?;
        Ok(v as i16)
    }

    /// Reads a big-endian signed 32-bit number.
    pub fn read_int(&mut self) -> (r: Result<i32, NbtError>)
        ensures
            old(self).advanced(&*final(self), 4, r),
            r is Ok ==> r->Ok_0 == from_be32(old(self).ahead(4)) as i32,
    {
        let v = self.read_u32()?;
        Ok(v as i32)
    }

    /// Reads a big-endian signed 64-bit number.
    pub fn read_long(&mut self) -> (r: Result<i64, NbtError>)
        ensures
            old(self).advanced(&*final(self), 8, r),
            r is Ok ==> r->Ok_0 == from_be64(old(self).ahead(8)) as i64,
    {
        let v = self.read_u64()?;
        Ok(v as i64)
    }

    /// Reads a 32-bit IEEE-754 value, returned as its bit pattern.
    pub fn read_float(&mut self) -> (r: Result<u32, NbtError>)
        ensures
            old(self).advanced(&*final(self), 4, r),
            r is Ok ==> r->Ok_0 == from_be32(old(self).ahead(4)),
    {
        self.read_u32()
    }

    /// Reads a 64-bit IEEE-754 value, returned as its bit pattern.
    pub fn read_double(&mut self) -> (r: Result<u64, NbtError>)
        ensures
            old(self).advanced(&*final(self), 8, r),
            r is Ok ==> r->Ok_0 == from_be64(old(self).ahead(8)),
    {
        self.read_u64()
    }

    /// The byte under the cursor, which stays where it is.
    pub fn peek(&self) -> (r: Result<u8, NbtError>)
        ensures
            r == (if self.has(1) {
                Ok::<u8, NbtError>(self.data@[self.idx as int])
            } else {
                Err(NbtError::OutOfBounds(self.idx))
            }),
    {
        if self.idx < self.data.len() {
            Ok(self.data[self.idx])
        } else {
            Err(NbtError::OutOfBounds(self.idx))
        }
    }
}

} // verus!
