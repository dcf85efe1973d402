//! The recursive decoder.
use vstd::prelude::*;
use vstd::utf8::{decode_utf8, encode_utf8, valid_utf8, decode_utf8_encode_utf8, encode_utf8_valid_utf8};

use crate::container::{gzip_magic, gunzip_result, unpack};
use crate::error::NbtError;
use crate::reader::{Reader, be16, be32, from_be16, from_be32, lemma_be16, lemma_be32, lemma_be64};
use crate::tag::{
    Tag, TagV, views, lemma_views, lemma_views_push, tag_id, payload_bytes, list_bytes, compound_bytes, ints_bytes,
    longs_bytes, named_bytes, payload_wf, compound_wf, entry_wf, top_wf, lemma_list_bytes_push,
    lemma_compound_bytes_push,
};
use crate::unique::{
    is_prefix, payload_decodable, top_decodable, decode_top, lemma_prefix_concat, lemma_prefix_join,
    lemma_skip_skip, lemma_casts, lemma_ints_bytes, lemma_longs_bytes, lemma_entry_first_byte,
    lemma_payload_unique, lemma_list_prefix, lemma_compound_prefix, lemma_top_unique,
    lemma_prefix_trans, lemma_prefix_skip, payload_cut, top_cut, lemma_next_cut, lemma_next_top_cut,
    lemma_decoded_not_cut, lemma_decoded_not_top_cut,
};

verus! {

#[verifier::external_type_specification]
#[verifier::external_body]
pub struct ExFromUtf8Error(std::string::FromUtf8Error);

/// Relies on `String::from_utf8`: it succeeds exactly on valid UTF-8, and
/// the string then holds the characters that the bytes encode.
#[verifier::external_body]
fn string_from_utf8(b: Vec<u8>) -> (r: Result<String, std::string::FromUtf8Error>)
    ensures
        r is Ok <==> valid_utf8(b@),
        r is Ok ==> r->Ok_0@ == decode_utf8(b@),
{
    String::from_utf8(b)
}

/// The signed 32-bit count that starts `s`.
pub open spec fn count_ahead(s: Seq<u8>) -> i32 {
    from_be32(s.take(4)) as i32
}

/// The signed 16-bit string length that starts `s`.
pub open spec fn length_ahead(s: Seq<u8>) -> i16 {
    from_be16(s.take(2)) as i16
}

/// How reading a list at offset `idx`, with `s` unread, fails on its
/// header: out of bounds where the five header bytes are not all there, a
/// malformed length where the count is negative.
pub open spec fn list_errors(s: Seq<u8>, idx: usize, r: Result<Tag, NbtError>) -> bool {
    &&& s.len() < 1 ==> r == Err::<Tag, NbtError>(NbtError::OutOfBounds(idx))
    &&& 1 <= s.len() < 5 ==> r == Err::<Tag, NbtError>(NbtError::OutOfBounds((idx + 1) as usize))
    &&& s.len() >= 5 && (from_be32(s.subrange(1, 5)) as i32) < 0 ==> r == Err::<Tag, NbtError>(
        NbtError::MalformedLength(from_be32(s.subrange(1, 5)) as i32, (idx + 5) as usize),
    )
}

/// The fewest payload bytes that a tag of type id `id` takes.
pub open spec fn min_width(id: i8) -> int {
    if id == 1 {
        1
    } else if id == 2 || id == 8 {
        2
    } else if id == 3 || id == 5 || id == 7 || id == 11 || id == 12 {
        4
    } else if id == 4 || id == 6 {
        8
    } else if id == 9 {
        5
    } else if id == 10 {
        1
    } else {
        0
    }
}

proof fn lemma_min_width(id: i8, t: TagV)
    requires
        payload_wf(id, t),
    ensures
        payload_bytes(t).len() >= min_width(id),
{
    if id == 10 {
        let ts = t->Compound_0;
        assert(compound_wf(ts));
        assert(compound_bytes(ts) == named_bytes(ts[0]) + compound_bytes(ts.drop_first()));
        if !(ts[0] is End) {
            assert(ts.len() > 1);
            assert(entry_wf(ts[0]));
            lemma_entry_first_byte(ts[0]);
        }
    }
}

proof fn lemma_no_room(id: i8, s: Seq<u8>)
    requires
        s.len() < min_width(id),
    ensures
        !payload_decodable(id, s),
{
    if payload_decodable(id, s) {
        let t = choose|t: TagV| payload_wf(id, t) && is_prefix(payload_bytes(t), s);
        lemma_min_width(id, t);
    }
}

/// Reading `n` bytes from `r0` took the start of its rest and left `r1`.
proof fn lemma_rest(r0: Reader, r1: Reader, n: int)
    requires
        0 <= n,
        r0.has(n),
        r1.data@ == r0.data@,
        r1.idx == r0.idx + n,
    ensures
        is_prefix(r0.ahead(n), r0.rest()),
        r0.ahead(n) == r0.rest().take(n),
        r1.rest() == r0.rest().skip(n),
        r0.rest().len() == r0.data@.len() - r0.idx,
{
    assert(r0.ahead(n) =~= r0.rest().take(n));
    assert(r0.rest().subrange(0, n) =~= r0.rest().take(n));
    assert(r1.rest() =~= r0.rest().skip(n));
}

/// A count prefix in front of `body` starts `s`.
proof fn lemma_count_header(n: int, body: Seq<u8>, s: Seq<u8>)
    requires
        0 <= n <= i32::MAX,
        is_prefix(be32(n as u32) + body, s),
    ensures
        s.len() >= 4,
        from_be32(s.take(4)) as i32 == n,
        is_prefix(body, s.skip(4)),
{
    lemma_prefix_concat(be32(n as u32), body, s);
    assert(s.take(4) =~= s.subrange(0, 4));
    lemma_be32(n as u32, seq![]);
}

/// What a decodable array of type id 7, 11 or 12 says of its bytes.
proof fn lemma_array_witness(id: i8, s: Seq<u8>, w: int)
    requires
        payload_decodable(id, s),
        id == 7 && w == 1 || id == 11 && w == 4 || id == 12 && w == 8,
    ensures
        s.len() >= 4,
        from_be32(s.take(4)) as i32 >= 0,
        s.skip(4).len() >= w * (from_be32(s.take(4)) as i32),
{
    let t = choose|t: TagV| payload_wf(id, t) && is_prefix(payload_bytes(t), s);
    match t {
        TagV::ByteArray(b) => lemma_count_header(b.len() as int, b, s),
        TagV::IntArray(xs) => {
            lemma_ints_bytes(xs, xs);
            lemma_count_header(xs.len() as int, ints_bytes(xs), s);
        },
        TagV::LongArray(xs) => {
            lemma_longs_bytes(xs, xs);
            lemma_count_header(xs.len() as int, longs_bytes(xs), s);
        },
        _ => {},
    }
}

/// What a decodable string says of its bytes.
proof fn lemma_str_witness(s: Seq<u8>)
    requires
        payload_decodable(8, s),
    ensures
        s.len() >= 2,
        from_be16(s.take(2)) as i16 >= 0,
        s.skip(2).len() >= from_be16(s.take(2)) as i16,
        valid_utf8(s.skip(2).take(from_be16(s.take(2)) as i16 as int)),
{
    let t = choose|t: TagV| payload_wf(8, t) && is_prefix(payload_bytes(t), s);
    let cs = t->Str_0;
    let b = encode_utf8(cs);
    lemma_prefix_concat(be16(b.len() as u16), b, s);
    assert(s.take(2) =~= s.subrange(0, 2));
    lemma_be16(b.len() as u16, seq![]);
    encode_utf8_valid_utf8(cs);
    assert(s.skip(2).take(b.len() as int) =~= s.skip(2).subrange(0, b.len() as int));
}

/// What a decodable list says of its bytes.
proof fn lemma_list_header(t: TagV, s: Seq<u8>)
    requires
        payload_wf(9, t),
        is_prefix(payload_bytes(t), s),
    ensures
        s.len() >= 5,
        t->List_0 == s[0] as i8,
        t->List_1.len() == from_be32(s.subrange(1, 5)) as i32,
        is_prefix(list_bytes(t->List_1), s.skip(5)),
{
    lemma_casts();
    let (e, ts) = (t->List_0, t->List_1);
    let h = seq![e as u8] + be32(ts.len() as u32);
    assert(payload_bytes(t) == h + list_bytes(ts));
    lemma_prefix_concat(h, list_bytes(ts), s);
    assert(s.subrange(0, 5)[0] == s[0]);
    assert(h[0] == e as u8);
    assert((e as u8) as i8 == e);
    assert(s.subrange(1, 5) =~= be32(ts.len() as u32)) by {
        assert forall|k: int| 0 <= k < 4 implies s.subrange(1, 5)[k] == be32(
            ts.len() as u32,
        )[k] by {
            assert(s.subrange(0, 5)[k + 1] == h[k + 1]);
        }
    }
    lemma_be32(ts.len() as u32, seq![]);
}

/// Decodes tags from an owned buffer.
pub struct NBTParser {
    pub reader: Reader,
}

impl NBTParser {
    pub fn new(data: Vec<u8>) -> (r: Self)
        ensures
            r.reader.data@ == data@,
            r.reader.idx == 0,
    {
        NBTParser { reader: Reader::new(data) }
    }

    /// A parser over `data` as it is read from a file: unpacked first where
    /// it carries the gzip magic.
    pub fn from_file_bytes(data: Vec<u8>) -> (r: Result<Self, NbtError>)
        ensures
            !gzip_magic(data@) ==> r is Ok && r->Ok_0.reader.data@ == data@,
            gzip_magic(data@) ==> (r is Ok <==> gunzip_result(data@) is Some),
            gzip_magic(data@) && r is Ok ==> Some(r->Ok_0.reader.data@) == gunzip_result(data@),
            gzip_magic(data@) && r is Err ==> r->Err_0 == NbtError::Decompression,
            r is Ok ==> r->Ok_0.reader.idx == 0,
    {
        let data = unpack(data)?;
        Ok(NBTParser::new(data))
    }

    /// Reads the payload of a tag of type id `id`: the unique well-formed
    /// one written at the cursor, or an error where there is none.
    pub fn read_tag(&mut self, id: i8) -> (r: Result<Tag, NbtError>)
        ensures
            final(self).reader.data@ == old(self).reader.data@,
            match r {
                Ok(t) => payload_wf(id, t@) && is_prefix(payload_bytes(t@), old(self).reader.rest())
                    && final(self).reader.idx == old(self).reader.idx + payload_bytes(t@).len(),
                Err(_) => !payload_decodable(id, old(self).reader.rest()),
            },
            !(0 <= id <= 12) ==> r == Err::<Tag, NbtError>(
                NbtError::UnknownTagId(id, old(self).reader.idx),
            ) && final(self).reader.idx == old(self).reader.idx,
            id == 9 ==> list_errors(old(self).reader.rest(), old(self).reader.idx, r),
            payload_cut(id, old(self).reader.rest()) && r is Err ==> r->Err_0 is OutOfBounds,
            id == 7 && old(self).reader.rest().len() >= 4 && 0 <= count_ahead(old(self).reader.rest())
                && old(self).reader.rest().len() < 4 + count_ahead(old(self).reader.rest()) ==> r
                == Err::<Tag, NbtError>(NbtError::OutOfBounds((old(self).reader.idx + 4) as usize)),
            id == 8 && old(self).reader.rest().len() >= 2 && 0 <= length_ahead(
                old(self).reader.rest(),
            ) && old(self).reader.rest().len() < 2 + length_ahead(old(self).reader.rest()) ==> r
                == Err::<Tag, NbtError>(NbtError::OutOfBounds((old(self).reader.idx + 2) as usize)),
            id == 11 && old(self).reader.rest().len() >= 4 && 0 <= count_ahead(
                old(self).reader.rest(),
            ) && old(self).reader.rest().len() < 4 + 4 * count_ahead(old(self).reader.rest()) ==> r
                is Err && r->Err_0 is OutOfBounds,
            id == 12 && old(self).reader.rest().len() >= 4 && 0 <= count_ahead(
                old(self).reader.rest(),
            ) && old(self).reader.rest().len() < 4 + 8 * count_ahead(old(self).reader.rest()) ==> r
                is Err && r->Err_0 is OutOfBounds,
            1 <= id <= 8 && old(self).reader.rest().len() < min_width(id) ==> r == Err::<
                Tag,
                NbtError,
            >(NbtError::OutOfBounds(old(self).reader.idx)),
            (id == 7 || id == 11 || id == 12) && old(self).reader.rest().len() >= 4 && count_ahead(
                old(self).reader.rest(),
            ) < 0 ==> r == Err::<Tag, NbtError>(
                NbtError::MalformedLength(
                    count_ahead(old(self).reader.rest()),
                    (old(self).reader.idx + 4) as usize,
                ),
            ),
            id == 8 && old(self).reader.rest().len() >= 2 && length_ahead(old(self).reader.rest())
                < 0 ==> r == Err::<Tag, NbtError>(
                NbtError::MalformedLength(
                    length_ahead(old(self).reader.rest()) as i32,
                    (old(self).reader.idx + 2) as usize,
                ),
            ),
            id == 8 && old(self).reader.rest().len() >= 2 && 0 <= length_ahead(
                old(self).reader.rest(),
            ) && 2 + length_ahead(old(self).reader.rest()) <= old(self).reader.rest().len()
                && !valid_utf8(
                old(self).reader.rest().subrange(2, 2 + length_ahead(old(self).reader.rest())),
            ) ==> r == Err::<Tag, NbtError>(
                NbtError::InvalidEncoding((old(self).reader.idx + 2) as usize),
            ),
        decreases old(self).reader.rest().len(), 2nat,
    {
        let ghost r0 = self.reader;
        let ghost s = r0.rest();
        proof {
            lemma_casts();
        }
        if id == 0 {
            assert(s.subrange(0, 0) =~= payload_bytes(TagV::End));
            return Ok(Tag::End);
        } else if id == 1 {
            return match self.reader.read_byte() {
                Ok(x) => {
                    proof {
                        lemma_rest(r0, self.reader, 1);
                        assert(payload_bytes(TagV::Byte(x)) =~= r0.ahead(1));
                    }
                    Ok(Tag::Byte(x))
                },
                Err(e) => {
                    proof {
                        lemma_no_room(id, s);
                    }
                    Err(e)
                },
            };
        } else if id == 2 {
            return match self.reader.read_short() {
                Ok(x) => {
                    proof {
                        lemma_rest(r0, self.reader, 2);
                        lemma_be16(0, r0.ahead(2));
                        assert(((from_be16(r0.ahead(2)) as i16) as u16) == from_be16(r0.ahead(2)));
                    }
                    Ok(Tag::Short(x))
                },
                Err(e) => {
                    proof {
                        lemma_no_room(id, s);
                    }
                    Err(e)
                },
            };
        } else if id == 3 {
            return match self.reader.read_int() {
                Ok(x) => {
                    proof {
                        lemma_rest(r0, self.reader, 4);
                        lemma_be32(0, r0.ahead(4));
                        assert(((from_be32(r0.ahead(4)) as i32) as u32) == from_be32(r0.ahead(4)));
                    }
                    Ok(Tag::Int(x))
                },
                Err(e) => {
                    proof {
                        lemma_no_room(id, s);
                    }
                    Err(e)
                },
            };
        } else if id == 4 {
            return match self.reader.read_long() {
                Ok(x) => {
                    proof {
                        lemma_rest(r0, self.reader, 8);
                        lemma_be64(0, r0.ahead(8));
                        assert(((crate::reader::from_be64(r0.ahead(8)) as i64) as u64)
                            == crate::reader::from_be64(r0.ahead(8)));
                    }
                    Ok(Tag::Long(x))
                },
                Err(e) => {
                    proof {
                        lemma_no_room(id, s);
                    }
                    Err(e)
                },
            };
        } else if id == 5 {
            return match self.reader.read_float() {
                Ok(x) => {
                    proof {
                        lemma_rest(r0, self.reader, 4);
                        lemma_be32(0, r0.ahead(4));
                    }
                    Ok(Tag::Float(x))
                },
                Err(e) => {
                    proof {
                        lemma_no_room(id, s);
                    }
                    Err(e)
                },
            };
        } else if id == 6 {
            return match self.reader.read_double() {
                Ok(x) => {
                    proof {
                        lemma_rest(r0, self.reader, 8);
                        lemma_be64(0, r0.ahead(8));
                    }
                    Ok(Tag::Double(x))
                },
                Err(e) => {
                    proof {
                        lemma_no_room(id, s);
                    }
                    Err(e)
                },
            };

        } else if id == 7 {
            let n = match self.read_count(id) {
                Ok(n) => n,
                Err(e) => return Err(e),
            };
            let ghost r1 = self.reader;
            proof {
                lemma_rest(r0, r1, 4);
            }
            let bytes = match self.reader.read_bytes(n as usize) {
                Ok(b) => b,
                Err(e) => {
                    proof {
                        if payload_decodable(id, s) {
                            lemma_array_witness(id, s, 1);
                        }
                    }
                    return Err(e);
                },
            };
            proof {
                lemma_rest(r1, self.reader, n as int);
                lemma_be32(0, r0.ahead(4));
                lemma_prefix_join(be32(n as u32), bytes@, s);
                assert(payload_bytes(TagV::ByteArray(bytes@)) == be32(n as u32) + bytes@);
            }
            return Ok(Tag::ByteArray(bytes));
        } else if id == 8 {
            let n = match self.reader.read_short() {
                Ok(n) => n,
                Err(e) => {
                    proof {
                        lemma_no_room(id, s);
                    }
                    return Err(e);
                },
            };
            let ghost r1 = self.reader;
            proof {
                lemma_rest(r0, r1, 2);
            }
            if n < 0 {
                proof {
                    lemma_cut_header(id, s);
                    if payload_decodable(id, s) {
                        lemma_str_witness(s);
                    }
                }
                return Err(NbtError::MalformedLength(n as i32, self.reader.idx));
            }
            let start = self.reader.idx;
            let bytes = match self.reader.read_bytes(n as usize) {
                Ok(b) => b,
                Err(e) => {
                    proof {
                        if payload_decodable(id, s) {
                            lemma_str_witness(s);
                        }
                    }
                    return Err(e);
                },
            };
            let ghost b = bytes@;
            proof {
                lemma_rest(r1, self.reader, n as int);
                assert(b =~= s.subrange(2, 2 + n as int));
            }
            let text = match string_from_utf8(bytes) {
                Ok(text) => text,
                Err(_) => {
                    proof {
                        lemma_cut_header(id, s);
                        if payload_decodable(id, s) {
                            lemma_str_witness(s);
                        }
                    }
                    return Err(NbtError::InvalidEncoding(start));
                },
            };
            proof {
                decode_utf8_encode_utf8(b);
                lemma_be16(0, r0.ahead(2));
                assert(((from_be16(r0.ahead(2)) as i16) as u16) == from_be16(r0.ahead(2)));
                lemma_prefix_join(be16(n as u16), b, s);
                assert(payload_bytes(TagV::Str(text@)) == be16(n as u16) + b);
            }
            return Ok(Tag::String(text));
        } else if id == 9 {
            return self.read_list();
        } else if id == 11 {
            let n = match self.read_count(id) {
                Ok(n) => n,
                Err(e) => return Err(e),
            };
            let ghost r1 = self.reader;
            proof {
                lemma_rest(r0, r1, 4);
            }
            let mut xs: Vec<i32> = Vec::new();
            assert(r1.rest().subrange(0, 0) =~= ints_bytes(xs@));
            proof {
                if payload_decodable(id, s) {
                    lemma_array_witness(id, s, 4);
                }
            }
            let mut k: i32 = 0;
            while k < n
                invariant
                    0 <= k <= n,
                    xs@.len() == k,
                    self.reader.data@ == r1.data@,
                    self.reader.idx == r1.idx + 4 * k,
                    self.reader.idx <= self.reader.data@.len(),
                    r1.rest().skip(4 * k) == self.reader.rest(),
                    is_prefix(ints_bytes(xs@), r1.rest()),
                    id == 11,
                    r1.data@ == r0.data@,
                    r0 == old(self).reader,
                    s == r0.rest(),
                    ints_bytes(xs@).len() == 4 * k,
                    payload_decodable(id, s) ==> r1.rest().len() >= 4 * n,
                    r1.rest() == s.skip(4),
                    s.len() >= 4,
                    n == from_be32(s.take(4)) as i32,
                decreases n - k,
            {
                let ghost rk = self.reader;
                let x = match self.reader.read_int() {
                    Ok(x) => x,
                    Err(e) => {
                        proof {
                            if payload_decodable(id, s) {
                                lemma_array_witness(id, s, 4);
                            }
                        }
                        return Err(e);
                    },
                };
                proof {
                    lemma_casts();
                    lemma_rest(rk, self.reader, 4);
                    lemma_be32(0, rk.ahead(4));
                    assert(((from_be32(rk.ahead(4)) as i32) as u32) == from_be32(rk.ahead(4)));
                    assert(xs@.push(x).drop_last() =~= xs@);
                    lemma_skip_skip(r1.rest(), 4 * k as int, 4);
                    lemma_prefix_join(ints_bytes(xs@), be32(x as u32), r1.rest());
                }
                xs.push(x);
                k = k + 1;
            }
            proof {
                lemma_be32(0, r0.ahead(4));
                lemma_prefix_join(be32(n as u32), ints_bytes(xs@), s);
                assert(payload_bytes(TagV::IntArray(xs@)) == be32(n as u32) + ints_bytes(xs@));
            }
            return Ok(Tag::IntArray(xs));
        } else if id == 12 {
            let n = match self.read_count(id) {
                Ok(n) => n,
                Err(e) => return Err(e),
            };
            let ghost r1 = self.reader;
            proof {
                lemma_rest(r0, r1, 4);
            }
            let mut xs: Vec<i64> = Vec::new();
            assert(r1.rest().subrange(0, 0) =~= longs_bytes(xs@));
            proof {
                if payload_decodable(id, s) {
                    lemma_array_witness(id, s, 8);
                }
            }
            let mut k: i32 = 0;
            while k < n
                invariant
                    0 <= k <= n,
                    xs@.len() == k,
                    self.reader.data@ == r1.data@,
                    self.reader.idx == r1.idx + 8 * k,
                    self.reader.idx <= self.reader.data@.len(),
                    r1.rest().skip(8 * k) == self.reader.rest(),
                    is_prefix(longs_bytes(xs@), r1.rest()),
                    id == 12,
                    r1.data@ == r0.data@,
                    r0 == old(self).reader,
                    s == r0.rest(),
                    longs_bytes(xs@).len() == 8 * k,
                    payload_decodable(id, s) ==> r1.rest().len() >= 8 * n,
                    r1.rest() == s.skip(4),
                    s.len() >= 4,
                    n == from_be32(s.take(4)) as i32,
                decreases n - k,
            {
                let ghost rk = self.reader;
                let x = match self.reader.read_long() {
                    Ok(x) => x,
                    Err(e) => {
                        proof {
                            if payload_decodable(id, s) {
                                lemma_array_witness(id, s, 8);
                            }
                        }
                        return Err(e);
                    },
                };
                proof {
                    lemma_casts();
                    lemma_rest(rk, self.reader, 8);
                    lemma_be64(0, rk.ahead(8));
                    assert(((crate::reader::from_be64(rk.ahead(8)) as i64) as u64)
                        == crate::reader::from_be64(rk.ahead(8)));
                    assert(xs@.push(x).drop_last() =~= xs@);
                    lemma_skip_skip(r1.rest(), 8 * k as int, 8);
                    lemma_prefix_join(longs_bytes(xs@), crate::reader::be64(x as u64), r1.rest());
                }
                xs.push(x);
                k = k + 1;
            }
            proof {
                lemma_be32(0, r0.ahead(4));
                lemma_prefix_join(be32(n as u32), longs_bytes(xs@), s);
                assert(payload_bytes(TagV::LongArray(xs@)) == be32(n as u32) + longs_bytes(xs@));
            }
            return Ok(Tag::LongArray(xs));
        } else if id == 10 {
            return self.read_compound();
        }
        proof {
            lemma_cut_header(id, s);
        }
        Err(NbtError::UnknownTagId(id, self.reader.idx))
    }

    /// Reads the signed count that opens an array of type id `id`, and
    /// rejects a negative one.
    fn read_count(&mut self, id: i8) -> (r: Result<i32, NbtError>)
        requires
            id == 7 || id == 11 || id == 12,
        ensures
            final(self).reader.data@ == old(self).reader.data@,
            match r {
                Ok(n) => old(self).reader.has(4) && final(self).reader.idx == old(self).reader.idx + 4
                    && 0 <= n && n == count_ahead(old(self).reader.rest()),
                Err(_) => !payload_decodable(id, old(self).reader.rest()) && (old(
                    self,
                ).reader.rest().len() < 4 || count_ahead(old(self).reader.rest()) < 0),
            },
            payload_cut(id, old(self).reader.rest()) && r is Err ==> r->Err_0 is OutOfBounds,
            old(self).reader.rest().len() < 4 ==> r == Err::<i32, NbtError>(
                NbtError::OutOfBounds(old(self).reader.idx),
            ),
            old(self).reader.rest().len() >= 4 && count_ahead(old(self).reader.rest()) < 0 ==> r
                == Err::<i32, NbtError>(
                NbtError::MalformedLength(
                    count_ahead(old(self).reader.rest()),
                    (old(self).reader.idx + 4) as usize,
                ),
            ),
    {
        let ghost r0 = self.reader;
        let ghost s = r0.rest();
        let n = match self.reader.read_int() {
            Ok(n) => n,
            Err(e) => {
                proof {
                    lemma_no_room(id, s);
                }
                return Err(e);
            },
        };
        proof {
            lemma_rest(r0, self.reader, 4);
        }
        if n < 0 {
            proof {
                lemma_cut_header(id, s);
                if payload_decodable(id, s) {
                    lemma_array_witness(id, s, if id == 7 { 1 } else if id == 11 { 4 } else { 8 });
                }
            }
            return Err(NbtError::MalformedLength(n, self.reader.idx));
        }
        Ok(n)
    }

    /// Reads a list: element type id, signed count, then that many payloads.
    pub fn read_list(&mut self) -> (r: Result<Tag, NbtError>)
        ensures
            final(self).reader.data@ == old(self).reader.data@,
            match r {
                Ok(t) => payload_wf(9, t@) && is_prefix(payload_bytes(t@), old(self).reader.rest())
                    && final(self).reader.idx == old(self).reader.idx + payload_bytes(t@).len(),
                Err(_) => !payload_decodable(9, old(self).reader.rest()),
            },
            list_errors(old(self).reader.rest(), old(self).reader.idx, r),
            payload_cut(9, old(self).reader.rest()) && r is Err ==> r->Err_0 is OutOfBounds,
        decreases old(self).reader.rest().len(), 1nat,
    {
        let ghost r0 = self.reader;
        let ghost s = r0.rest();
        proof {
            lemma_casts();
        }
        let e = match self.reader.read_byte() {
            Ok(e) => e,
            Err(err) => {
                proof {
                    lemma_no_room(9, s);
                }
                return Err(err);
            },
        };
        let ghost ra = self.reader;
        proof {
            lemma_rest(r0, ra, 1);
        }
        let n = match self.reader.read_int() {
            Ok(n) => n,
            Err(err) => {
                proof {
                    lemma_no_room(9, s);
                }
                return Err(err);
            },
        };
        let ghost r1 = self.reader;
        proof {
            lemma_rest(ra, r1, 4);
            lemma_skip_skip(s, 1, 4);
            assert(ra.ahead(4) =~= s.subrange(1, 5));
            assert(s.subrange(0, 1)[0] == s[0]);
        }
        if n < 0 {
            proof {
                lemma_cut_header(9, s);
                if payload_decodable(9, s) {
                    let w = choose|w: TagV| payload_wf(9, w) && is_prefix(payload_bytes(w), s);
                    lemma_list_header(w, s);
                }
            }
            return Err(NbtError::MalformedLength(n, self.reader.idx));
        }
        let mut tags: Vec<Tag> = Vec::new();
        let mut k: i32 = 0;
        assert(r1.rest().subrange(0, 0) =~= list_bytes(views(tags@)));
        while k < n
            invariant
                0 <= k <= n,
                tags@.len() == k,
                self.reader.data@ == r1.data@,
                r1.idx <= self.reader.idx <= self.reader.data@.len(),
                r1.idx <= r1.data@.len(),
                forall|i: int| 0 <= i < k ==> payload_wf(e, #[trigger] views(tags@)[i]),
                is_prefix(list_bytes(views(tags@)), r1.rest()),
                list_bytes(views(tags@)).len() == self.reader.idx - r1.idx,
                r1.rest() == s.skip(5),
                s.len() >= 5,
                e == s[0] as i8,
                n == from_be32(s.subrange(1, 5)) as i32,
                r1.rest().len() < r0.rest().len(),
                r1.data@ == r0.data@,
                r0 == old(self).reader,
                s == r0.rest(),
            decreases n - k,
        {
            let ghost rk = self.reader;
            proof {
                lemma_rest_at(r1, rk);
                lemma_views(tags@);
            }
            let t = match self.read_tag(e) {
                Ok(t) => t,
                Err(err) => {
                    proof {
                        if payload_decodable(9, s) {
                            let w = choose|w: TagV| payload_wf(9, w) && is_prefix(payload_bytes(w), s);
                            lemma_list_header(w, s);
                            lemma_casts();
                            lemma_list_prefix(e, views(tags@), w->List_1, r1.rest());
                            assert(payload_wf(e, w->List_1[k as int]));
                        }
                        if payload_cut(9, s) {
                            let w = choose|w: TagV|
                                payload_wf(9, w) && s.len() < payload_bytes(w).len() && is_prefix(
                                    s,
                                    #[trigger] payload_bytes(w),
                                );
                            let big = payload_bytes(w);
                            assert(big.subrange(0, big.len() as int) =~= big);
                            lemma_list_header(w, big);
                            assert(big.subrange(0, s.len() as int)[0] == big[0]);
                            assert(s.subrange(1, 5) =~= big.subrange(1, 5));
                            lemma_prefix_skip(s, big, 5);
                            let vs = views(tags@);
                            lemma_prefix_trans(list_bytes(vs), s.skip(5), big.skip(5));
                            lemma_list_prefix(e, vs, w->List_1, big.skip(5));
                            let l = list_bytes(vs).len() as int;
                            lemma_prefix_skip(s.skip(5), big.skip(5), l);
                            assert(payload_wf(e, w->List_1[k as int]));
                            lemma_next_cut(e, rk.rest(), w->List_1[k as int], big.skip(5).skip(l));
                        }
                    }
                    return Err(err);
                },
            };
            proof {
                lemma_views_push(tags@, t);
                lemma_list_bytes_push(views(tags@), t@);
                lemma_prefix_join(list_bytes(views(tags@)), payload_bytes(t@), r1.rest());
                lemma_views(tags@.push(t));
                assert forall|i: int| 0 <= i < k + 1 implies payload_wf(
                    e,
                    #[trigger] views(tags@.push(t))[i],
                ) by {
                    if i < k {
                        assert(views(tags@.push(t))[i] == views(tags@)[i]);
                    }
                }
            }
            tags.push(t);
            k = k + 1;
        }
        proof {
            lemma_casts();
            lemma_views(tags@);
            let vs = views(tags@);
            let h = seq![e as u8] + be32(n as u32);
            assert(payload_bytes(TagV::List(e, vs)) == h + list_bytes(vs));
            lemma_be32(0, s.subrange(1, 5));
            assert(((from_be32(s.subrange(1, 5)) as i32) as u32) == from_be32(s.subrange(1, 5)));
            assert(((s[0] as i8) as u8) == s[0]);
            assert(s.subrange(0, 5) =~= h);
            lemma_prefix_join(h, list_bytes(vs), s);
        }
        Ok(Tag::List(e, tags))
    }

    /// Reads the entries of a compound up to and including its closing `End`.
    pub fn read_compound(&mut self) -> (r: Result<Tag, NbtError>)
        ensures
            final(self).reader.data@ == old(self).reader.data@,
            match r {
                Ok(t) => payload_wf(10, t@) && is_prefix(payload_bytes(t@), old(self).reader.rest())
                    && final(self).reader.idx == old(self).reader.idx + payload_bytes(t@).len(),
                Err(_) => !payload_decodable(10, old(self).reader.rest()),
            },
        payload_cut(10, old(self).reader.rest()) ==> r is Err && r->Err_0 is OutOfBounds,
        decreases old(self).reader.rest().len(), 1nat,
    {
        let ghost r0 = self.reader;
        let ghost s = r0.rest();
        if self.reader.idx > self.reader.data.len() {
            proof {
                lemma_no_room(10, s);
            }
            return Err(NbtError::OutOfBounds(self.reader.idx));
        }
        let mut tags: Vec<Tag> = Vec::new();
        proof {
            assert(s.subrange(0, 0) =~= compound_bytes(views(tags@)));
        }
        loop
            invariant
                self.reader.data@ == r0.data@,
                r0.idx <= self.reader.idx <= self.reader.data@.len(),
                r0.idx <= r0.data@.len(),
                forall|i: int| 0 <= i < tags@.len() ==> entry_wf(#[trigger] views(tags@)[i]),
                is_prefix(compound_bytes(views(tags@)), s),
                compound_bytes(views(tags@)).len() == self.reader.idx - r0.idx,
                s == r0.rest(),
                r0 == old(self).reader,
            decreases self.reader.data@.len() - self.reader.idx,
        {
            let ghost rk = self.reader;
            proof {
                lemma_views(tags@);
                lemma_rest_at(r0, rk);
            }
            let b = match self.reader.peek() {
                Ok(b) => b,
                Err(err) => {
                    proof {
                        if payload_decodable(10, s) {
                            let w = choose|w: TagV| payload_wf(10, w) && is_prefix(payload_bytes(w), s);
                            let ts = w->Compound_0;
                            assert(compound_wf(ts));
                            lemma_compound_prefix(views(tags@), ts, s);
                            if tags@.len() == ts.len() - 1 {
                                assert(ts[tags@.len() as int] == ts.last());
                            }
                            lemma_named_nonempty(ts[tags@.len() as int]);
                        }
                    }
                    return Err(err);
                },
            };
            proof {
                assert(rk.rest()[0] == b);
            }
            if b == 0 {
                let _ = self.reader.read();
                proof {
                    lemma_rest(rk, self.reader, 1);
                    lemma_views_push(tags@, Tag::End);
                    lemma_compound_bytes_push(views(tags@), TagV::End);
                    assert(named_bytes(TagV::End) =~= rk.ahead(1));
                    lemma_prefix_join(compound_bytes(views(tags@)), named_bytes(TagV::End), s);
                    lemma_views(tags@.push(Tag::End));
                    let vs = views(tags@.push(Tag::End));
                    assert(compound_wf(vs)) by {
                        assert forall|i: int| 0 <= i < vs.len() - 1 implies entry_wf(
                            #[trigger] vs[i],
                        ) by {
                            assert(vs[i] == views(tags@)[i]);
                        }
                    }
                    lemma_decoded_not_cut(10, TagV::Compound(vs), s);
                }
                tags.push(Tag::End);
                return Ok(Tag::Compound(tags));
            }
            let t = match self.read_named_tag() {
                Ok(t) => t,
                Err(err) => {
                    proof {
                        if payload_decodable(10, s) {
                            let w = choose|w: TagV| payload_wf(10, w) && is_prefix(payload_bytes(w), s);
                            let ts = w->Compound_0;
                            assert(compound_wf(ts));
                            lemma_compound_prefix(views(tags@), ts, s);
                            let c = ts[tags@.len() as int];
                            assert(rk.rest().subrange(0, 1)[0] == rk.rest()[0]);
                            if c is End {
                                assert(named_bytes(c)[0] == 0);
                            } else {
                                assert(c != ts.last());
                                assert(top_wf(c));
                            }
                        }
                        if payload_cut(10, s) {
                            let w = choose|w: TagV|
                                payload_wf(10, w) && s.len() < payload_bytes(w).len() && is_prefix(
                                    s,
                                    #[trigger] payload_bytes(w),
                                );
                            let big = payload_bytes(w);
                            let ts = w->Compound_0;
                            assert(compound_wf(ts));
                            assert(big.subrange(0, big.len() as int) =~= big);
                            let vs = views(tags@);
                            lemma_prefix_trans(compound_bytes(vs), s, big);
                            lemma_compound_prefix(vs, ts, big);
                            let l = compound_bytes(vs).len() as int;
                            lemma_prefix_skip(s, big, l);
                            let c = ts[tags@.len() as int];
                            assert(rk.rest().subrange(0, 1)[0] == rk.rest()[0]);
                            assert(big.skip(l).subrange(0, rk.rest().len() as int)[0] == big.skip(
                                l,
                            )[0]);
                            if c is End {
                                assert(named_bytes(c)[0] == 0);
                                assert(big.skip(l).subrange(0, 1)[0] == big.skip(l)[0]);
                            } else {
                                assert(c != ts.last());
                                assert(top_wf(c));
                                lemma_next_top_cut(rk.rest(), c, big.skip(l));
                            }
                        }
                    }
                    return Err(err);
                },
            };
            proof {
                lemma_views_push(tags@, t);
                lemma_compound_bytes_push(views(tags@), t@);
                lemma_prefix_join(compound_bytes(views(tags@)), named_bytes(t@), s);
                lemma_entry_first_byte(t@);
                lemma_views(tags@.push(t));
                assert forall|i: int| 0 <= i < tags@.len() + 1 implies entry_wf(
                    #[trigger] views(tags@.push(t))[i],
                ) by {
                    if i < tags@.len() {
                        assert(views(tags@.push(t))[i] == views(tags@)[i]);
                    }
                }
            }
            tags.push(t);
        }
    }

    /// Reads one named tag: a type id, then (unless it is 0) a name and a
    /// payload of that id.
    pub fn read_named_tag(&mut self) -> (r: Result<Tag, NbtError>)
        ensures
            final(self).reader.data@ == old(self).reader.data@,
            match r {
                Ok(t) => top_wf(t@) && is_prefix(named_bytes(t@), old(self).reader.rest())
                    && final(self).reader.idx == old(self).reader.idx + named_bytes(t@).len() && (
                t@ is End <==> old(self).reader.rest()[0] == 0),
                Err(_) => !top_decodable(old(self).reader.rest()),
            },
            old(self).reader.rest().len() == 0 ==> r == Err::<Tag, NbtError>(
                NbtError::OutOfBounds(old(self).reader.idx),
            ),
            old(self).reader.rest().len() > 0 && !(0 <= old(self).reader.rest()[0] as i8 <= 12)
                ==> r == Err::<Tag, NbtError>(
                NbtError::UnknownTagId(old(self).reader.rest()[0] as i8, (old(self).reader.idx + 1) as usize),
            ) && final(self).reader.idx == old(self).reader.idx + 1,
            top_cut(old(self).reader.rest()) ==> r is Err && r->Err_0 is OutOfBounds,
        decreases old(self).reader.rest().len(), 0nat,
    {
        let ghost r0 = self.reader;
        let ghost s = r0.rest();
        proof {
            lemma_casts();
        }
        let id = match self.reader.read_byte() {
            Ok(b) => b,
            Err(err) => {
                proof {
                    if top_decodable(s) {
                        let w = choose|w: TagV| top_wf(w) && is_prefix(named_bytes(w), s);
                        lemma_named_nonempty(w);
                    }
                }
                return Err(err);
            },
        };
        let ghost r1 = self.reader;
        proof {
            lemma_rest(r0, r1, 1);
            assert(s.subrange(0, 1)[0] == s[0]);
            assert(r0.ahead(1)[0] == s[0]);
            assert(((s[0] as i8) as u8) == s[0]);
        }
        if id == 0 {
            proof {
                assert(named_bytes(TagV::End) =~= r0.ahead(1));
                lemma_decoded_not_top_cut(TagV::End, s);
            }
            return Ok(Tag::End);
        }
        if id < 0 || id > 12 {
            proof {
                if top_decodable(s) {
                    let w = choose|w: TagV| top_wf(w) && is_prefix(named_bytes(w), s);
                    lemma_named_nonempty(w);
                    if !(w is End) {
                        lemma_entry_first_byte(w);
                        let i = tag_id(w);
                        assert(1 <= i <= 12 ==> ((i as u8) as i8) == i);
                    }
                }
                if top_cut(s) {
                    let w = choose|w: TagV|
                        top_wf(w) && s.len() < named_bytes(w).len() && is_prefix(
                            s,
                            #[trigger] named_bytes(w),
                        );
                    lemma_named_nonempty(w);
                    if !(w is End) {
                        let big = payload_bytes(w);
                        lemma_entry_parts(w, big);
                        assert(big.subrange(0, s.len() as int)[0] == big[0]);
                        let i = tag_id(*w->Named_1);
                        assert(1 <= i <= 12 ==> ((i as u8) as i8) == i);
                    }
                }
            }
            return Err(NbtError::UnknownTagId(id, self.reader.idx));
        }
        let name = match self.read_tag(8) {
            Ok(n) => n,
            Err(err) => {
                proof {
                    if top_decodable(s) {
                        let w = choose|w: TagV| top_wf(w) && is_prefix(named_bytes(w), s);
                        lemma_named_nonempty(w);
                        if !(w is End) {
                            lemma_entry_parts(w, s);
                        }
                    }
                    if top_cut(s) {
                        let w = choose|w: TagV|
                            top_wf(w) && s.len() < named_bytes(w).len() && is_prefix(
                                s,
                                #[trigger] named_bytes(w),
                            );
                        lemma_named_nonempty(w);
                        if !(w is End) {
                            let big = payload_bytes(w);
                            lemma_entry_parts(w, big);
                            lemma_prefix_skip(s, big, 1);
                            lemma_next_cut(8, r1.rest(), *w->Named_0, big.skip(1));
                        }
                    }
                }
                return Err(err);
            },
        };
        let ghost r2 = self.reader;
        proof {
            lemma_rest_at(r1, r2);
        }
        let value = match self.read_tag(id) {
            Ok(v) => v,
            Err(err) => {
                proof {
                    if top_decodable(s) {
                        let w = choose|w: TagV| top_wf(w) && is_prefix(named_bytes(w), s);
                        lemma_named_nonempty(w);
                        if !(w is End) {
                            lemma_entry_parts(w, s);
                            assert(s.subrange(0, s.len() as int) =~= s);
                            lemma_value_follows(w, s, s, name@, id);
                        }
                    }
                    if top_cut(s) {
                        let w = choose|w: TagV|
                            top_wf(w) && s.len() < named_bytes(w).len() && is_prefix(
                                s,
                                #[trigger] named_bytes(w),
                            );
                        lemma_named_nonempty(w);
                        if !(w is End) {
                            let big = payload_bytes(w);
                            lemma_entry_parts(w, big);
                            lemma_value_follows(w, s, big, name@, id);
                            lemma_next_cut(
                                id,
                                r2.rest(),
                                *w->Named_1,
                                big.skip(1 + payload_bytes(name@).len() as int),
                            );
                        }
                    }
                }
                return Err(err);
            },
        };
        let ghost r3 = self.reader;
        proof {
            lemma_rest_at(r1, r3);
            lemma_payload_id(id, value@);
            let h = seq![id as u8];
            assert(s.subrange(0, 1) =~= h);
            lemma_prefix_join(h, payload_bytes(name@), s);
            lemma_skip_skip(s, 1, payload_bytes(name@).len() as int);
            lemma_prefix_join(h + payload_bytes(name@), payload_bytes(value@), s);
            lemma_decoded_not_top_cut(TagV::Named(Box::new(name@), Box::new(value@)), s);
        }
        Ok(Tag::Named(Box::new(name), Box::new(value)))
    }

    /// Decodes the tag at the cursor: a lone `End`, or one named tag.
    ///
    /// The result is exactly the tag whose encoding starts the remaining
    /// bytes, and there is an error exactly when there is no such tag.
    pub fn parse(&mut self) -> (r: Result<Tag, NbtError>)
        ensures
            final(self).reader.data@ == old(self).reader.data@,
            r is Ok <==> decode_top(old(self).reader.rest()) is Some,
            r is Ok ==> decode_top(old(self).reader.rest()) == Some(r->Ok_0@)
                && final(self).reader.idx == old(self).reader.idx + named_bytes(r->Ok_0@).len(),
            old(self).reader.rest().len() == 0 ==> r == Err::<Tag, NbtError>(
                NbtError::OutOfBounds(old(self).reader.idx),
            ),
            old(self).reader.rest().len() > 0 && !(0 <= old(self).reader.rest()[0] as i8 <= 12)
                ==> r == Err::<Tag, NbtError>(
                NbtError::UnknownTagId(old(self).reader.rest()[0] as i8, (old(self).reader.idx + 1) as usize),
            ) && final(self).reader.idx == old(self).reader.idx + 1,
            top_cut(old(self).reader.rest()) ==> r is Err && r->Err_0 is OutOfBounds,
    {
        let ghost s = self.reader.rest();
        let r = self.read_named_tag();
        proof {
            if r is Ok {
                let t = r->Ok_0@;
                let u = choose|u: TagV| top_wf(u) && is_prefix(named_bytes(u), s);
                lemma_top_unique(u, t, s);
            }
        }
        r
    }
}

/// The parts of an entry whose encoding starts `big`: the value's type id,
/// then the name's payload, then the value's payload.
proof fn lemma_entry_parts(w: TagV, big: Seq<u8>)
    requires
        entry_wf(w),
        is_prefix(payload_bytes(w), big) || big == payload_bytes(w),
    ensures
        is_prefix(payload_bytes(w), big),
        big.len() >= 1,
        big[0] == tag_id(*w->Named_1) as u8,
        1 <= tag_id(*w->Named_1) <= 12,
        payload_wf(8, *w->Named_0),
        payload_wf(tag_id(*w->Named_1), *w->Named_1),
        is_prefix(payload_bytes(*w->Named_0), big.skip(1)),
        is_prefix(
            payload_bytes(*w->Named_1),
            big.skip(1 + payload_bytes(*w->Named_0).len() as int),
        ),
{
    assert(payload_bytes(w).subrange(0, payload_bytes(w).len() as int) =~= payload_bytes(w));
    let (wn, wv) = (*w->Named_0, *w->Named_1);
    let h = seq![tag_id(wv) as u8];
    assert(payload_bytes(w) == h + payload_bytes(wn) + payload_bytes(wv));
    lemma_prefix_concat(h + payload_bytes(wn), payload_bytes(wv), big);
    lemma_prefix_concat(h, payload_bytes(wn), big);
    assert(big.subrange(0, 1)[0] == big[0]);
}

/// Where `s` starts like `big`, which holds the entry `w`, and a name was
/// decoded after the type id byte `id` of `s`: that name is `w`'s, and `w`'s
/// value, of type id `id`, follows it in `big`.
proof fn lemma_value_follows(w: TagV, s: Seq<u8>, big: Seq<u8>, name: TagV, id: i8)
    requires
        entry_wf(w),
        is_prefix(payload_bytes(w), big),
        is_prefix(s, big),
        s.len() >= 1,
        id == s[0] as i8,
        payload_wf(8, name),
        is_prefix(payload_bytes(name), s.skip(1)),
    ensures
        name == *w->Named_0,
        tag_id(*w->Named_1) == id,
        1 + payload_bytes(name).len() <= s.len(),
        is_prefix(s.skip(1 + payload_bytes(name).len() as int), big.skip(1 + payload_bytes(name).len() as int)),
        is_prefix(payload_bytes(*w->Named_1), big.skip(1 + payload_bytes(name).len() as int)),
        s.skip(1).skip(payload_bytes(name).len() as int) == s.skip(1 + payload_bytes(name).len() as int),
{
    lemma_casts();
    lemma_entry_parts(w, big);
    lemma_prefix_skip(s, big, 1);
    lemma_prefix_trans(payload_bytes(name), s.skip(1), big.skip(1));
    lemma_payload_unique(8, name, *w->Named_0, big.skip(1));
    let m = 1 + payload_bytes(name).len() as int;
    lemma_prefix_skip(s, big, m);
    lemma_skip_skip(s, 1, payload_bytes(name).len() as int);
    assert(big.subrange(0, s.len() as int)[0] == big[0]);
    let i = tag_id(*w->Named_1);
    assert(((i as u8) as i8) == i);
}

/// What data that stop inside a tag of type id `id` show of its header.
proof fn lemma_cut_header(id: i8, s: Seq<u8>)
    ensures
        payload_cut(id, s) ==> 0 <= id <= 12,
        payload_cut(id, s) && (id == 7 || id == 11 || id == 12) && s.len() >= 4 ==> count_ahead(s)
            >= 0,
        payload_cut(id, s) && id == 8 && s.len() >= 2 ==> length_ahead(s) >= 0,
        payload_cut(id, s) && id == 8 && s.len() >= 2 && s.len() >= 2 + length_ahead(s)
            ==> valid_utf8(s.subrange(2, 2 + length_ahead(s))),
        payload_cut(id, s) && id == 9 && s.len() >= 5 ==> from_be32(s.subrange(1, 5)) as i32 >= 0,
{
    if payload_cut(id, s) {
        let t = choose|t: TagV|
            payload_wf(id, t) && s.len() < payload_bytes(t).len() && is_prefix(
                s,
                #[trigger] payload_bytes(t),
            );
        let big = payload_bytes(t);
        assert(big.subrange(0, big.len() as int) =~= big);
        assert(payload_decodable(id, big));
        if (id == 7 || id == 11 || id == 12) && s.len() >= 4 {
            lemma_array_witness(id, big, if id == 7 { 1 } else if id == 11 { 4 } else { 8 });
            assert(s.take(4) =~= big.take(4));
        }
        if id == 8 && s.len() >= 2 {
            lemma_str_witness(big);
            assert(s.take(2) =~= big.take(2));
            let n = length_ahead(s) as int;
            if s.len() >= 2 + n {
                assert(s.subrange(2, 2 + n) =~= big.skip(2).take(n));
            }
        }
        if id == 9 && s.len() >= 5 {
            lemma_list_header(t, big);
            assert(s.subrange(1, 5) =~= big.subrange(1, 5));
        }
    }
}

/// An encoded tag that stands on its own takes at least one byte.
proof fn lemma_named_nonempty(t: TagV)
    requires
        top_wf(t),
    ensures
        named_bytes(t).len() >= 1,
        t is End ==> named_bytes(t) == seq![0u8],
{
    if !(t is End) {
        if entry_wf(t) {
            lemma_entry_first_byte(t);
        }
    }
}

/// A well-formed payload of type id `id` has that id.
proof fn lemma_payload_id(id: i8, t: TagV)
    requires
        payload_wf(id, t),
    ensures
        tag_id(t) == id,
{
}

/// A cursor further along the same buffer sees the rest that remains.
proof fn lemma_rest_at(r0: Reader, r1: Reader)
    requires
        r1.data@ == r0.data@,
        r0.idx <= r1.idx <= r1.data@.len(),
    ensures
        r1.rest() == r0.rest().skip(r1.idx - r0.idx),
        r1.rest().len() == r1.data@.len() - r1.idx,
{
    assert(r1.rest() =~= r0.rest().skip(r1.idx - r0.idx));
}

} // verus!
