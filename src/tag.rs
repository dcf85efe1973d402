use vstd::prelude::*;
use vstd::utf8::encode_utf8;

use crate::error::NbtError;
use crate::reader::{be16, be32, be64};

verus! {

/// A node of a tag tree. Floating-point payloads are held as their IEEE-754
/// bit patterns, which is exactly what the binary format stores.
#[derive(Debug, PartialEq)]
pub enum Tag {
    End,
    Byte(i8),
    Short(i16),
    Int(i32),
    Long(i64),
    Float(u32),
    Double(u64),
    ByteArray(Vec<u8>),
    String(String),
    List(i8, Vec<Tag>),
    Compound(Vec<Tag>),
    IntArray(Vec<i32>),
    LongArray(Vec<i64>),
    Named(Box<Tag>, Box<Tag>),
}

/// The mathematical value of a [`Tag`].
pub enum TagV {
    End,
    Byte(i8),
    Short(i16),
    Int(i32),
    Long(i64),
    Float(u32),
    Double(u64),
    ByteArray(Seq<u8>),
    Str(Seq<char>),
    List(i8, Seq<TagV>),
    Compound(Seq<TagV>),
    IntArray(Seq<i32>),
    LongArray(Seq<i64>),
    Named(Box<TagV>, Box<TagV>),
}

/// The value of one tag.
pub open spec fn tag_view(t: Tag) -> TagV
    decreases t,
{
    match t {
        Tag::End => TagV::End,
        Tag::Byte(x) => TagV::Byte(x),
        Tag::Short(x) => TagV::Short(x),
        Tag::Int(x) => TagV::Int(x),
        Tag::Long(x) => TagV::Long(x),
        Tag::Float(x) => TagV::Float(x),
        Tag::Double(x) => TagV::Double(x),
        Tag::ByteArray(b) => TagV::ByteArray(b@),
        Tag::String(s) => TagV::Str(s@),
        Tag::List(e, ts) => TagV::List(e, views(ts@)),
        Tag::Compound(ts) => TagV::Compound(views(ts@)),
        Tag::IntArray(xs) => TagV::IntArray(xs@),
        Tag::LongArray(xs) => TagV::LongArray(xs@),
        Tag::Named(n, v) => TagV::Named(Box::new(tag_view(*n)), Box::new(tag_view(*v))),
    }
}

impl View for Tag {
    type V = TagV;

    open spec fn view(&self) -> TagV {
        tag_view(*self)
    }
}

/// The values of a run of tags.
pub open spec fn views(ts: Seq<Tag>) -> Seq<TagV>
    decreases ts,
{
    if ts.len() == 0 {
        seq![]
    } else {
        views(ts.drop_last()).push(tag_view(ts.last()))
    }
}

pub proof fn lemma_views(ts: Seq<Tag>)
    ensures
        views(ts).len() == ts.len(),
        forall|i: int| 0 <= i < ts.len() ==> #[trigger] views(ts)[i] == ts[i]@,
    decreases ts.len(),
{
    if ts.len() > 0 {
        lemma_views(ts.drop_last());
        assert forall|i: int| 0 <= i < ts.len() implies #[trigger] views(ts)[i] == ts[i]@ by {
            if i < ts.len() - 1 {
                assert(views(ts.drop_last())[i] == ts.drop_last()[i]@);
            }
        }
    }
}

pub proof fn lemma_views_push(ts: Seq<Tag>, t: Tag)
    ensures
        views(ts.push(t)) == views(ts).push(t@),
{
    assert(ts.push(t).drop_last() =~= ts);
    assert(ts.push(t).last() == t);
}

/// The type id of a tag; a named tag has the id of the value it wraps.
pub open spec fn tag_id(t: TagV) -> i8
    decreases t,
{
    match t {
        TagV::End => 0,
        TagV::Byte(_) => 1,
        TagV::Short(_) => 2,
        TagV::Int(_) => 3,
        TagV::Long(_) => 4,
        TagV::Float(_) => 5,
        TagV::Double(_) => 6,
        TagV::ByteArray(_) => 7,
        TagV::Str(_) => 8,
        TagV::List(_, _) => 9,
        TagV::Compound(_) => 10,
        TagV::IntArray(_) => 11,
        TagV::LongArray(_) => 12,
        TagV::Named(_, v) => tag_id(*v),
    }
}

pub open spec fn ints_bytes(xs: Seq<i32>) -> Seq<u8>
    decreases xs.len(),
{
    if xs.len() == 0 {
        seq![]
    } else {
        ints_bytes(xs.drop_last()) + be32(xs.last() as u32)
    }
}

pub open spec fn longs_bytes(xs: Seq<i64>) -> Seq<u8>
    decreases xs.len(),
{
    if xs.len() == 0 {
        seq![]
    } else {
        longs_bytes(xs.drop_last()) + be64(xs.last() as u64)
    }
}

/// The bytes of a tag without type id or name: how a list element, a named
/// tag's value and a name are written. An `End` has no payload.
pub open spec fn payload_bytes(t: TagV) -> Seq<u8>
    decreases t,
{
    match t {
        TagV::End => seq![],
        TagV::Byte(x) => seq![x as u8],
        TagV::Short(x) => be16(x as u16),
        TagV::Int(x) => be32(x as u32),
        TagV::Long(x) => be64(x as u64),
        TagV::Float(x) => be32(x),
        TagV::Double(x) => be64(x),
        TagV::ByteArray(b) => be32(b.len() as u32) + b,
        TagV::Str(cs) => be16(encode_utf8(cs).len() as u16) + encode_utf8(cs),
        TagV::List(e, ts) => seq![e as u8] + be32(ts.len() as u32) + list_bytes(ts),
        TagV::Compound(ts) => compound_bytes(ts),
        TagV::IntArray(xs) => be32(xs.len() as u32) + ints_bytes(xs),
        TagV::LongArray(xs) => be32(xs.len() as u32) + longs_bytes(xs),
        TagV::Named(n, v) => seq![tag_id(*v) as u8] + payload_bytes(*n) + payload_bytes(*v),
    }
}

/// The list elements' payloads, one after another.
pub open spec fn list_bytes(ts: Seq<TagV>) -> Seq<u8>
    decreases ts,
{
    if ts.len() == 0 {
        seq![]
    } else {
        payload_bytes(ts[0]) + list_bytes(ts.drop_first())
    }
}

/// The compound entries, each with its type id; the closing `End` is the byte 0.
pub open spec fn compound_bytes(ts: Seq<TagV>) -> Seq<u8>
    decreases ts,
{
    if ts.len() == 0 {
        seq![]
    } else {
        (if ts[0] is End {
            seq![0u8]
        } else {
            payload_bytes(ts[0])
        }) + compound_bytes(ts.drop_first())
    }
}

/// How a tag is written where it stands on its own: an `End` as the byte 0,
/// anything else as its payload (for a named tag: id, name, value).
pub open spec fn named_bytes(t: TagV) -> Seq<u8> {
    if t is End {
        seq![0u8]
    } else {
        payload_bytes(t)
    }
}

/// Every length in the tree fits its prefix: 16 bits for a string's UTF-8
/// bytes, 32 bits (signed) for arrays and lists.
pub open spec fn fits(t: TagV) -> bool
    decreases t,
{
    match t {
        TagV::ByteArray(b) => b.len() <= i32::MAX,
        TagV::Str(cs) => encode_utf8(cs).len() <= i16::MAX,
        TagV::List(_, ts) => ts.len() <= i32::MAX && forall|i: int|
            0 <= i < ts.len() ==> fits(#[trigger] ts[i]),
        TagV::Compound(ts) => forall|i: int| 0 <= i < ts.len() ==> fits(#[trigger] ts[i]),
        TagV::IntArray(xs) => xs.len() <= i32::MAX,
        TagV::LongArray(xs) => xs.len() <= i32::MAX,
        TagV::Named(n, v) => fits(*n) && fits(*v),
        _ => true,
    }
}

/// `t` is what a decoder of payloads of type id `id` can produce: every
/// list element a payload of the list's id, every compound a run of named
/// entries closed by one `End`, every length within its prefix.
pub open spec fn payload_wf(id: i8, t: TagV) -> bool
    decreases t,
{
    match t {
        TagV::End => id == 0,
        TagV::Byte(_) => id == 1,
        TagV::Short(_) => id == 2,
        TagV::Int(_) => id == 3,
        TagV::Long(_) => id == 4,
        TagV::Float(_) => id == 5,
        TagV::Double(_) => id == 6,
        TagV::ByteArray(b) => id == 7 && b.len() <= i32::MAX,
        TagV::Str(cs) => id == 8 && encode_utf8(cs).len() <= i16::MAX,
        TagV::List(e, ts) => id == 9 && ts.len() <= i32::MAX && forall|i: int|
            0 <= i < ts.len() ==> payload_wf(e, #[trigger] ts[i]),
        TagV::Compound(ts) => id == 10 && compound_wf(ts),
        TagV::IntArray(xs) => id == 11 && xs.len() <= i32::MAX,
        TagV::LongArray(xs) => id == 12 && xs.len() <= i32::MAX,
        TagV::Named(_, _) => false,
    }
}

/// The entries of a compound: named entries, then one closing `End`.
pub open spec fn compound_wf(ts: Seq<TagV>) -> bool
    decreases ts,
{
    &&& ts.len() >= 1
    &&& ts.last() is End
    &&& forall|i: int| 0 <= i < ts.len() - 1 ==> entry_wf(#[trigger] ts[i])
}

/// A compound entry: a string name and a value of id 1 to 12.
pub open spec fn entry_wf(t: TagV) -> bool
    decreases t,
{
    match t {
        TagV::Named(n, v) => payload_wf(8, *n) && 1 <= tag_id(*v) <= 12 && payload_wf(
            tag_id(*v),
            *v,
        ),
        _ => false,
    }
}

/// What a whole buffer decodes to: a lone `End` or one named tag.
pub open spec fn top_wf(t: TagV) -> bool {
    t is End || entry_wf(t)
}

fn push_u16(out: &mut Vec<u8>, x: u16)
    ensures
        final(out)@ == old(out)@ + be16(x),
{
    out.push((x >> 8u16) as u8);
    out.push(x as u8);
    assert(final(out)@ =~= old(out)@ + be16(x));
}

fn push_u32(out: &mut Vec<u8>, x: u32)
    ensures
        final(out)@ == old(out)@ + be32(x),
{
    out.push((x >> 24u32) as u8);
    out.push((x >> 16u32) as u8);
    out.push((x >> 8u32) as u8);
    out.push(x as u8);
    assert(final(out)@ =~= old(out)@ + be32(x));
}

fn push_u64(out: &mut Vec<u8>, x: u64)
    ensures
        final(out)@ == old(out)@ + be64(x),
{
    out.push((x >> 56u64) as u8);
    out.push((x >> 48u64) as u8);
    out.push((x >> 40u64) as u8);
    out.push((x >> 32u64) as u8);
    out.push((x >> 24u64) as u8);
    out.push((x >> 16u64) as u8);
    out.push((x >> 8u64) as u8);
    out.push(x as u8);
    assert(final(out)@ =~= old(out)@ + be64(x));
}

impl Tag {
    pub fn id(&self) -> (r: i8)
        ensures
            r == tag_id(self@),
        decreases self,
    {
        match self {
            Tag::End => 0,
            Tag::Byte(_) => 1,
            Tag::Short(_) => 2,
            Tag::Int(_) => 3,
            Tag::Long(_) => 4,
            Tag::Float(_) => 5,
            Tag::Double(_) => 6,
            Tag::ByteArray(_) => 7,
            Tag::String(_) => 8,
            Tag::List(_, _) => 9,
            Tag::Compound(_) => 10,
            Tag::Named(_, v) => v.id(),
            Tag::IntArray(_) => 11,
            Tag::LongArray(_) => 12,
        }
    }
}

pub proof fn lemma_list_bytes_push(ts: Seq<TagV>, t: TagV)
    ensures
        list_bytes(ts.push(t)) == list_bytes(ts) + payload_bytes(t),
    decreases ts.len(),
{
    if ts.len() == 0 {
        assert(ts.push(t).drop_first() =~= ts);
        assert(list_bytes(ts.push(t)) =~= list_bytes(ts) + payload_bytes(t));
    } else {
        assert(ts.push(t).drop_first() =~= ts.drop_first().push(t));
        lemma_list_bytes_push(ts.drop_first(), t);
        assert(list_bytes(ts.push(t)) =~= list_bytes(ts) + payload_bytes(t));
    }
}

pub proof fn lemma_compound_bytes_push(ts: Seq<TagV>, t: TagV)
    ensures
        compound_bytes(ts.push(t)) == compound_bytes(ts) + named_bytes(t),
    decreases ts.len(),
{
    if ts.len() == 0 {
        assert(ts.push(t).drop_first() =~= ts);
        assert(compound_bytes(ts.push(t)) =~= compound_bytes(ts) + named_bytes(t));
    } else {
        assert(ts.push(t).drop_first() =~= ts.drop_first().push(t));
        lemma_compound_bytes_push(ts.drop_first(), t);
        assert(compound_bytes(ts.push(t)) =~= compound_bytes(ts) + named_bytes(t));
    }
}

impl Tag {
    /// Appends the payload of this tag to `out`.
    fn write_payload(&self, out: &mut Vec<u8>) -> (r: Result<(), NbtError>)
        ensures
            r is Ok <==> fits(self@),
            r is Ok ==> final(out)@ == old(out)@ + payload_bytes(self@),
            r is Err ==> r->Err_0 is LengthOverflow,
        decreases self,
    {
        let ghost start = out@;
        match self {
            Tag::End => {
                assert(out@ =~= start + payload_bytes(self@));
                Ok(())
            },
            Tag::Byte(x) => {
                out.push(*x as u8);
                assert(out@ =~= start + payload_bytes(self@));
                Ok(())
            },
            Tag::Short(x) => {
                push_u16(out, *x as u16);
                Ok(())
            },
            Tag::Int(x) => {
                push_u32(out, *x as u32);
                Ok(())
            },
            Tag::Long(x) => {
                push_u64(out, *x as u64);
                Ok(())
            },
            Tag::Float(x) => {
                push_u32(out, *x);
                Ok(())
            },
            Tag::Double(x) => {
                push_u64(out, *x);
                Ok(())
            },
            Tag::ByteArray(b) => {
                if b.len() > 2147483647usize {
                    return Err(NbtError::LengthOverflow(b.len()));
                }
                push_u32(out, b.len() as u32);
                write_bytes(out, b.as_slice());
                assert(out@ =~= start + payload_bytes(self@));
                Ok(())
            },
            Tag::String(s) => {
                let bs = s.as_str().as_bytes();
                if bs.len() > 32767usize {
                    return Err(NbtError::LengthOverflow(bs.len()));
                }
                push_u16(out, bs.len() as u16);
                write_bytes(out, bs);
                assert(out@ =~= start + payload_bytes(self@));
                Ok(())
            },
            Tag::List(e, ts) => {
                proof {
                    lemma_views(ts@);
                }
                if ts.len() > 2147483647usize {
                    return Err(NbtError::LengthOverflow(ts.len()));
                }
                let ghost vs = self@->List_1;
                proof {
                    lemma_views(ts@);
                }
                out.push(*e as u8);
                push_u32(out, ts.len() as u32);
                let ghost head = out@;
                let mut i: usize = 0;
                while i < ts.len()
                    invariant
                        i <= ts.len(),
                        ts.len() == vs.len(),
                        vs == self@->List_1,
                        self@ == TagV::List(*e, vs),
                        *self == Tag::List(*e, *ts),
                        forall|j: int| 0 <= j < ts.len() ==> vs[j] == (#[trigger] ts[j])@,
                        head == start + seq![*e as u8] + be32(ts.len() as u32),
                        out@ == head + list_bytes(vs.take(i as int)),
                        forall|j: int| 0 <= j < i ==> fits(#[trigger] vs[j]),
                    decreases ts.len() - i,
                {
                    proof {
                        vstd::std_specs::vec::axiom_vec_index_decreases(*ts, i as int);
                        assert(decreases_to!(*self => ts[i as int]));
                    }
                    match ts[i].write_payload(out) {
                        Ok(()) => {},
                        Err(err) => {
                            assert(!fits(vs[i as int]));
                            return Err(err);
                        },
                    }
                    proof {
                        assert(vs.take(i + 1) =~= vs.take(i as int).push(vs[i as int]));
                        lemma_list_bytes_push(vs.take(i as int), vs[i as int]);
                    }
                    i = i + 1;
                }
                assert(vs.take(i as int) =~= vs);
                assert(out@ =~= start + payload_bytes(self@));
                Ok(())
            },
            Tag::Compound(ts) => {
                let ghost vs = self@->Compound_0;
                proof {
                    lemma_views(ts@);
                }
                let mut i: usize = 0;
                while i < ts.len()
                    invariant
                        i <= ts.len(),
                        ts.len() == vs.len(),
                        vs == self@->Compound_0,
                        self@ == TagV::Compound(vs),
                        *self == Tag::Compound(*ts),
                        forall|j: int| 0 <= j < ts.len() ==> vs[j] == (#[trigger] ts[j])@,
                        out@ == start + compound_bytes(vs.take(i as int)),
                        forall|j: int| 0 <= j < i ==> fits(#[trigger] vs[j]),
                    decreases ts.len() - i,
                {
                    let c = &ts[i];
                    proof {
                        vstd::std_specs::vec::axiom_vec_index_decreases(*ts, i as int);
                        assert(decreases_to!(*self => ts[i as int]));
                    }
                    match c {
                        Tag::End => out.push(0u8),
                        _ => match c.write_payload(out) {
                            Ok(()) => {},
                            Err(err) => {
                                assert(!fits(vs[i as int]));
                                return Err(err);
                            },
                        },
                    }
                    proof {
                        assert(vs.take(i + 1) =~= vs.take(i as int).push(vs[i as int]));
                        lemma_compound_bytes_push(vs.take(i as int), vs[i as int]);
                    }
                    i = i + 1;
                }
                assert(vs.take(i as int) =~= vs);
                Ok(())
            },
            Tag::IntArray(xs) => {
                if xs.len() > 2147483647usize {
                    return Err(NbtError::LengthOverflow(xs.len()));
                }
                push_u32(out, xs.len() as u32);
                let ghost head = out@;
                let mut i: usize = 0;
                while i < xs.len()
                    invariant
                        i <= xs.len(),
                        out@ == head + ints_bytes(xs@.take(i as int)),
                    decreases xs.len() - i,
                {
                    push_u32(out, xs[i] as u32);
                    assert(xs@.take(i + 1).drop_last() =~= xs@.take(i as int));
                    i = i + 1;
                }
                assert(xs@.take(i as int) =~= xs@);
                assert(out@ =~= start + payload_bytes(self@));
                Ok(())
            },
            Tag::LongArray(xs) => {
                if xs.len() > 2147483647usize {
                    return Err(NbtError::LengthOverflow(xs.len()));
                }
                push_u32(out, xs.len() as u32);
                let ghost head = out@;
                let mut i: usize = 0;
                while i < xs.len()
                    invariant
                        i <= xs.len(),
                        out@ == head + longs_bytes(xs@.take(i as int)),
                    decreases xs.len() - i,
                {
                    push_u64(out, xs[i] as u64);
                    assert(xs@.take(i + 1).drop_last() =~= xs@.take(i as int));
                    i = i + 1;
                }
                assert(xs@.take(i as int) =~= xs@);
                assert(out@ =~= start + payload_bytes(self@));
                Ok(())
            },
            Tag::Named(n, v) => {
                out.push(v.id() as u8);
                match n.write_payload(out) {
                    Ok(()) => {},
                    Err(err) => return Err(err),
                }
                match v.write_payload(out) {
                    Ok(()) => {},
                    Err(err) => return Err(err),
                }
                assert(out@ =~= start + payload_bytes(self@));
                Ok(())
            },
        }
    }

    /// The bytes of this tag as it stands on its own (see [`named_bytes`]);
    /// fails when a length does not fit its prefix.
    pub fn as_bytes(&self) -> (r: Result<Vec<u8>, NbtError>)
        ensures
            r is Ok <==> fits(self@),
            r is Ok ==> r->Ok_0@ == named_bytes(self@),
            r is Err ==> r->Err_0 is LengthOverflow,
    {
        let mut out: Vec<u8> = Vec::new();
        match self {
            Tag::End => {
                out.push(0u8);
                assert(out@ =~= named_bytes(self@));
            },
            _ => {
                self.write_payload(&mut out)?;
                assert(out@ =~= named_bytes(self@));
            },
        }
        Ok(out)
    }
}

fn write_bytes(out: &mut Vec<u8>, b: &[u8])
    ensures
        final(out)@ == old(out)@ + b@,
{
    let ghost start = out@;
    let mut i: usize = 0;
    while i < b.len()
        invariant
            i <= b.len(),
            out@ == start + b@.take(i as int),
        decreases b.len() - i,
    {
        out.push(b[i]);
        assert(b@.take(i + 1) =~= b@.take(i as int).push(b[i as int]));
        i = i + 1;
    }
    assert(b@.take(i as int) =~= b@);
}

} // verus!
