//! The encoding is uniquely decodable: no two well-formed tags of one type id
//! have payloads of which one starts the other.
use vstd::prelude::*;
use vstd::utf8::{encode_utf8, encode_utf8_decode_utf8};

use crate::reader::{be16, be32, be64, lemma_be16, lemma_be32, lemma_be64};
use crate::tag::{
    named_bytes, top_wf, fits,
    TagV, tag_id, payload_bytes, list_bytes, compound_bytes, ints_bytes, longs_bytes, payload_wf,
    compound_wf, entry_wf,
};

verus! {

/// `p` is the start of `s`.
pub open spec fn is_prefix(p: Seq<u8>, s: Seq<u8>) -> bool {
    p.len() <= s.len() && s.subrange(0, p.len() as int) == p
}

pub proof fn lemma_prefix_concat(a: Seq<u8>, b: Seq<u8>, s: Seq<u8>)
    requires
        is_prefix(a + b, s),
    ensures
        is_prefix(a, s),
        is_prefix(b, s.skip(a.len() as int)),
{
    assert(s.subrange(0, a.len() as int) =~= (a + b).subrange(0, a.len() as int));
    assert((a + b).subrange(0, a.len() as int) =~= a);
    assert(s.skip(a.len() as int).subrange(0, b.len() as int) =~= b) by {
        assert forall|k: int| 0 <= k < b.len() implies s.skip(a.len() as int)[k] == b[k] by {
            assert(s.subrange(0, (a + b).len() as int)[a.len() + k] == (a + b)[a.len() + k]);
        }
    }
}

pub proof fn lemma_prefix_join(a: Seq<u8>, b: Seq<u8>, s: Seq<u8>)
    requires
        is_prefix(a, s),
        is_prefix(b, s.skip(a.len() as int)),
    ensures
        is_prefix(a + b, s),
{
    assert forall|k: int| 0 <= k < (a + b).len() implies s.subrange(0, (a + b).len() as int)[k]
        == (a + b)[k] by {
        if k < a.len() {
            assert(s.subrange(0, a.len() as int)[k] == a[k]);
        } else {
            assert(s.skip(a.len() as int).subrange(0, b.len() as int)[k - a.len()] == b[k
                - a.len()]);
        }
    }
    assert(s.subrange(0, (a + b).len() as int) =~= a + b);
}

pub proof fn lemma_prefix_eq(a: Seq<u8>, b: Seq<u8>, s: Seq<u8>)
    requires
        is_prefix(a, s),
        is_prefix(b, s),
        a.len() == b.len(),
    ensures
        a == b,
{
}

pub proof fn lemma_skip_skip(s: Seq<u8>, i: int, j: int)
    requires
        0 <= i,
        0 <= j,
        i + j <= s.len(),
    ensures
        s.skip(i).skip(j) == s.skip(i + j),
{
    assert(s.skip(i).skip(j) =~= s.skip(i + j));
}

pub proof fn lemma_casts()
    ensures
        forall|x: i8| #[trigger] ((x as u8) as i8) == x,
        forall|x: u8| #[trigger] ((x as i8) as u8) == x,
        forall|x: i16| #[trigger] ((x as u16) as i16) == x,
        forall|x: u16| #[trigger] ((x as i16) as u16) == x,
        forall|x: i32| #[trigger] ((x as u32) as i32) == x,
        forall|x: u32| #[trigger] ((x as i32) as u32) == x,
        forall|x: i64| #[trigger] ((x as u64) as i64) == x,
        forall|x: u64| #[trigger] ((x as i64) as u64) == x,
{
    assert forall|x: i8| #[trigger] ((x as u8) as i8) == x by {
        assert(((x as u8) as i8) == x) by (bit_vector);
    }
    assert forall|x: u8| #[trigger] ((x as i8) as u8) == x by {
        assert(((x as i8) as u8) == x) by (bit_vector);
    }
    assert forall|x: i16| #[trigger] ((x as u16) as i16) == x by {
        assert(((x as u16) as i16) == x) by (bit_vector);
    }
    assert forall|x: u16| #[trigger] ((x as i16) as u16) == x by {
        assert(((x as i16) as u16) == x) by (bit_vector);
    }
    assert forall|x: i32| #[trigger] ((x as u32) as i32) == x by {
        assert(((x as u32) as i32) == x) by (bit_vector);
    }
    assert forall|x: u32| #[trigger] ((x as i32) as u32) == x by {
        assert(((x as i32) as u32) == x) by (bit_vector);
    }
    assert forall|x: i64| #[trigger] ((x as u64) as i64) == x by {
        assert(((x as u64) as i64) == x) by (bit_vector);
    }
    assert forall|x: u64| #[trigger] ((x as i64) as u64) == x by {
        assert(((x as i64) as u64) == x) by (bit_vector);
    }
}

pub proof fn lemma_ints_bytes(xs: Seq<i32>, ys: Seq<i32>)
    ensures
        ints_bytes(xs).len() == 4 * xs.len(),
        xs.len() == ys.len() && ints_bytes(xs) == ints_bytes(ys) ==> xs == ys,
    decreases xs.len(),
{
    if xs.len() > 0 {
        lemma_ints_bytes(xs.drop_last(), ys.drop_last());
        if xs.len() == ys.len() && ints_bytes(xs) == ints_bytes(ys) {
            lemma_ints_bytes(ys.drop_last(), xs.drop_last());
            let n = 4 * (xs.len() - 1);
            let (a, b) = (ints_bytes(xs.drop_last()), ints_bytes(ys.drop_last()));
            assert(a =~= ints_bytes(xs).subrange(0, n));
            assert(b =~= ints_bytes(ys).subrange(0, n));
            assert(be32(xs.last() as u32) =~= ints_bytes(xs).subrange(n, n + 4));
            assert(be32(ys.last() as u32) =~= ints_bytes(ys).subrange(n, n + 4));
            lemma_be32(xs.last() as u32, seq![]);
            lemma_be32(ys.last() as u32, seq![]);
            lemma_casts();
            assert(be32(xs.last() as u32) == be32(ys.last() as u32));
            assert(((xs.last() as u32) as i32) == xs.last());
            assert(((ys.last() as u32) as i32) == ys.last());
            assert(xs =~= ys) by {
                assert(xs.drop_last() == ys.drop_last());
                assert forall|k: int| 0 <= k < xs.len() implies xs[k] == ys[k] by {
                    if k < xs.len() - 1 {
                        assert(xs.drop_last()[k] == ys.drop_last()[k]);
                    }
                }
            }
        }
    }
}

pub proof fn lemma_longs_bytes(xs: Seq<i64>, ys: Seq<i64>)
    ensures
        longs_bytes(xs).len() == 8 * xs.len(),
        xs.len() == ys.len() && longs_bytes(xs) == longs_bytes(ys) ==> xs == ys,
    decreases xs.len(),
{
    if xs.len() > 0 {
        lemma_longs_bytes(xs.drop_last(), ys.drop_last());
        if xs.len() == ys.len() && longs_bytes(xs) == longs_bytes(ys) {
            lemma_longs_bytes(ys.drop_last(), xs.drop_last());
            let n = 8 * (xs.len() - 1);
            let (a, b) = (longs_bytes(xs.drop_last()), longs_bytes(ys.drop_last()));
            assert(a =~= longs_bytes(xs).subrange(0, n));
            assert(b =~= longs_bytes(ys).subrange(0, n));
            assert(be64(xs.last() as u64) =~= longs_bytes(xs).subrange(n, n + 8));
            assert(be64(ys.last() as u64) =~= longs_bytes(ys).subrange(n, n + 8));
            lemma_be64(xs.last() as u64, seq![]);
            lemma_be64(ys.last() as u64, seq![]);
            lemma_casts();
            assert(be64(xs.last() as u64) == be64(ys.last() as u64));
            assert(((xs.last() as u64) as i64) == xs.last());
            assert(((ys.last() as u64) as i64) == ys.last());
            assert(xs =~= ys) by {
                assert(xs.drop_last() == ys.drop_last());
                assert forall|k: int| 0 <= k < xs.len() implies xs[k] == ys[k] by {
                    if k < xs.len() - 1 {
                        assert(xs.drop_last()[k] == ys.drop_last()[k]);
                    }
                }
            }
        }
    }
}

/// The first byte of an entry is its value's type id, never 0.
pub proof fn lemma_entry_first_byte(t: TagV)
    requires
        entry_wf(t),
    ensures
        payload_bytes(t).len() >= 1,
        payload_bytes(t)[0] == tag_id(t) as u8,
        payload_bytes(t)[0] != 0,
{
    let v = *t->Named_1;
    let id = tag_id(v);
    assert(1 <= id <= 12 ==> id as u8 != 0) by (bit_vector);
}

/// Two well-formed payloads of one type id that both start `s` are equal.
pub proof fn lemma_payload_unique(id: i8, t1: TagV, t2: TagV, s: Seq<u8>)
    requires
        payload_wf(id, t1),
        payload_wf(id, t2),
        is_prefix(payload_bytes(t1), s),
        is_prefix(payload_bytes(t2), s),
    ensures
        t1 == t2,
    decreases t1,
{
    lemma_casts();
    match t1 {
        TagV::End => {
            assert(t2 is End);
            assert(t2 == TagV::End);
            assert(t1 == t2);
        },
        TagV::Byte(x) => {
            assert(s.subrange(0, 1)[0] == s[0]);
            assert(s[0] == x as u8);
            assert(s[0] == t2->Byte_0 as u8);
            assert((x as u8) as i8 == x);
            assert((t2->Byte_0 as u8) as i8 == t2->Byte_0);
            assert(t1 == t2);
        },
        TagV::Short(x) => {
            lemma_prefix_eq(be16(x as u16), be16(t2->Short_0 as u16), s);
            lemma_be16(x as u16, seq![]);
            lemma_be16(t2->Short_0 as u16, seq![]);
            assert((x as u16) as i16 == x);
            assert((t2->Short_0 as u16) as i16 == t2->Short_0);
            assert(t1 == t2);
        },
        TagV::Int(x) => {
            lemma_prefix_eq(be32(x as u32), be32(t2->Int_0 as u32), s);
            lemma_be32(x as u32, seq![]);
            lemma_be32(t2->Int_0 as u32, seq![]);
            assert((x as u32) as i32 == x);
            assert((t2->Int_0 as u32) as i32 == t2->Int_0);
            assert(t1 == t2);
        },
        TagV::Long(x) => {
            lemma_prefix_eq(be64(x as u64), be64(t2->Long_0 as u64), s);
            lemma_be64(x as u64, seq![]);
            lemma_be64(t2->Long_0 as u64, seq![]);
            assert((x as u64) as i64 == x);
            assert((t2->Long_0 as u64) as i64 == t2->Long_0);
            assert(t1 == t2);
        },
        TagV::Float(x) => {
            lemma_prefix_eq(be32(x), be32(t2->Float_0), s);
            lemma_be32(x, seq![]);
            lemma_be32(t2->Float_0, seq![]);
            assert(t1 == t2);
        },
        TagV::Double(x) => {
            lemma_prefix_eq(be64(x), be64(t2->Double_0), s);
            lemma_be64(x, seq![]);
            lemma_be64(t2->Double_0, seq![]);
            assert(t1 == t2);
        },
        TagV::ByteArray(b1) => {
            let b2 = t2->ByteArray_0;
            lemma_prefix_concat(be32(b1.len() as u32), b1, s);
            lemma_prefix_concat(be32(b2.len() as u32), b2, s);
            lemma_prefix_eq(be32(b1.len() as u32), be32(b2.len() as u32), s);
            lemma_be32(b1.len() as u32, seq![]);
            lemma_be32(b2.len() as u32, seq![]);
            lemma_prefix_eq(b1, b2, s.skip(4));
            assert(t1 == t2);
        },
        TagV::Str(c1) => {
            let c2 = t2->Str_0;
            let (e1, e2) = (encode_utf8(c1), encode_utf8(c2));
            lemma_prefix_concat(be16(e1.len() as u16), e1, s);
            lemma_prefix_concat(be16(e2.len() as u16), e2, s);
            lemma_prefix_eq(be16(e1.len() as u16), be16(e2.len() as u16), s);
            lemma_be16(e1.len() as u16, seq![]);
            lemma_be16(e2.len() as u16, seq![]);
            lemma_prefix_eq(e1, e2, s.skip(2));
            encode_utf8_decode_utf8(c1);
            encode_utf8_decode_utf8(c2);
            assert(t1 == t2);
        },
        TagV::List(e1, ts1) => {
            let (e2, ts2) = (t2->List_0, t2->List_1);
            let h1 = seq![e1 as u8] + be32(ts1.len() as u32);
            let h2 = seq![e2 as u8] + be32(ts2.len() as u32);
            assert(payload_bytes(t1) == h1 + list_bytes(ts1));
            assert(payload_bytes(t2) == h2 + list_bytes(ts2));
            lemma_prefix_concat(h1, list_bytes(ts1), s);
            lemma_prefix_concat(h2, list_bytes(ts2), s);
            lemma_prefix_eq(h1, h2, s);
            assert(be32(ts1.len() as u32) =~= h1.skip(1));
            assert(be32(ts2.len() as u32) =~= h2.skip(1));
            lemma_be32(ts1.len() as u32, seq![]);
            lemma_be32(ts2.len() as u32, seq![]);
            assert(h1[0] == e1 as u8 && h2[0] == e2 as u8);
            assert((e1 as u8) as i8 == e1);
            assert((e2 as u8) as i8 == e2);
            lemma_list_unique(e1, ts1, ts2, s.skip(5));
            assert(t1 == t2);
        },
        TagV::Compound(ts1) => {
            lemma_compound_unique(ts1, t2->Compound_0, s);
            assert(t1 == t2);
        },
        TagV::IntArray(x1) => {
            let x2 = t2->IntArray_0;
            lemma_prefix_concat(be32(x1.len() as u32), ints_bytes(x1), s);
            lemma_prefix_concat(be32(x2.len() as u32), ints_bytes(x2), s);
            lemma_prefix_eq(be32(x1.len() as u32), be32(x2.len() as u32), s);
            lemma_be32(x1.len() as u32, seq![]);
            lemma_be32(x2.len() as u32, seq![]);
            lemma_ints_bytes(x1, x2);
            lemma_ints_bytes(x2, x1);
            lemma_prefix_eq(ints_bytes(x1), ints_bytes(x2), s.skip(4));
            assert(t1 == t2);
        },
        TagV::LongArray(x1) => {
            let x2 = t2->LongArray_0;
            lemma_prefix_concat(be32(x1.len() as u32), longs_bytes(x1), s);
            lemma_prefix_concat(be32(x2.len() as u32), longs_bytes(x2), s);
            lemma_prefix_eq(be32(x1.len() as u32), be32(x2.len() as u32), s);
            lemma_be32(x1.len() as u32, seq![]);
            lemma_be32(x2.len() as u32, seq![]);
            lemma_longs_bytes(x1, x2);
            lemma_longs_bytes(x2, x1);
            lemma_prefix_eq(longs_bytes(x1), longs_bytes(x2), s.skip(4));
            assert(t1 == t2);
        },
        TagV::Named(_, _) => {},
    }
}

/// Two runs of list elements of one count and id that both start `s` are equal.
pub proof fn lemma_list_unique(e: i8, ts1: Seq<TagV>, ts2: Seq<TagV>, s: Seq<u8>)
    requires
        ts1.len() == ts2.len(),
        forall|i: int| 0 <= i < ts1.len() ==> payload_wf(e, #[trigger] ts1[i]),
        forall|i: int| 0 <= i < ts2.len() ==> payload_wf(e, #[trigger] ts2[i]),
        is_prefix(list_bytes(ts1), s),
        is_prefix(list_bytes(ts2), s),
    ensures
        ts1 == ts2,
    decreases ts1,
{
    if ts1.len() > 0 {
        let (a1, a2) = (payload_bytes(ts1[0]), payload_bytes(ts2[0]));
        lemma_prefix_concat(a1, list_bytes(ts1.drop_first()), s);
        lemma_prefix_concat(a2, list_bytes(ts2.drop_first()), s);
        lemma_payload_unique(e, ts1[0], ts2[0], s);
        lemma_list_unique(e, ts1.drop_first(), ts2.drop_first(), s.skip(a1.len() as int));
        assert(ts1 =~= ts2) by {
            assert forall|k: int| 0 <= k < ts1.len() implies ts1[k] == ts2[k] by {
                if k > 0 {
                    assert(ts1.drop_first()[k - 1] == ts2.drop_first()[k - 1]);
                }
            }
        }
    } else {
        assert(ts1 =~= ts2);
    }
}

/// Two entries that both start `s` are equal.
pub proof fn lemma_entry_unique(t1: TagV, t2: TagV, s: Seq<u8>)
    requires
        entry_wf(t1),
        entry_wf(t2),
        is_prefix(payload_bytes(t1), s),
        is_prefix(payload_bytes(t2), s),
    ensures
        t1 == t2,
    decreases t1,
{
    lemma_casts();
    let (n1, v1, n2, v2) = (*t1->Named_0, *t1->Named_1, *t2->Named_0, *t2->Named_1);
    let (id1, id2) = (tag_id(v1), tag_id(v2));
    assert(payload_bytes(t1) == seq![id1 as u8] + payload_bytes(n1) + payload_bytes(v1));
    assert(payload_bytes(t2) == seq![id2 as u8] + payload_bytes(n2) + payload_bytes(v2));
    lemma_prefix_concat(seq![id1 as u8] + payload_bytes(n1), payload_bytes(v1), s);
    lemma_prefix_concat(seq![id2 as u8] + payload_bytes(n2), payload_bytes(v2), s);
    lemma_prefix_concat(seq![id1 as u8], payload_bytes(n1), s);
    lemma_prefix_concat(seq![id2 as u8], payload_bytes(n2), s);
    assert(s.subrange(0, 1)[0] == s[0]);
    assert(s[0] == id1 as u8 && s[0] == id2 as u8);
    assert((id1 as u8) as i8 == id1);
    assert((id2 as u8) as i8 == id2);
    lemma_payload_unique(8, n1, n2, s.skip(1));
    let m = 1 + payload_bytes(n1).len() as int;
    lemma_skip_skip(s, 1, payload_bytes(n1).len() as int);
    lemma_payload_unique(id1, v1, v2, s.skip(m));
}

/// Two compounds whose entries both start `s` are equal.
pub proof fn lemma_compound_unique(ts1: Seq<TagV>, ts2: Seq<TagV>, s: Seq<u8>)
    requires
        compound_wf(ts1),
        compound_wf(ts2),
        is_prefix(compound_bytes(ts1), s),
        is_prefix(compound_bytes(ts2), s),
    ensures
        ts1 == ts2,
    decreases ts1,
{
    let (f1, f2) = (ts1[0], ts2[0]);
    let a1 = if f1 is End { seq![0u8] } else { payload_bytes(f1) };
    let a2 = if f2 is End { seq![0u8] } else { payload_bytes(f2) };
    lemma_prefix_concat(a1, compound_bytes(ts1.drop_first()), s);
    lemma_prefix_concat(a2, compound_bytes(ts2.drop_first()), s);
    if ts1.len() > 1 {
        lemma_entry_first_byte(f1);
    }
    if ts2.len() > 1 {
        lemma_entry_first_byte(f2);
    }
    if ts1.len() == 1 || ts2.len() == 1 {
        assert(s[0] == a1[0] && s[0] == a2[0]);
        assert(ts1.len() == 1 && ts2.len() == 1);
        assert(ts1 =~= ts2);
    } else {
        lemma_entry_unique(f1, f2, s);
        let r1 = ts1.drop_first();
        let r2 = ts2.drop_first();
        assert(compound_wf(r1)) by {
            assert forall|i: int| 0 <= i < r1.len() - 1 implies entry_wf(#[trigger] r1[i]) by {
                assert(r1[i] == ts1[i + 1]);
            }
        }
        assert(compound_wf(r2)) by {
            assert forall|i: int| 0 <= i < r2.len() - 1 implies entry_wf(#[trigger] r2[i]) by {
                assert(r2[i] == ts2[i + 1]);
            }
        }
        lemma_compound_unique(r1, r2, s.skip(a1.len() as int));
        assert(ts1 =~= ts2) by {
            assert forall|k: int| 0 <= k < ts1.len() implies ts1[k] == ts2[k] by {
                if k > 0 {
                    assert(r1[k - 1] == r2[k - 1]);
                }
            }
        }
    }
}

/// Where a run of decoded list elements starts the elements of a
/// well-formed list, the next element follows it.
pub proof fn lemma_list_prefix(e: i8, ds: Seq<TagV>, ts: Seq<TagV>, s: Seq<u8>)
    requires
        ds.len() < ts.len(),
        forall|i: int| 0 <= i < ds.len() ==> payload_wf(e, #[trigger] ds[i]),
        forall|i: int| 0 <= i < ts.len() ==> payload_wf(e, #[trigger] ts[i]),
        is_prefix(list_bytes(ds), s),
        is_prefix(list_bytes(ts), s),
    ensures
        is_prefix(payload_bytes(ts[ds.len() as int]), s.skip(list_bytes(ds).len() as int)),
    decreases ds.len(),
{
    lemma_prefix_concat(payload_bytes(ts[0]), list_bytes(ts.drop_first()), s);
    if ds.len() == 0 {
        assert(s.skip(0) =~= s);
    } else {
        lemma_prefix_concat(payload_bytes(ds[0]), list_bytes(ds.drop_first()), s);
        lemma_payload_unique(e, ds[0], ts[0], s);
        let l0 = payload_bytes(ds[0]).len() as int;
        lemma_list_prefix(e, ds.drop_first(), ts.drop_first(), s.skip(l0));
        assert(ts.drop_first()[ds.len() - 1] == ts[ds.len() as int]);
        lemma_skip_skip(s, l0, list_bytes(ds.drop_first()).len() as int);
    }
}

/// Where a run of decoded entries starts the entries of a well-formed
/// compound, the compound has more, and its next one follows the run.
pub proof fn lemma_compound_prefix(acc: Seq<TagV>, ts: Seq<TagV>, s: Seq<u8>)
    requires
        forall|i: int| 0 <= i < acc.len() ==> entry_wf(#[trigger] acc[i]),
        compound_wf(ts),
        is_prefix(compound_bytes(acc), s),
        is_prefix(compound_bytes(ts), s),
    ensures
        acc.len() < ts.len(),
        is_prefix(named_bytes(ts[acc.len() as int]), s.skip(compound_bytes(acc).len() as int)),
        acc.len() < ts.len() - 1 ==> entry_wf(ts[acc.len() as int]),
    decreases acc.len(),
{
    lemma_prefix_concat(named_bytes(ts[0]), compound_bytes(ts.drop_first()), s);
    assert(compound_bytes(ts) == named_bytes(ts[0]) + compound_bytes(ts.drop_first()));
    if acc.len() == 0 {
        assert(s.skip(0) =~= s);
    } else {
        assert(compound_bytes(acc) == named_bytes(acc[0]) + compound_bytes(acc.drop_first()));
        lemma_prefix_concat(named_bytes(acc[0]), compound_bytes(acc.drop_first()), s);
        lemma_entry_first_byte(acc[0]);
        if ts.len() == 1 {
            assert(s.subrange(0, 1)[0] == s[0]);
            assert(false);
        }
        lemma_entry_first_byte(ts[0]);
        lemma_entry_unique(acc[0], ts[0], s);
        let l0 = named_bytes(acc[0]).len() as int;
        let (a1, t1) = (acc.drop_first(), ts.drop_first());
        assert(compound_wf(t1)) by {
            assert forall|i: int| 0 <= i < t1.len() - 1 implies entry_wf(#[trigger] t1[i]) by {
                assert(t1[i] == ts[i + 1]);
            }
        }
        assert forall|i: int| 0 <= i < a1.len() implies entry_wf(#[trigger] a1[i]) by {
            assert(a1[i] == acc[i + 1]);
        }
        lemma_compound_prefix(a1, t1, s.skip(l0));
        assert(t1[a1.len() as int] == ts[acc.len() as int]);
        lemma_skip_skip(s, l0, compound_bytes(a1).len() as int);
    }
}

/// Two tags that can each stand as a whole buffer and both start `s` are equal.
pub proof fn lemma_top_unique(t1: TagV, t2: TagV, s: Seq<u8>)
    requires
        top_wf(t1),
        top_wf(t2),
        is_prefix(named_bytes(t1), s),
        is_prefix(named_bytes(t2), s),
    ensures
        t1 == t2,
{
    assert(s.subrange(0, 1)[0] == s[0]);
    if t1 is End {
        if !(t2 is End) {
            lemma_entry_first_byte(t2);
        }
    } else {
        lemma_entry_first_byte(t1);
        if !(t2 is End) {
            lemma_entry_unique(t1, t2, s);
        }
    }
}

/// A well-formed tag has every length within its prefix.
pub proof fn lemma_wf_fits(id: i8, t: TagV)
    ensures
        payload_wf(id, t) ==> fits(t),
        entry_wf(t) ==> fits(t),
    decreases t,
{
    match t {
        TagV::List(e, ts) => {
            assert forall|i: int| 0 <= i < ts.len() && payload_wf(id, t) implies fits(
                #[trigger] ts[i],
            ) by {
                lemma_wf_fits(e, ts[i]);
            }
        },
        TagV::Compound(ts) => {
            assert forall|i: int| 0 <= i < ts.len() && payload_wf(id, t) implies fits(
                #[trigger] ts[i],
            ) by {
                lemma_wf_fits(0, ts[i]);
                assert(compound_wf(ts));
                if i < ts.len() - 1 {
                    assert(entry_wf(ts[i]));
                } else {
                    assert(ts[i] == ts.last());
                }
            }
        },
        TagV::Named(n, v) => {
            lemma_wf_fits(8, *n);
            lemma_wf_fits(tag_id(*v), *v);
        },
        _ => {},
    }
}

/// Some tag that can stand as a whole buffer is written at the start of `s`.
pub open spec fn top_decodable(s: Seq<u8>) -> bool {
    exists|t: TagV| top_wf(t) && is_prefix(named_bytes(t), s)
}

/// Some payload of type id `id` is written at the start of `s`.
pub open spec fn payload_decodable(id: i8, s: Seq<u8>) -> bool {
    exists|t: TagV| payload_wf(id, t) && is_prefix(payload_bytes(t), s)
}

/// The tag written at the start of `s`, if there is one; by
/// [`lemma_top_unique`] there is at most one.
pub open spec fn decode_top(s: Seq<u8>) -> Option<TagV> {
    if top_decodable(s) {
        Some(choose|t: TagV| top_wf(t) && is_prefix(named_bytes(t), s))
    } else {
        None
    }
}

/// Round trip: every tag that can stand as a whole buffer can be encoded,
/// and its bytes, followed by anything, decode to that same tag.
pub proof fn lemma_round_trip(t: TagV, more: Seq<u8>)
    requires
        top_wf(t),
    ensures
        fits(t),
        decode_top(named_bytes(t) + more) == Some(t),
{
    lemma_wf_fits(0, t);
    let s = named_bytes(t) + more;
    assert(s.subrange(0, named_bytes(t).len() as int) =~= named_bytes(t));
    assert(top_decodable(s));
    let u = choose|u: TagV| top_wf(u) && is_prefix(named_bytes(u), s);
    lemma_top_unique(u, t, s);
}

pub proof fn lemma_prefix_trans(a: Seq<u8>, b: Seq<u8>, c: Seq<u8>)
    requires
        is_prefix(a, b),
        is_prefix(b, c),
    ensures
        is_prefix(a, c),
{
    assert(c.subrange(0, a.len() as int) =~= b.subrange(0, a.len() as int));
}

/// Two starts of one sequence: one of them starts the other.
pub proof fn lemma_prefix_split(a: Seq<u8>, x: Seq<u8>, big: Seq<u8>)
    requires
        is_prefix(a, big),
        is_prefix(x, big),
    ensures
        is_prefix(a, x) || (x.len() < a.len() && is_prefix(x, a)),
{
    if a.len() <= x.len() {
        assert(x.subrange(0, a.len() as int) =~= big.subrange(0, a.len() as int));
    } else {
        assert(a.subrange(0, x.len() as int) =~= big.subrange(0, x.len() as int));
    }
}

pub proof fn lemma_prefix_skip(a: Seq<u8>, b: Seq<u8>, k: int)
    requires
        is_prefix(a, b),
        0 <= k <= a.len(),
    ensures
        is_prefix(a.skip(k), b.skip(k)),
{
    assert(b.skip(k).subrange(0, a.skip(k).len() as int) =~= a.skip(k));
}

/// The data stop inside the payload of some well-formed tag of type id `id`.
pub open spec fn payload_cut(id: i8, s: Seq<u8>) -> bool {
    exists|t: TagV| payload_wf(id, t) && s.len() < payload_bytes(t).len() && is_prefix(
        s,
        #[trigger] payload_bytes(t),
    )
}

/// The data stop inside the encoding of some tag that can stand as a whole buffer.
pub open spec fn top_cut(s: Seq<u8>) -> bool {
    exists|t: TagV| top_wf(t) && s.len() < named_bytes(t).len() && is_prefix(
        s,
        #[trigger] named_bytes(t),
    )
}

/// Data that start like a payload either hold all of it or stop inside it.
pub proof fn lemma_next_cut(id: i8, x: Seq<u8>, u: TagV, big: Seq<u8>)
    requires
        payload_wf(id, u),
        is_prefix(payload_bytes(u), big),
        is_prefix(x, big),
    ensures
        payload_decodable(id, x) || payload_cut(id, x),
{
    lemma_prefix_split(payload_bytes(u), x, big);
}

pub proof fn lemma_next_top_cut(x: Seq<u8>, u: TagV, big: Seq<u8>)
    requires
        top_wf(u),
        is_prefix(named_bytes(u), big),
        is_prefix(x, big),
    ensures
        top_decodable(x) || top_cut(x),
{
    lemma_prefix_split(named_bytes(u), x, big);
}

/// Data that hold a whole payload do not stop inside one.
pub proof fn lemma_decoded_not_cut(id: i8, u: TagV, s: Seq<u8>)
    requires
        payload_wf(id, u),
        is_prefix(payload_bytes(u), s),
    ensures
        !payload_cut(id, s),
{
    if payload_cut(id, s) {
        let t = choose|t: TagV| payload_wf(id, t) && s.len() < payload_bytes(t).len() && is_prefix(
            s,
            #[trigger] payload_bytes(t),
        );
        lemma_prefix_trans(payload_bytes(u), s, payload_bytes(t));
        assert(payload_bytes(t).subrange(0, payload_bytes(t).len() as int) =~= payload_bytes(t));
        lemma_payload_unique(id, u, t, payload_bytes(t));
    }
}

pub proof fn lemma_decoded_not_top_cut(u: TagV, s: Seq<u8>)
    requires
        top_wf(u),
        is_prefix(named_bytes(u), s),
    ensures
        !top_cut(s),
{
    if top_cut(s) {
        let t = choose|t: TagV| top_wf(t) && s.len() < named_bytes(t).len() && is_prefix(
            s,
            #[trigger] named_bytes(t),
        );
        lemma_prefix_trans(named_bytes(u), s, named_bytes(t));
        assert(named_bytes(t).subrange(0, named_bytes(t).len() as int) =~= named_bytes(t));
        lemma_top_unique(u, t, named_bytes(t));
    }
}

} // verus!
