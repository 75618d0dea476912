use vstd::prelude::*;

use crate::decode::{names_has, spec_decode_document, spec_decode_elems, spec_decode_entries,
    spec_decode_value};
use crate::primitive::{as_signed, cesu8_decode, cesu8_encode};
use crate::value::{DecodeError, DocV, TagV, TagValue, TAG_BYTE_ARRAY, TAG_COMPOUND, TAG_END, TAG_INT_ARRAY,
    TAG_LIST, TAG_LONG_ARRAY};

verus! {

/// The unsigned two's-complement reading of a signed value: the inverse of
/// `as_signed` on its range.
pub open spec fn as_unsigned(v: int, half: int) -> int {
    if v < 0 {
        v + 2 * half
    } else {
        v
    }
}

/// Big-endian bytes of fixed-width unsigned values.
pub open spec fn be2(x: u16) -> Seq<u8> {
    seq![(x >> 8) as u8, x as u8]
}

pub open spec fn be4(x: u32) -> Seq<u8> {
    seq![(x >> 24) as u8, (x >> 16) as u8, (x >> 8) as u8, x as u8]
}

pub open spec fn be8(x: u64) -> Seq<u8> {
    seq![
        (x >> 56) as u8,
        (x >> 48) as u8,
        (x >> 40) as u8,
        (x >> 32) as u8,
        (x >> 24) as u8,
        (x >> 16) as u8,
        (x >> 8) as u8,
        x as u8,
    ]
}

/// A bare string on the wire: length prefix, then modified UTF-8 bytes.
pub open spec fn enc_bare(t: Seq<char>) -> Seq<u8> {
    be2(cesu8_encode(t).len() as u16) + cesu8_encode(t)
}

/// The wire bytes of one value, as a conforming encoder writes them.
pub open spec fn spec_encode_value(v: TagV) -> Seq<u8>
    decreases v, 0int,
{
    match v {
        TagV::End => Seq::empty(),
        TagV::Byte(b) => seq![as_unsigned(b as int, 0x80) as u8],
        TagV::Short(x) => be2(as_unsigned(x as int, 0x8000) as u16),
        TagV::Int(x) => be4(as_unsigned(x as int, 0x8000_0000) as u32),
        TagV::Long(x) => be8(as_unsigned(x as int, 0x8000_0000_0000_0000) as u64),
        TagV::Float(bits) => be4(bits),
        TagV::Double(bits) => be8(bits),
        TagV::ByteArray(xs) => be4(xs.len() as u32) + Seq::new(
            xs.len(),
            |i: int| as_unsigned(xs[i] as int, 0x80) as u8,
        ),
        TagV::Str(t) => enc_bare(t),
        TagV::List(k, es) => seq![k] + be4(es.len() as u32) + enc_elems(es),
        TagV::Compound(es) => enc_entries(es) + seq![TAG_END],
        TagV::IntArray(xs) => be4(xs.len() as u32) + Seq::new(
            4 * xs.len(),
            |j: int| be4(as_unsigned(xs[j / 4] as int, 0x8000_0000) as u32)[j % 4],
        ),
        TagV::LongArray(xs) => be4(xs.len() as u32) + Seq::new(
            8 * xs.len(),
            |j: int| be8(as_unsigned(xs[j / 8] as int, 0x8000_0000_0000_0000) as u64)[j % 8],
        ),
    }
}

/// The wire bytes of a run of list elements, in order.
pub open spec fn enc_elems(es: Seq<TagV>) -> Seq<u8>
    decreases es, 1int,
{
    if es.len() == 0 {
        Seq::empty()
    } else {
        spec_encode_value(es[0]) + enc_elems(es.drop_first())
    }
}

/// The wire bytes of a run of compound entries, without the closing End.
pub open spec fn enc_entries(es: Seq<(Seq<char>, TagV)>) -> Seq<u8>
    decreases es, 1int,
{
    if es.len() == 0 {
        Seq::empty()
    } else {
        seq![es[0].1.tag_id()] + enc_bare(es[0].0) + spec_encode_value(es[0].1) + enc_entries(
            es.drop_first(),
        )
    }
}

/// The wire bytes of a whole document envelope.
pub open spec fn spec_encode_document(d: DocV) -> Seq<u8> {
    seq![TAG_COMPOUND] + enc_bare(d.title) + spec_encode_value(d.root)
}

/// A text that the wire format can carry: its modified UTF-8 bytes fit the
/// 16-bit length prefix, are empty exactly for the empty text, and decode
/// back to the text itself.
pub open spec fn str_ok(t: Seq<char>) -> bool {
    &&& cesu8_encode(t).len() < 0x10000
    &&& (cesu8_encode(t).len() == 0 <==> t.len() == 0)
    &&& cesu8_decode(cesu8_encode(t)) == Some(t)
}

/// A value that a conforming encoder can write and the decoder then reads
/// back unchanged: counts fit their 32-bit signed prefixes, texts satisfy
/// `str_ok`, lists are homogeneous, and compound names are distinct, with no
/// entry of the End kind.
pub open spec fn encodable(v: TagV) -> bool
    decreases v, 0int,
{
    match v {
        TagV::ByteArray(xs) => xs.len() < 0x8000_0000,
        TagV::Str(t) => str_ok(t),
        TagV::List(k, es) => {
            &&& es.len() < 0x8000_0000
            &&& forall|i: int|
                0 <= i < es.len() ==> (#[trigger] es[i]).tag_id() == k && encodable(es[i])
        },
        TagV::Compound(es) => {
            &&& forall|i: int, j: int|
                0 <= i < j < es.len() ==> (#[trigger] es[i].0) != (#[trigger] es[j].0)
            &&& forall|i: int|
                0 <= i < es.len() ==> str_ok((#[trigger] es[i]).0) && es[i].1.tag_id() != TAG_END
                    && encodable(es[i].1)
        },
        TagV::IntArray(xs) => xs.len() < 0x8000_0000,
        TagV::LongArray(xs) => xs.len() < 0x8000_0000,
        _ => true,
    }
}

/// A document that a conforming encoder can write.
pub open spec fn encodable_doc(d: DocV) -> bool {
    &&& d.root is Compound
    &&& str_ok(d.title)
    &&& encodable(d.root)
}


/// The big-endian reading of `be2`'s bytes is the value itself.
proof fn lemma_be2_read(x: u16)
    ensures
        be2(x)[0] * 0x100 + be2(x)[1] == x,
{
    assert((((x >> 8) as u8) as u16) * 0x100 + ((x as u8) as u16) == x) by (bit_vector);
}

/// The big-endian reading of `be4`'s bytes is the value itself.
proof fn lemma_be4_read(x: u32)
    ensures
        be4(x)[0] * 0x100_0000 + be4(x)[1] * 0x1_0000 + be4(x)[2] * 0x100 + be4(x)[3] == x,
{
    assert((((x >> 24) as u8) as u32) * 0x100_0000 + (((x >> 16) as u8) as u32) * 0x1_0000 + (((x
        >> 8) as u8) as u32) * 0x100 + ((x as u8) as u32) == x) by (bit_vector);
}

/// The big-endian reading of `be8`'s bytes is the value itself.
proof fn lemma_be8_read(x: u64)
    ensures
        be8(x)[0] * 0x100_0000_0000_0000 + be8(x)[1] * 0x1_0000_0000_0000 + be8(x)[2]
            * 0x100_0000_0000 + be8(x)[3] * 0x1_0000_0000 + be8(x)[4] * 0x100_0000 + be8(x)[5]
            * 0x1_0000 + be8(x)[6] * 0x100 + be8(x)[7] == x,
{
    assert((((x >> 56) as u8) as u64) * 0x100_0000_0000_0000 + (((x >> 48) as u8) as u64)
        * 0x1_0000_0000_0000 + (((x >> 40) as u8) as u64) * 0x100_0000_0000 + (((x
        >> 32) as u8) as u64) * 0x1_0000_0000 + (((x >> 24) as u8) as u64) * 0x100_0000 + (((x
        >> 16) as u8) as u64) * 0x1_0000 + (((x >> 8) as u8) as u64) * 0x100 + ((x as u8) as u64)
        == x) by (bit_vector);
}

/// A subrange equal to a concatenation splits into two subranges.
proof fn lemma_sub_split(s: Seq<u8>, pos: int, a: Seq<u8>, b: Seq<u8>)
    requires
        0 <= pos,
        pos + a.len() + b.len() <= s.len(),
        s.subrange(pos, pos + a.len() + b.len()) == a + b,
    ensures
        s.subrange(pos, pos + a.len()) == a,
        s.subrange(pos + a.len(), pos + a.len() + b.len()) == b,
        forall|k: int| 0 <= k < a.len() ==> s[pos + k] == a[k],
        forall|k: int| 0 <= k < b.len() ==> s[pos + a.len() + k] == b[k],
{
    assert forall|k: int| 0 <= k < a.len() implies s[pos + k] == a[k] by {
        assert(s.subrange(pos, pos + a.len() + b.len())[k] == s[pos + k]);
        assert((a + b)[k] == a[k]);
    }
    assert forall|k: int| 0 <= k < b.len() implies s[pos + a.len() + k] == b[k] by {
        assert(s.subrange(pos, pos + a.len() + b.len())[a.len() + k] == s[pos + a.len() + k]);
        assert((a + b)[a.len() + k] == b[k]);
    }
    assert(s.subrange(pos, pos + a.len()) =~= a);
    assert(s.subrange(pos + a.len(), pos + a.len() + b.len()) =~= b);
}

/// A bare string laid down by the encoder reads back as itself.
proof fn lemma_rt_bare(s: Seq<u8>, pos: int, t: Seq<char>)
    requires
        str_ok(t),
        0 <= pos,
        pos + enc_bare(t).len() <= s.len(),
        s.subrange(pos, pos + enc_bare(t).len()) == enc_bare(t),
    ensures
        crate::primitive::spec_bare_string(s, pos) == Ok::<(Seq<char>, int), DecodeError>(
            (t, pos + enc_bare(t).len()),
        ),
{
    let eb = cesu8_encode(t);
    let bl = eb.len() as int;
    let pre = be2(bl as u16);
    assert(enc_bare(t) == pre + eb);
    lemma_sub_split(s, pos, pre, eb);
    lemma_be2_read(bl as u16);
    assert(crate::primitive::be16(s, pos) == bl);
    if bl == 0 {
        assert(t =~= Seq::<char>::empty());
    } else {
        assert(s.subrange(pos + 2, pos + 2 + bl) =~= eb);
    }
}



/// Each byte under a subrange known to equal `e` is the matching byte of `e`.
proof fn lemma_sub_index(s: Seq<u8>, pos: int, e: Seq<u8>)
    requires
        0 <= pos,
        pos + e.len() <= s.len(),
        s.subrange(pos, pos + e.len()) == e,
    ensures
        forall|k: int| 0 <= k < e.len() ==> s[pos + k] == #[trigger] e[k],
{
    assert forall|k: int| 0 <= k < e.len() implies s[pos + k] == #[trigger] e[k] by {
        assert(s.subrange(pos, pos + e.len())[k] == s[pos + k]);
    }
}

/// A byte array laid down by the encoder reads back as itself.
proof fn lemma_rt_byte_array(s: Seq<u8>, pos: int, xs: Seq<i8>)
    requires
        xs.len() < 0x8000_0000,
        0 <= pos,
        pos + spec_encode_value(TagV::ByteArray(xs)).len() <= s.len(),
        s.subrange(pos, pos + spec_encode_value(TagV::ByteArray(xs)).len()) == spec_encode_value(
            TagV::ByteArray(xs),
        ),
    ensures
        spec_decode_value(s, pos, TAG_BYTE_ARRAY) == Ok::<(TagV, int), DecodeError>(
            (TagV::ByteArray(xs), pos + 4 + xs.len()),
        ),
{
    let n = xs.len() as int;
    let pre = be4(n as u32);
    let payload = Seq::new(xs.len(), |i: int| as_unsigned(xs[i] as int, 0x80) as u8);
    assert(spec_encode_value(TagV::ByteArray(xs)) == pre + payload);
    lemma_sub_split(s, pos, pre, payload);
    lemma_be4_read(n as u32);
    assert(crate::primitive::be32(s, pos) == n);
    let r = spec_decode_value(s, pos, TAG_BYTE_ARRAY);
    assert(r is Ok);
    let v0 = r->Ok_0.0;
    assert forall|k: int| 0 <= k < n implies v0->ByteArray_0[k] == xs[k] by {
        assert(s[pos + 4 + k] == payload[k]);
        assert(payload[k] == as_unsigned(xs[k] as int, 0x80) as u8);
    }
    assert(v0->ByteArray_0 =~= xs);
}

/// An int array laid down by the encoder reads back as itself.
proof fn lemma_rt_int_array(s: Seq<u8>, pos: int, xs: Seq<i32>)
    requires
        xs.len() < 0x8000_0000,
        0 <= pos,
        pos + spec_encode_value(TagV::IntArray(xs)).len() <= s.len(),
        s.subrange(pos, pos + spec_encode_value(TagV::IntArray(xs)).len()) == spec_encode_value(
            TagV::IntArray(xs),
        ),
    ensures
        spec_decode_value(s, pos, TAG_INT_ARRAY) == Ok::<(TagV, int), DecodeError>(
            (TagV::IntArray(xs), pos + 4 + 4 * xs.len()),
        ),
{
    let n = xs.len() as int;
    let pre = be4(n as u32);
    let payload = Seq::new(
        4 * xs.len(),
        |j: int| be4(as_unsigned(xs[j / 4] as int, 0x8000_0000) as u32)[j % 4],
    );
    assert(spec_encode_value(TagV::IntArray(xs)) == pre + payload);
    lemma_sub_split(s, pos, pre, payload);
    lemma_be4_read(n as u32);
    assert(crate::primitive::be32(s, pos) == n);
    let r = spec_decode_value(s, pos, TAG_INT_ARRAY);
    assert(r is Ok);
    let v0 = r->Ok_0.0;
    assert forall|k: int| 0 <= k < n implies v0->IntArray_0[k] == xs[k] by {
        let u = as_unsigned(xs[k] as int, 0x8000_0000) as u32;
        assert forall|m: int| 0 <= m < 4 implies s[pos + 4 + 4 * k + m] == be4(u)[m] by {
            assert((4 * k + m) / 4 == k && (4 * k + m) % 4 == m) by (nonlinear_arith)
                requires
                    0 <= m < 4,
                    0 <= k,
            ;
            assert(s[pos + 4 + (4 * k + m)] == payload[4 * k + m]);
        }
        lemma_be4_read(u);
        assert(crate::primitive::be32(s, pos + 4 + 4 * k) == u);
    }
    assert(v0->IntArray_0 =~= xs);
}

/// A long array laid down by the encoder reads back as itself.
proof fn lemma_rt_long_array(s: Seq<u8>, pos: int, xs: Seq<i64>)
    requires
        xs.len() < 0x8000_0000,
        0 <= pos,
        pos + spec_encode_value(TagV::LongArray(xs)).len() <= s.len(),
        s.subrange(pos, pos + spec_encode_value(TagV::LongArray(xs)).len()) == spec_encode_value(
            TagV::LongArray(xs),
        ),
    ensures
        spec_decode_value(s, pos, TAG_LONG_ARRAY) == Ok::<(TagV, int), DecodeError>(
            (TagV::LongArray(xs), pos + 4 + 8 * xs.len()),
        ),
{
    let n = xs.len() as int;
    let pre = be4(n as u32);
    let payload = Seq::new(
        8 * xs.len(),
        |j: int| be8(as_unsigned(xs[j / 8] as int, 0x8000_0000_0000_0000) as u64)[j % 8],
    );
    assert(spec_encode_value(TagV::LongArray(xs)) == pre + payload);
    lemma_sub_split(s, pos, pre, payload);
    lemma_be4_read(n as u32);
    assert(crate::primitive::be32(s, pos) == n);
    let r = spec_decode_value(s, pos, TAG_LONG_ARRAY);
    assert(r is Ok);
    let v0 = r->Ok_0.0;
    assert forall|k: int| 0 <= k < n implies v0->LongArray_0[k] == xs[k] by {
        let u = as_unsigned(xs[k] as int, 0x8000_0000_0000_0000) as u64;
        assert forall|m: int| 0 <= m < 8 implies s[pos + 4 + 8 * k + m] == be8(u)[m] by {
            assert((8 * k + m) / 8 == k && (8 * k + m) % 8 == m) by (nonlinear_arith)
                requires
                    0 <= m < 8,
                    0 <= k,
            ;
            assert(s[pos + 4 + (8 * k + m)] == payload[8 * k + m]);
        }
        lemma_be8_read(u);
        assert(crate::primitive::be64(s, pos + 4 + 8 * k) == u);
    }
    assert(v0->LongArray_0 =~= xs);
}

/// Whatever a conforming encoder lays down, the decoder reads back as the
/// value it encoded, ending exactly past its bytes.
pub proof fn lemma_rt_value(s: Seq<u8>, pos: int, v: TagV)
    requires
        encodable(v),
        0 <= pos,
        pos + spec_encode_value(v).len() <= s.len(),
        s.subrange(pos, pos + spec_encode_value(v).len()) == spec_encode_value(v),
    ensures
        spec_decode_value(s, pos, v.tag_id()) == Ok::<(TagV, int), DecodeError>(
            (v, pos + spec_encode_value(v).len()),
        ),
    decreases v, 0int,
{
    let e = spec_encode_value(v);
    match v {
        TagV::End => {},
        TagV::Byte(b) => {
            assert(s.subrange(pos, pos + 1)[0] == s[pos]);
            assert(s[pos] == as_unsigned(b as int, 0x80) as u8);
        },
        TagV::Short(x) => {
            let u = as_unsigned(x as int, 0x8000) as u16;
            lemma_sub_index(s, pos, be2(u));
            lemma_be2_read(u);
        },
        TagV::Int(x) => {
            let u = as_unsigned(x as int, 0x8000_0000) as u32;
            lemma_sub_index(s, pos, be4(u));
            lemma_be4_read(u);
        },
        TagV::Long(x) => {
            let u = as_unsigned(x as int, 0x8000_0000_0000_0000) as u64;
            lemma_sub_index(s, pos, be8(u));
            lemma_be8_read(u);
        },
        TagV::Float(bits) => {
            lemma_sub_index(s, pos, be4(bits));
            lemma_be4_read(bits);
        },
        TagV::Double(bits) => {
            lemma_sub_index(s, pos, be8(bits));
            lemma_be8_read(bits);
        },
        TagV::ByteArray(xs) => {
            lemma_rt_byte_array(s, pos, xs);
        },
        TagV::Str(t) => {
            lemma_rt_bare(s, pos, t);
        },
        TagV::List(k, es) => {
            let cnt = es.len() as int;
            let pre = seq![k] + be4(cnt as u32);
            assert(e =~= pre + enc_elems(es));
            lemma_sub_split(s, pos, pre, enc_elems(es));
            assert(s[pos + 0] == pre[0]);
            assert(pre[0] == k);
            assert forall|m: int| 0 <= m < 4 implies s[pos + 1 + m] == #[trigger] be4(
                cnt as u32,
            )[m] by {
                assert(pre[1 + m] == be4(cnt as u32)[m]);
                assert(s[pos + (1 + m)] == pre[1 + m]);
            }
            lemma_be4_read(cnt as u32);
            assert(crate::primitive::be32(s, pos + 1) == cnt);
            if cnt == 0 {
                assert(enc_elems(es).len() == 0);
                let r = spec_decode_value(s, pos, TAG_LIST);
                assert(r == Ok::<(TagV, int), DecodeError>((TagV::List(k, Seq::empty()), pos + 5)));
                assert(es =~= Seq::<TagV>::empty());
            } else {
                lemma_rt_elems(s, pos + 5, k, es);
            }
        },
        TagV::Compound(es) => {
            assert(e == enc_entries(es) + seq![TAG_END]);
            lemma_rt_entries(s, pos, Seq::empty(), es);
            assert(Seq::<(Seq<char>, TagV)>::empty() + es =~= es);
        },
        TagV::IntArray(xs) => {
            lemma_rt_int_array(s, pos, xs);
        },
        TagV::LongArray(xs) => {
            lemma_rt_long_array(s, pos, xs);
        },
    }
}

/// A run of encoded list elements reads back as those elements, in order.
proof fn lemma_rt_elems(s: Seq<u8>, pos: int, k: u8, es: Seq<TagV>)
    requires
        es.len() < 0x8000_0000,
        forall|i: int| 0 <= i < es.len() ==> (#[trigger] es[i]).tag_id() == k && encodable(es[i]),
        0 <= pos,
        pos + enc_elems(es).len() <= s.len(),
        s.subrange(pos, pos + enc_elems(es).len()) == enc_elems(es),
    ensures
        spec_decode_elems(s, pos, k, es.len() as int) == Ok::<(Seq<TagV>, int), DecodeError>(
            (es, pos + enc_elems(es).len()),
        ),
    decreases es, 1int,
{
    if es.len() == 0 {
        assert(es =~= Seq::<TagV>::empty());
    } else {
        let head = es[0];
        let tail = es.drop_first();
        let e0 = spec_encode_value(head);
        assert(enc_elems(es) == e0 + enc_elems(tail));
        lemma_sub_split(s, pos, e0, enc_elems(tail));
        lemma_rt_value(s, pos, head);
        let p1 = pos + e0.len();
        assert forall|i: int| 0 <= i < tail.len() implies (#[trigger] tail[i]).tag_id() == k
            && encodable(tail[i]) by {
            assert(tail[i] == es[i + 1]);
        }
        lemma_rt_elems(s, p1, k, tail);
        assert(seq![head] + tail =~= es);
    }
}

/// A run of encoded compound entries closed by the End marker reads back as
/// those entries appended to whatever was already read.
proof fn lemma_rt_entries(s: Seq<u8>, pos: int, acc: Seq<(Seq<char>, TagV)>, es: Seq<
    (Seq<char>, TagV),
>)
    requires
        forall|i: int, j: int|
            0 <= i < j < es.len() ==> (#[trigger] es[i].0) != (#[trigger] es[j].0),
        forall|i: int|
            0 <= i < es.len() ==> str_ok((#[trigger] es[i]).0) && es[i].1.tag_id() != TAG_END
                && encodable(es[i].1),
        forall|i: int, j: int|
            0 <= i < es.len() && 0 <= j < acc.len() ==> (#[trigger] acc[j].0) != (
            #[trigger] es[i].0),
        0 <= pos,
        pos + enc_entries(es).len() + 1 <= s.len(),
        s.subrange(pos, pos + enc_entries(es).len() + 1) == enc_entries(es) + seq![TAG_END],
    ensures
        spec_decode_entries(s, pos, acc) == Ok::<(Seq<(Seq<char>, TagV)>, int), DecodeError>(
            (acc + es, pos + enc_entries(es).len() + 1),
        ),
    decreases es, 1int,
{
    if es.len() == 0 {
        assert(enc_entries(es).len() == 0);
        assert((enc_entries(es) + seq![TAG_END])[0] == TAG_END);
        assert(s.subrange(pos, pos + 1)[0] == s[pos]);
        assert(s[pos] == TAG_END);
        assert(acc + es =~= acc);
    } else {
        let name = es[0].0;
        let v = es[0].1;
        let tail = es.drop_first();
        let front = seq![v.tag_id()] + enc_bare(name) + spec_encode_value(v);
        let back = enc_entries(tail) + seq![TAG_END];
        assert(enc_entries(es) + seq![TAG_END] =~= front + back);
        assert(enc_entries(es).len() + 1 == front.len() + back.len());
        lemma_sub_split(s, pos, front, back);
        assert(s[pos] == front[0]);
        assert(front[0] == v.tag_id());
        assert(s[pos] != TAG_END);
        // the bare string that names the entry
        assert forall|m: int| 0 <= m < enc_bare(name).len() implies s[pos + 1 + m] == enc_bare(
            name,
        )[m] by {
            assert(front[1 + m] == enc_bare(name)[m]);
            assert(s[pos + (1 + m)] == front[1 + m]);
        }
        assert(s.subrange(pos + 1, pos + 1 + enc_bare(name).len()) =~= enc_bare(name));
        lemma_rt_bare(s, pos + 1, name);
        let p2 = pos + 1 + enc_bare(name).len();
        // the value of the entry
        assert forall|m: int| 0 <= m < spec_encode_value(v).len() implies s[p2 + m]
            == spec_encode_value(v)[m] by {
            assert(front[1 + enc_bare(name).len() + m] == spec_encode_value(v)[m]);
            assert(s[pos + (1 + enc_bare(name).len() + m)] == front[1 + enc_bare(name).len() + m]);
        }
        assert(s.subrange(p2, p2 + spec_encode_value(v).len()) =~= spec_encode_value(v));
        lemma_rt_value(s, p2, v);
        let p3 = p2 + spec_encode_value(v).len();
        // the name is new
        assert forall|j: int| 0 <= j < acc.len() implies acc[j].0 != name by {
            assert(acc[j].0 != es[0].0);
        }
        assert(!names_has(acc, name));
        // the remaining entries
        assert forall|i: int, j: int|
            0 <= i < j < tail.len() implies (#[trigger] tail[i].0) != (#[trigger] tail[j].0) by {
            assert(tail[i] == es[i + 1]);
            assert(tail[j] == es[j + 1]);
        }
        assert forall|i: int|
            0 <= i < tail.len() implies str_ok((#[trigger] tail[i]).0) && tail[i].1.tag_id()
                != TAG_END && encodable(tail[i].1) by {
            assert(tail[i] == es[i + 1]);
        }
        let acc2 = acc.push((name, v));
        assert forall|i: int, j: int|
            0 <= i < tail.len() && 0 <= j < acc2.len() implies (#[trigger] acc2[j].0) != (
        #[trigger] tail[i].0) by {
            assert(tail[i] == es[i + 1]);
            if j < acc.len() {
                assert(acc2[j] == acc[j]);
            } else {
                assert(acc2[j].0 == es[0].0);
            }
        }
        assert forall|m: int| 0 <= m < back.len() implies s[p3 + m] == back[m] by {
            assert(s[pos + front.len() + m] == back[m]);
        }
        assert(s.subrange(p3, p3 + enc_entries(tail).len() + 1) =~= back);
        lemma_rt_entries(s, p3, acc2, tail);
        assert(acc2 + tail =~= acc + es);
    }
}

/// What a conforming encoder writes for a document, the raw decoder reads
/// back as exactly that document.
#[verifier::rlimit(100)]
#[verifier::spinoff_prover]
pub proof fn lemma_rt_document(d: DocV)
    requires
        encodable_doc(d),
    ensures
        spec_decode_document(spec_encode_document(d)) == Ok::<DocV, DecodeError>(d),
{
    let s = spec_encode_document(d);
    let eb = enc_bare(d.title);
    let ev = spec_encode_value(d.root);
    assert(s =~= seq![TAG_COMPOUND] + (eb + ev));
    assert(s.len() == 1 + (eb + ev).len());
    assert(s.subrange(0, 1 + (eb + ev).len() as int) =~= s);
    lemma_sub_split(s, 0, seq![TAG_COMPOUND], eb + ev);
    assert(s[0] == TAG_COMPOUND);
    assert forall|m: int| 0 <= m < eb.len() implies s[1 + m] == eb[m] by {
        assert((eb + ev)[m] == eb[m]);
    }
    assert(s.subrange(1, 1 + eb.len() as int) =~= eb);
    lemma_rt_bare(s, 1, d.title);
    let p: int = 1 + eb.len() as int;
    assert forall|m: int| 0 <= m < ev.len() implies s[p + m] == ev[m] by {
        assert((eb + ev)[eb.len() + m] == ev[m]);
        assert(s[1 + (eb.len() + m)] == (eb + ev)[eb.len() + m]);
    }
    assert(s.subrange(p, p + ev.len()) =~= ev);
    lemma_rt_value(s, p, d.root);
    assert(d.root.tag_id() == TAG_COMPOUND);
}


fn push_be2(out: &mut Vec<u8>, x: u16)
    ensures
        final (out)@ == old(out)@ + be2(x),
{
    out.push((x >> 8) as u8);
    out.push(#[verifier::truncate] (x as u8));
    proof {
        assert(out@ =~= old(out)@ + be2(x));
    }
}

fn push_be4(out: &mut Vec<u8>, x: u32)
    ensures
        final (out)@ == old(out)@ + be4(x),
{
    out.push((x >> 24) as u8);
    out.push(#[verifier::truncate] ((x >> 16) as u8));
    out.push(#[verifier::truncate] ((x >> 8) as u8));
    out.push(#[verifier::truncate] (x as u8));
    proof {
        assert(out@ =~= old(out)@ + be4(x));
    }
}

fn push_be8(out: &mut Vec<u8>, x: u64)
    ensures
        final (out)@ == old(out)@ + be8(x),
{
    out.push((x >> 56) as u8);
    out.push(#[verifier::truncate] ((x >> 48) as u8));
    out.push(#[verifier::truncate] ((x >> 40) as u8));
    out.push(#[verifier::truncate] ((x >> 32) as u8));
    out.push(#[verifier::truncate] ((x >> 24) as u8));
    out.push(#[verifier::truncate] ((x >> 16) as u8));
    out.push(#[verifier::truncate] ((x >> 8) as u8));
    out.push(#[verifier::truncate] (x as u8));
    proof {
        assert(out@ =~= old(out)@ + be8(x));
    }
}

fn to_u8(x: i8) -> (r: u8)
    ensures
        r == as_unsigned(x as int, 0x80),
{
    if x >= 0 {
        x as u8
    } else {
        0xffu8 - ((-1i8 - x) as u8)
    }
}

fn to_u16(x: i16) -> (r: u16)
    ensures
        r == as_unsigned(x as int, 0x8000),
{
    if x >= 0 {
        x as u16
    } else {
        0xffffu16 - ((-1i16 - x) as u16)
    }
}

fn to_u32(x: i32) -> (r: u32)
    ensures
        r == as_unsigned(x as int, 0x8000_0000),
{
    if x >= 0 {
        x as u32
    } else {
        0xffff_ffffu32 - ((-1i32 - x) as u32)
    }
}

fn to_u64(x: i64) -> (r: u64)
    ensures
        r == as_unsigned(x as int, 0x8000_0000_0000_0000),
{
    if x >= 0 {
        x as u64
    } else {
        0xffff_ffff_ffff_ffffu64 - ((-1i64 - x) as u64)
    }
}

/// Writes one bare string; refuses a text whose modified UTF-8 bytes exceed
/// the 16-bit length prefix.
fn encode_bare(out: &mut Vec<u8>, t: &String) -> (r: bool)
    ensures
        r ==> final (out)@ == old(out)@ + enc_bare(t@) && str_ok(t@),
        !r ==> !str_ok(t@),
{
    let mut b = crate::primitive::cesu8_encode_str(t.as_str());
    if b.len() >= 0x10000 {
        return false;
    }
    let n = b.len() as u16;
    push_be2(out, n);
    out.append(&mut b);
    proof {
        assert(out@ =~= old(out)@ + enc_bare(t@));
    }
    true
}

/// Writes the wire bytes of one value onto `out`. Succeeds exactly on
/// encodable values; on success what was appended is the value's encoding.
pub fn encode_value_into(v: &TagValue, out: &mut Vec<u8>) -> (r: bool)
    ensures
        r == encodable(v.deep_view()),
        r ==> final (out)@ == old(out)@ + spec_encode_value(v.deep_view()),
    decreases v, 1int,
{
    let ghost base = out@;
    let ghost vd = v.deep_view();
    match v {
        TagValue::End => {
            proof {
                assert(out@ =~= base + spec_encode_value(vd));
            }
            true
        },
        TagValue::Byte(x) => {
            out.push(to_u8(*x));
            proof {
                assert(out@ =~= base + spec_encode_value(vd));
            }
            true
        },
        TagValue::Short(x) => {
            push_be2(out, to_u16(*x));
            true
        },
        TagValue::Int(x) => {
            push_be4(out, to_u32(*x));
            true
        },
        TagValue::Long(x) => {
            push_be8(out, to_u64(*x));
            true
        },
        TagValue::Float(bits) => {
            push_be4(out, *bits);
            true
        },
        TagValue::Double(bits) => {
            push_be8(out, *bits);
            true
        },
        TagValue::ByteArray(xs) => {
            if xs.len() >= 0x8000_0000usize {
                return false;
            }
            let n = xs.len();
            push_be4(out, n as u32);
            let ghost payload = Seq::new(xs@.len(), |i: int| as_unsigned(xs@[i] as int, 0x80) as u8);
            proof {
                assert(spec_encode_value(vd) =~= be4(n as u32) + payload);
                assert(payload.take(0) =~= Seq::<u8>::empty());
                assert(out@ =~= base + be4(n as u32) + payload.take(0));
            }
            let mut i: usize = 0;
            while i < n
                invariant
                    0 <= i <= n,
                    n == xs@.len(),
                    n < 0x8000_0000,
                    payload == Seq::new(xs@.len(), |k: int| as_unsigned(xs@[k] as int, 0x80) as u8),
                    out@ =~= base + be4(n as u32) + payload.take(i as int),
                decreases n - i,
            {
                out.push(to_u8(xs[i]));
                proof {
                    assert(payload.take(i + 1) =~= payload.take(i as int).push(payload[i as int]));
                    assert(out@ =~= base + be4(n as u32) + payload.take(i + 1));
                }
                i = i + 1;
            }
            proof {
                assert(payload.take(n as int) =~= payload);
                assert(out@ =~= base + spec_encode_value(vd));
            }
            true
        },
        TagValue::Str(s) => encode_bare(out, s),
        TagValue::IntArray(xs) => {
            if xs.len() >= 0x8000_0000usize {
                return false;
            }
            let n = xs.len();
            push_be4(out, n as u32);
            let ghost payload = Seq::new(
                4 * xs@.len(),
                |j: int| be4(as_unsigned(xs@[j / 4] as int, 0x8000_0000) as u32)[j % 4],
            );
            proof {
                assert(spec_encode_value(vd) =~= be4(n as u32) + payload);
                assert(payload.take(0) =~= Seq::<u8>::empty());
                assert(out@ =~= base + be4(n as u32) + payload.take(0));
            }
            let mut i: usize = 0;
            while i < n
                invariant
                    0 <= i <= n,
                    n == xs@.len(),
                    payload == Seq::new(
                        4 * xs@.len(),
                        |j: int| be4(as_unsigned(xs@[j / 4] as int, 0x8000_0000) as u32)[j % 4],
                    ),
                    out@ =~= base + be4(n as u32) + payload.take(4 * i),
                decreases n - i,
            {
                let u = to_u32(xs[i]);
                push_be4(out, u);
                proof {
                    assert forall|m: int| 0 <= m < 4 implies payload[4 * i + m] == #[trigger] be4(
                        u,
                    )[m] by {
                        assert((4 * (i as int) + m) / 4 == i as int && (4 * (i as int) + m) % 4
                            == m) by (nonlinear_arith)
                            requires
                                0 <= m < 4,
                                0 <= i,
                        ;
                    }
                    assert(payload.take(4 * (i + 1)) =~= payload.take(4 * i) + be4(u));
                    assert(out@ =~= base + be4(n as u32) + payload.take(4 * (i + 1)));
                }
                i = i + 1;
            }
            proof {
                assert(payload.take(4 * (n as int)) =~= payload);
                assert(out@ =~= base + spec_encode_value(vd));
            }
            true
        },
        TagValue::LongArray(xs) => {
            if xs.len() >= 0x8000_0000usize {
                return false;
            }
            let n = xs.len();
            push_be4(out, n as u32);
            let ghost payload = Seq::new(
                8 * xs@.len(),
                |j: int| be8(as_unsigned(xs@[j / 8] as int, 0x8000_0000_0000_0000) as u64)[j % 8],
            );
            proof {
                assert(spec_encode_value(vd) =~= be4(n as u32) + payload);
                assert(payload.take(0) =~= Seq::<u8>::empty());
                assert(out@ =~= base + be4(n as u32) + payload.take(0));
            }
            let mut i: usize = 0;
            while i < n
                invariant
                    0 <= i <= n,
                    n == xs@.len(),
                    payload == Seq::new(
                        8 * xs@.len(),
                        |j: int| be8(
                            as_unsigned(xs@[j / 8] as int, 0x8000_0000_0000_0000) as u64,
                        )[j % 8],
                    ),
                    out@ =~= base + be4(n as u32) + payload.take(8 * i),
                decreases n - i,
            {
                let u = to_u64(xs[i]);
                push_be8(out, u);
                proof {
                    assert forall|m: int| 0 <= m < 8 implies payload[8 * i + m] == #[trigger] be8(
                        u,
                    )[m] by {
                        assert((8 * (i as int) + m) / 8 == i as int && (8 * (i as int) + m) % 8
                            == m) by (nonlinear_arith)
                            requires
                                0 <= m < 8,
                                0 <= i,
                        ;
                    }
                    assert(payload.take(8 * (i + 1)) =~= payload.take(8 * i) + be8(u));
                    assert(out@ =~= base + be4(n as u32) + payload.take(8 * (i + 1)));
                }
                i = i + 1;
            }
            proof {
                assert(payload.take(8 * (n as int)) =~= payload);
                assert(out@ =~= base + spec_encode_value(vd));
            }
            true
        },
        TagValue::List(k, es) => encode_list(*k, es, out),
        TagValue::Compound(es) => encode_compound(es, out),
    }
}

/// Writes one list payload: element kind, count, then the elements.
fn encode_list(k: u8, es: &Vec<TagValue>, out: &mut Vec<u8>) -> (r: bool)
    ensures
        r == encodable(TagV::List(k, crate::value::deep_list(es@))),
        r ==> final (out)@ == old(out)@ + spec_encode_value(
            TagV::List(k, crate::value::deep_list(es@)),
        ),
    decreases es, 0int,
{
    let ghost base = out@;
    let ghost vd = TagV::List(k, crate::value::deep_list(es@));
    if es.len() >= 0x8000_0000usize {
        proof {
            crate::value::lemma_deep_list(es@);
        }
        return false;
    }
    let n = es.len();
    out.push(k);
    push_be4(out, n as u32);
    let ghost dles = crate::value::deep_list(es@);
    proof {
        crate::value::lemma_deep_list(es@);
        assert(dles.skip(0) =~= dles);
        assert(out@ + enc_elems(dles.skip(0)) =~= base + seq![k] + be4(n as u32) + enc_elems(
            dles,
        ));
    }
    let mut i: usize = 0;
    while i < n
        invariant
            0 <= i <= n,
            n == es@.len(),
            n < 0x8000_0000,
            dles == crate::value::deep_list(es@),
            dles.len() == es@.len(),
            forall|j: int| 0 <= j < es@.len() ==> dles[j] == (#[trigger] es@[j]).deep_view(),
            forall|j: int| 0 <= j < i ==> (#[trigger] dles[j]).tag_id() == k && encodable(dles[j]),
            out@ + enc_elems(dles.skip(i as int)) =~= base + seq![k] + be4(n as u32) + enc_elems(
                dles,
            ),
        decreases n - i,
    {
        let e = &es[i];
        if e.tag_id() != k {
            return false;
        }
        proof {
            assert(decreases_to!(es@ => es@[i as int]));
            assert(decreases_to!(*es => es@));
        }
        if !(encode_value_into(e, out)) {
            return false;
        }
        proof {
            assert(dles.skip(i as int)[0] == dles[i as int]);
            assert(dles.skip(i as int).drop_first() =~= dles.skip(i as int + 1));
            assert(enc_elems(dles.skip(i as int)) == spec_encode_value(dles[i as int]) + enc_elems(
                dles.skip(i as int + 1),
            ));
            assert(out@ + enc_elems(dles.skip(i as int + 1)) =~= base + seq![k] + be4(n as u32)
                + enc_elems(dles));
        }
        i = i + 1;
    }
    proof {
        assert(dles.skip(n as int) =~= Seq::<TagV>::empty());
        assert(out@ =~= base + (seq![k] + be4(n as u32) + enc_elems(dles)));
    }
    true
}

/// Writes one compound payload: its entries, then the End marker.
#[verifier::rlimit(80)]
fn encode_compound(es: &Vec<(String, TagValue)>, out: &mut Vec<u8>) -> (r: bool)
    ensures
        r == encodable(TagV::Compound(crate::value::deep_entries(es@))),
        r ==> final (out)@ == old(out)@ + spec_encode_value(
            TagV::Compound(crate::value::deep_entries(es@)),
        ),
    decreases es, 0int,
{
    let ghost base = out@;
    let n = es.len();
    let ghost dees = crate::value::deep_entries(es@);
    proof {
        crate::value::lemma_deep_entries(es@);
        assert(dees.skip(0) =~= dees);
        assert(out@ + enc_entries(dees.skip(0)) =~= base + enc_entries(dees));
    }
    let mut i: usize = 0;
    while i < n
        invariant
            0 <= i <= n,
            n == es@.len(),
            dees == crate::value::deep_entries(es@),
            dees.len() == es@.len(),
            forall|j: int|
                0 <= j < es@.len() ==> dees[j] == ((#[trigger] es@[j]).0@, es@[j].1.deep_view()),
            forall|a: int, b: int|
                0 <= a < b < i ==> (#[trigger] dees[a].0) != (#[trigger] dees[b].0),
            forall|j: int|
                0 <= j < i ==> str_ok((#[trigger] dees[j]).0) && dees[j].1.tag_id() != TAG_END
                    && encodable(dees[j].1),
            out@ + enc_entries(dees.skip(i as int)) =~= base + enc_entries(dees),
        decreases n - i,
    {
        let e = &es[i];
        let mut j: usize = 0;
        while j < i
            invariant
                0 <= j <= i < n,
                n == es@.len(),
                dees.len() == es@.len(),
                dees == crate::value::deep_entries(es@),
                e.0@ == es@[i as int].0@,
                forall|a: int|
                    0 <= a < es@.len() ==> dees[a] == ((#[trigger] es@[a]).0@,
                    es@[a].1.deep_view()),
                forall|a: int| 0 <= a < j ==> (#[trigger] dees[a].0) != es@[i as int].0@,
            decreases i - j,
        {
            if es[j].0 == e.0 {
                proof {
                    assert(dees[j as int].0 == dees[i as int].0);
                    assert(!encodable(TagV::Compound(dees))) by {
                        if encodable(TagV::Compound(dees)) {
                            lemma_compound_distinct(TagV::Compound(dees), j as int, i as int);
                        }
                    }
                }
                return false;
            }
            j = j + 1;
        }
        let tag = e.1.tag_id();
        if tag == TAG_END {
            proof {
                assert(dees[i as int].1.tag_id() == TAG_END);
                assert(!encodable(TagV::Compound(dees))) by {
                    if encodable(TagV::Compound(dees)) {
                        lemma_compound_entry(TagV::Compound(dees), i as int);
                    }
                }
            }
            return false;
        }
        out.push(tag);
        if !(encode_bare(out, &e.0)) {
            proof {
                assert(!str_ok(dees[i as int].0));
                assert(!encodable(TagV::Compound(dees))) by {
                    if encodable(TagV::Compound(dees)) {
                        lemma_compound_entry(TagV::Compound(dees), i as int);
                    }
                }
            }
            return false;
        }
        proof {
            assert(decreases_to!(es@ => es@[i as int]));
            assert(decreases_to!(es@[i as int] => es@[i as int].1));
            assert(decreases_to!(*es => es@));
        }
        if !(encode_value_into(&e.1, out)) {
            proof {
                assert(!encodable(dees[i as int].1));
                assert(!encodable(TagV::Compound(dees))) by {
                    if encodable(TagV::Compound(dees)) {
                        lemma_compound_entry(TagV::Compound(dees), i as int);
                    }
                }
            }
            return false;
        }
        proof {
            assert(dees.skip(i as int)[0] == dees[i as int]);
            assert(dees.skip(i as int).drop_first() =~= dees.skip(i as int + 1));
            assert(enc_entries(dees.skip(i as int)) == seq![dees[i as int].1.tag_id()] + enc_bare(
                dees[i as int].0,
            ) + spec_encode_value(dees[i as int].1) + enc_entries(dees.skip(i as int + 1)));
            assert(out@ + enc_entries(dees.skip(i as int + 1)) =~= base + enc_entries(dees));
            assert forall|a: int| 0 <= a < i implies (#[trigger] dees[a].0)
                != dees[i as int].0 by {}
        }
        i = i + 1;
    }
    out.push(TAG_END);
    proof {
        assert(dees.skip(n as int) =~= Seq::<(Seq<char>, TagV)>::empty());
        assert(out@ =~= base + (enc_entries(dees) + seq![TAG_END]));
    }
    true
}


/// An encodable compound has pairwise distinct names.
proof fn lemma_compound_distinct(v: TagV, a: int, b: int)
    requires
        encodable(v),
        v is Compound,
        0 <= a < b < v->Compound_0.len(),
    ensures
        v->Compound_0[a].0 != v->Compound_0[b].0,
{
    match v {
        TagV::Compound(ents) => {
            assert(ents[a].0 != ents[b].0);
        },
        _ => {},
    }
}

/// Each entry of an encodable compound has an encodable text name, a kind
/// other than End, and an encodable value.
proof fn lemma_compound_entry(v: TagV, i: int)
    requires
        encodable(v),
        v is Compound,
        0 <= i < v->Compound_0.len(),
    ensures
        str_ok(v->Compound_0[i].0),
        v->Compound_0[i].1.tag_id() != TAG_END,
        encodable(v->Compound_0[i].1),
{
    match v {
        TagV::Compound(ents) => {
            assert(str_ok(ents[i].0) && ents[i].1.tag_id() != TAG_END && encodable(ents[i].1));
        },
        _ => {},
    }
}

/// Writes a whole document as a conforming encoder does. Succeeds exactly on
/// encodable documents, and what it writes decodes back to the document
/// itself.
pub fn encode_document(doc: &crate::value::Document) -> (r: Option<Vec<u8>>)
    ensures
        (r matches Some(b) ==> {
            &&& b@ == spec_encode_document(doc.deep_view())
            &&& spec_decode_document(b@) == Ok::<DocV, DecodeError>(doc.deep_view())
        }),
        r is None <==> !encodable_doc(doc.deep_view()),
{
    match &doc.root {
        TagValue::Compound(_) => {},
        _ => { return None },
    }
    let mut out: Vec<u8> = Vec::new();
    out.push(TAG_COMPOUND);
    if !(encode_bare(&mut out, &doc.title)) {
        return None;
    }
    if !(encode_value_into(&doc.root, &mut out)) {
        return None;
    }
    proof {
        assert(out@ =~= spec_encode_document(doc.deep_view()));
        lemma_rt_document(doc.deep_view());
    }
    Some(out)
}

} // verus!
