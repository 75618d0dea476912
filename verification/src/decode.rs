use vstd::prelude::*;

use crate::primitive::{as_signed, be16, be32, be64, has, read_bare_string, read_u16, read_u32,
    read_u64, read_u8, spec_bare_string, to_i16, to_i32, to_i64, to_i8};
use crate::value::{deep_entries, deep_list, lemma_deep_entries, lemma_deep_entries_push,
    lemma_deep_list_push, DecodeError, DocV, Document, TagV, TagValue, TAG_BYTE, TAG_BYTE_ARRAY,
    TAG_COMPOUND, TAG_DOUBLE, TAG_END, TAG_FLOAT, TAG_INT, TAG_INT_ARRAY, TAG_LIST, TAG_LONG,
    TAG_LONG_ARRAY, TAG_SHORT, TAG_STRING};

verus! {

/// Some entry of `es` bears `name`.
pub open spec fn names_has(es: Seq<(Seq<char>, TagV)>, name: Seq<char>) -> bool {
    exists|j: int| 0 <= j < es.len() && es[j].0 == name
}

/// The compound entries that start at `pos`, read onto the entries `acc`
/// already decoded: a tag byte; on the End marker the compound closes, else a
/// bare string names the entry and a value of that tag follows. A name seen
/// twice is rejected when the second entry would be inserted.
///
/// The bounds test on `end` before the tail call makes termination evident;
/// `lemma_spec_decode_entries` shows that a decoded value never ends outside
/// `p2 ..= s.len()`, so the `Truncated` arm under it is never taken.
pub open spec fn spec_decode_entries(s: Seq<u8>, pos: int, acc: Seq<(Seq<char>, TagV)>) -> Result<
    (Seq<(Seq<char>, TagV)>, int),
    DecodeError,
>
    decreases s.len() - pos, 0int, 0int,
{
    if !(has(s, pos, 1)) {
        Err(DecodeError::Truncated)
    } else {
        let tag = s[pos];
        if tag == TAG_END {
            Ok((acc, pos + 1))
        } else {
            match spec_bare_string(s, pos + 1) {
                Err(e) => Err(e),
                Ok((name, p2)) => match spec_decode_value(s, p2, tag) {
                    Err(e) => Err(e),
                    Ok((v, end)) => if names_has(acc, name) {
                        Err(DecodeError::DuplicateKey)
                    } else if p2 <= end <= s.len() {
                        spec_decode_entries(s, end, acc.push((name, v)))
                    } else {
                        Err(DecodeError::Truncated)
                    },
                },
            }
        }
    }
}

/// `count` list elements of kind `etag` that start at `pos`, in order.
///
/// As in `spec_decode_entries`, the bounds test on `end` only serves
/// termination; `lemma_spec_decode_elems` shows its `Truncated` arm dead.
pub open spec fn spec_decode_elems(s: Seq<u8>, pos: int, etag: u8, count: int) -> Result<
    (Seq<TagV>, int),
    DecodeError,
>
    decreases s.len() - pos, 2int, count,
{
    if count <= 0 {
        Ok((Seq::empty(), pos))
    } else {
        match spec_decode_value(s, pos, etag) {
            Err(e) => Err(e),
            Ok((v, end)) => if pos <= end <= s.len() {
                match spec_decode_elems(s, end, etag, count - 1) {
                    Err(e) => Err(e),
                    Ok((rest, fin)) => Ok((seq![v] + rest, fin)),
                }
            } else {
                Err(DecodeError::Truncated)
            },
        }
    }
}

/// One value of kind `tag` that starts at `pos`: exactly the NBT wire format.
/// Numbers are big-endian two's complement; floats are kept as their raw
/// bits; arrays carry a 32-bit signed count that may not be negative; a list
/// carries an element kind and a 32-bit signed count, and a count of zero or
/// less yields the empty list with no further reads; a compound is a run of
/// named entries closed by the End marker.
pub open spec fn spec_decode_value(s: Seq<u8>, pos: int, tag: u8) -> Result<
    (TagV, int),
    DecodeError,
>
    decreases s.len() - pos, 1int, 0int,
{
    if tag == TAG_END {
        Ok((TagV::End, pos))
    } else if tag == TAG_BYTE {
        if has(s, pos, 1) {
            Ok((TagV::Byte(as_signed(s[pos] as int, 0x80) as i8), pos + 1))
        } else {
            Err(DecodeError::Truncated)
        }
    } else if tag == TAG_SHORT {
        if has(s, pos, 2) {
            Ok((TagV::Short(as_signed(be16(s, pos), 0x8000) as i16), pos + 2))
        } else {
            Err(DecodeError::Truncated)
        }
    } else if tag == TAG_INT {
        if has(s, pos, 4) {
            Ok((TagV::Int(as_signed(be32(s, pos), 0x8000_0000) as i32), pos + 4))
        } else {
            Err(DecodeError::Truncated)
        }
    } else if tag == TAG_LONG {
        if has(s, pos, 8) {
            Ok((TagV::Long(as_signed(be64(s, pos), 0x8000_0000_0000_0000) as i64), pos + 8))
        } else {
            Err(DecodeError::Truncated)
        }
    } else if tag == TAG_FLOAT {
        if has(s, pos, 4) {
            Ok((TagV::Float(be32(s, pos) as u32), pos + 4))
        } else {
            Err(DecodeError::Truncated)
        }
    } else if tag == TAG_DOUBLE {
        if has(s, pos, 8) {
            Ok((TagV::Double(be64(s, pos) as u64), pos + 8))
        } else {
            Err(DecodeError::Truncated)
        }
    } else if tag == TAG_BYTE_ARRAY {
        if !(has(s, pos, 4)) {
            Err(DecodeError::Truncated)
        } else {
            let c = as_signed(be32(s, pos), 0x8000_0000);
            if c < 0 {
                Err(DecodeError::MalformedLength)
            } else if pos + 4 + c <= s.len() {
                Ok(
                    (
                        TagV::ByteArray(
                            Seq::new(c as nat, |i: int| as_signed(s[pos + 4 + i] as int, 0x80) as i8),
                        ),
                        pos + 4 + c,
                    ),
                )
            } else {
                Err(DecodeError::Truncated)
            }
        }
    } else if tag == TAG_STRING {
        match spec_bare_string(s, pos) {
            Ok((t, end)) => Ok((TagV::Str(t), end)),
            Err(e) => Err(e),
        }
    } else if tag == TAG_LIST {
        if !(has(s, pos, 5)) {
            Err(DecodeError::Truncated)
        } else {
            let etag = s[pos];
            let c = as_signed(be32(s, pos + 1), 0x8000_0000);
            if c <= 0 {
                Ok((TagV::List(etag, Seq::empty()), pos + 5))
            } else {
                match spec_decode_elems(s, pos + 5, etag, c) {
                    Ok((es, end)) => Ok((TagV::List(etag, es), end)),
                    Err(e) => Err(e),
                }
            }
        }
    } else if tag == TAG_COMPOUND {
        match spec_decode_entries(s, pos, Seq::empty()) {
            Ok((es, end)) => Ok((TagV::Compound(es), end)),
            Err(e) => Err(e),
        }
    } else if tag == TAG_INT_ARRAY {
        if !(has(s, pos, 4)) {
            Err(DecodeError::Truncated)
        } else {
            let c = as_signed(be32(s, pos), 0x8000_0000);
            if c < 0 {
                Err(DecodeError::MalformedLength)
            } else if pos + 4 + 4 * c <= s.len() {
                Ok(
                    (
                        TagV::IntArray(
                            Seq::new(
                                c as nat,
                                |i: int| as_signed(be32(s, pos + 4 + 4 * i), 0x8000_0000) as i32,
                            ),
                        ),
                        pos + 4 + 4 * c,
                    ),
                )
            } else {
                Err(DecodeError::Truncated)
            }
        }
    } else if tag == TAG_LONG_ARRAY {
        if !(has(s, pos, 4)) {
            Err(DecodeError::Truncated)
        } else {
            let c = as_signed(be32(s, pos), 0x8000_0000);
            if c < 0 {
                Err(DecodeError::MalformedLength)
            } else if pos + 4 + 8 * c <= s.len() {
                Ok(
                    (
                        TagV::LongArray(
                            Seq::new(
                                c as nat,
                                |i: int| as_signed(
                                    be64(s, pos + 4 + 8 * i),
                                    0x8000_0000_0000_0000,
                                ) as i64,
                            ),
                        ),
                        pos + 4 + 8 * c,
                    ),
                )
            } else {
                Err(DecodeError::Truncated)
            }
        }
    } else {
        Err(DecodeError::UnknownTagId)
    }
}

/// Every successfully decoded run of entries ends inside the input, keeps the
/// names pairwise distinct and the values well formed, and extends `acc`.
pub proof fn lemma_spec_decode_entries(s: Seq<u8>, pos: int, acc: Seq<(Seq<char>, TagV)>)
    requires
        forall|i: int, j: int| 0 <= i < j < acc.len() ==> (#[trigger] acc[i].0) != (#[trigger] acc[j].0),
        forall|i: int| 0 <= i < acc.len() ==> (#[trigger] acc[i].1).wf(),
    ensures
        spec_decode_entries(s, pos, acc) matches Ok((es, end)) ==> {
            &&& pos < end <= s.len()
            &&& forall|i: int, j: int|
                0 <= i < j < es.len() ==> (#[trigger] es[i].0) != (#[trigger] es[j].0)
            &&& forall|i: int| 0 <= i < es.len() ==> (#[trigger] es[i].1).wf()
        },
    decreases s.len() - pos, 0int, 0int,
{
    if has(s, pos, 1) && s[pos] != TAG_END {
        let tag = s[pos];
        match spec_bare_string(s, pos + 1) {
            Err(_) => {},
            Ok((name, p2)) => {
                lemma_spec_decode_value(s, p2, tag);
                match spec_decode_value(s, p2, tag) {
                    Err(_) => {},
                    Ok((v, end)) => {
                        if !names_has(acc, name) && p2 <= end <= s.len() {
                            let acc2 = acc.push((name, v));
                            assert forall|i: int, j: int|
                                0 <= i < j < acc2.len() implies (#[trigger] acc2[i].0) != (
                            #[trigger] acc2[j].0) by {
                                if j < acc.len() {
                                } else {
                                    assert(acc2[j].0 == name);
                                    assert(acc[i] == acc2[i]);
                                }
                            }
                            lemma_spec_decode_entries(s, end, acc2);
                        }
                    },
                }
            },
        }
    }
}

/// Every successfully decoded run of list elements ends inside the input, and
/// each element has the declared kind and is well formed.
pub proof fn lemma_spec_decode_elems(s: Seq<u8>, pos: int, etag: u8, count: int)
    requires
        0 <= pos <= s.len(),
    ensures
        spec_decode_elems(s, pos, etag, count) matches Ok((es, fin)) ==> {
            &&& pos <= fin <= s.len()
            &&& es.len() == (if count <= 0 { 0int } else { count })
            &&& forall|i: int|
                0 <= i < es.len() ==> (#[trigger] es[i]).tag_id() == etag && es[i].wf()
        },
    decreases s.len() - pos, 2int, count,
{
    if count > 0 {
        lemma_spec_decode_value(s, pos, etag);
        match spec_decode_value(s, pos, etag) {
            Err(_) => {},
            Ok((v, end)) => {
                if pos <= end <= s.len() {
                    lemma_spec_decode_elems(s, end, etag, count - 1);
                }
            },
        }
    }
}

/// Every successfully decoded value ends inside the input, has the kind that
/// its tag names, and is well formed: lists are homogeneous and compound
/// names are pairwise distinct, at every depth.
pub proof fn lemma_spec_decode_value(s: Seq<u8>, pos: int, tag: u8)
    requires
        0 <= pos <= s.len(),
    ensures
        spec_decode_value(s, pos, tag) matches Ok((v, end)) ==> {
            &&& pos <= end <= s.len()
            &&& v.tag_id() == tag
            &&& v.wf()
        },
    decreases s.len() - pos, 1int, 0int,
{
    if tag == TAG_LIST {
        if has(s, pos, 5) {
            let etag = s[pos];
            let c = as_signed(be32(s, pos + 1), 0x8000_0000);
            if c > 0 {
                lemma_spec_decode_elems(s, pos + 5, etag, c);
            }
        }
    } else if tag == TAG_COMPOUND {
        lemma_spec_decode_entries(s, pos, Seq::empty());
    }
}

/// The document envelope: a root tag byte, the title as a bare string, then
/// the root value, which must be a Compound. An immediate End byte has no
/// title and no root, and is rejected for that reason.
pub open spec fn spec_decode_document(s: Seq<u8>) -> Result<DocV, DecodeError> {
    if s.len() < 1 {
        Err(DecodeError::Truncated)
    } else {
        let tag = s[0];
        if tag == TAG_END {
            Err(DecodeError::NoRootCompound)
        } else {
            match spec_bare_string(s, 1) {
                Err(e) => Err(e),
                Ok((title, p)) => if tag != TAG_COMPOUND {
                    Err(DecodeError::NoRootCompound)
                } else {
                    match spec_decode_value(s, p, TAG_COMPOUND) {
                        Err(e) => Err(e),
                        Ok((v, _end)) => Ok(DocV { title, root: v }),
                    }
                },
            }
        }
    }
}

/// What decoding with the transparent compression fallback yields: the bytes
/// are first taken for gzip-wrapped NBT; if stripping the wrapper or decoding
/// what it held fails in any way, the same bytes are decoded as raw NBT, and
/// that second outcome is the one that counts.
pub open spec fn spec_decode_document_auto(b: Seq<u8>) -> Result<DocV, DecodeError> {
    match gunzip_of(b) {
        Some(d) => if spec_decode_document(d) is Ok {
            spec_decode_document(d)
        } else {
            spec_decode_document(b)
        },
        None => spec_decode_document(b),
    }
}

/// Every document the decoder accepts is well formed: its root is a Compound,
/// no compound in it holds two entries of one name, and every list in it is
/// homogeneous.
pub proof fn lemma_spec_decode_document_wf(s: Seq<u8>)
    ensures
        spec_decode_document(s) matches Ok(doc) ==> doc.wf(),
{
    if s.len() >= 1 && s[0] == TAG_COMPOUND {
        match spec_bare_string(s, 1) {
            Err(_) => {},
            Ok((title, p)) => {
                lemma_spec_decode_value(s, p, TAG_COMPOUND);
            },
        }
    }
}

/// As `lemma_spec_decode_document_wf`, through the compression fallback.
pub proof fn lemma_spec_decode_document_auto_wf(b: Seq<u8>)
    ensures
        spec_decode_document_auto(b) matches Ok(doc) ==> doc.wf(),
{
    lemma_spec_decode_document_wf(b);
    match gunzip_of(b) {
        Some(d) => lemma_spec_decode_document_wf(d),
        None => {},
    }
}


/// The exec result `r` is what the specification says of one value of kind
/// `tag` at `pos`, and on success the end position stays inside the input.
pub open spec fn decode_result_matches(
    s: Seq<u8>,
    pos: int,
    tag: u8,
    r: Result<(TagValue, usize), DecodeError>,
) -> bool {
    match r {
        Ok((v, end)) => spec_decode_value(s, pos, tag) == Ok::<(TagV, int), DecodeError>(
            (v.deep_view(), end as int),
        ) && pos <= end <= s.len(),
        Err(e) => spec_decode_value(s, pos, tag) == Err::<(TagV, int), DecodeError>(e),
    }
}

/// Whether some entry already decoded bears `name`.
fn entries_contain(es: &Vec<(String, TagValue)>, name: &String) -> (r: bool)
    ensures
        r == names_has(deep_entries(es@), name@),
{
    proof {
        lemma_deep_entries(es@);
    }
    let n = es.len();
    let mut i: usize = 0;
    while i < n
        invariant
            0 <= i <= n,
            n == es@.len(),
            deep_entries(es@).len() == es@.len(),
            forall|k: int|
                0 <= k < es@.len() ==> deep_entries(es@)[k] == ((#[trigger] es@[k]).0@,
                es@[k].1.deep_view()),
            forall|k: int| 0 <= k < i ==> (#[trigger] deep_entries(es@)[k].0) != name@,
        decreases n - i,
    {
        let e = &es[i];
        if e.0 == *name {
            proof {
                assert(deep_entries(es@)[i as int].0 == name@);
            }
            return true;
        }
        i = i + 1;
    }
    false
}

/// One byte array: a 32-bit signed count, then that many signed bytes.
fn decode_byte_array(data: &Vec<u8>, pos: usize) -> (r: Result<(TagValue, usize), DecodeError>)
    requires
        pos <= data@.len(),
    ensures
        decode_result_matches(data@, pos as int, TAG_BYTE_ARRAY, r),
{
    let len = data.len();
    let c = match read_u32(data, pos) {
        Ok(x) => to_i32(x),
        Err(e) => { return Err(e) },
    };
    if c < 0 {
        return Err(DecodeError::MalformedLength);
    }
    let cnt = c as usize;
    if len - (pos + 4) < cnt {
        return Err(DecodeError::Truncated);
    }
    let mut out: Vec<i8> = Vec::new();
    let mut i: usize = 0;
    while i < cnt
        invariant
            0 <= i <= cnt,
            pos + 4 + cnt <= data@.len(),
            len == data@.len(),
            out@.len() == i,
            forall|k: int|
                0 <= k < i ==> out@[k] == as_signed(data@[pos + 4 + k] as int, 0x80) as i8,
        decreases cnt - i,
    {
        let x = data[pos + 4 + i];
        let v = to_i8(x);
        proof {
            assert(-0x80 <= as_signed(x as int, 0x80) < 0x80);
        }
        out.push(v);
        i = i + 1;
    }
    proof {
        let v0 = spec_decode_value(data@, pos as int, TAG_BYTE_ARRAY)->Ok_0.0;
        assert(out@ =~= v0->ByteArray_0);
    }
    Ok((TagValue::ByteArray(out), pos + 4 + cnt))
}

/// One int array: a 32-bit signed count, then that many big-endian ints.
fn decode_int_array(data: &Vec<u8>, pos: usize) -> (r: Result<(TagValue, usize), DecodeError>)
    requires
        pos <= data@.len(),
    ensures
        decode_result_matches(data@, pos as int, TAG_INT_ARRAY, r),
{
    let len = data.len();
    let c = match read_u32(data, pos) {
        Ok(x) => to_i32(x),
        Err(e) => { return Err(e) },
    };
    if c < 0 {
        return Err(DecodeError::MalformedLength);
    }
    let cnt = c as usize;
    let m = len - (pos + 4);
    if cnt > m / 4 {
        proof {
            assert(4 * (m as int / 4) <= m as int);
            assert(pos + 4 + 4 * (c as int) > data@.len());
        }
        return Err(DecodeError::Truncated);
    }
    proof {
        assert(4 * (cnt as int) <= 4 * (m as int / 4)) by (nonlinear_arith)
            requires cnt as int <= m as int / 4,
        ;
        assert(4 * (m as int / 4) <= m as int);
    }
    let mut out: Vec<i32> = Vec::new();
    let mut i: usize = 0;
    while i < cnt
        invariant
            0 <= i <= cnt,
            pos + 4 + 4 * cnt <= data@.len(),
            len == data@.len(),
            out@.len() == i,
            forall|k: int|
                0 <= k < i ==> out@[k] == as_signed(be32(data@, pos + 4 + 4 * k), 0x8000_0000) as i32,
        decreases cnt - i,
    {
        let x = match read_u32(data, pos + 4 + 4 * i) {
            Ok(x) => x,
            Err(_) => { return Err(DecodeError::Truncated) },
        };
        let v = to_i32(x);
        proof {
            assert(-0x8000_0000 <= as_signed(x as int, 0x8000_0000) < 0x8000_0000);
        }
        out.push(v);
        i = i + 1;
    }
    proof {
        let v0 = spec_decode_value(data@, pos as int, TAG_INT_ARRAY)->Ok_0.0;
        assert(out@ =~= v0->IntArray_0);
    }
    Ok((TagValue::IntArray(out), pos + 4 + 4 * cnt))
}

/// One long array: a 32-bit signed count, then that many big-endian longs.
fn decode_long_array(data: &Vec<u8>, pos: usize) -> (r: Result<(TagValue, usize), DecodeError>)
    requires
        pos <= data@.len(),
    ensures
        decode_result_matches(data@, pos as int, TAG_LONG_ARRAY, r),
{
    let len = data.len();
    let c = match read_u32(data, pos) {
        Ok(x) => to_i32(x),
        Err(e) => { return Err(e) },
    };
    if c < 0 {
        return Err(DecodeError::MalformedLength);
    }
    let cnt = c as usize;
    let m = len - (pos + 4);
    if cnt > m / 8 {
        proof {
            assert(8 * (m as int / 8) <= m as int);
            assert(pos + 4 + 8 * (c as int) > data@.len());
        }
        return Err(DecodeError::Truncated);
    }
    proof {
        assert(8 * (cnt as int) <= 8 * (m as int / 8)) by (nonlinear_arith)
            requires cnt as int <= m as int / 8,
        ;
        assert(8 * (m as int / 8) <= m as int);
    }
    let mut out: Vec<i64> = Vec::new();
    let mut i: usize = 0;
    while i < cnt
        invariant
            0 <= i <= cnt,
            pos + 4 + 8 * cnt <= data@.len(),
            len == data@.len(),
            out@.len() == i,
            forall|k: int|
                0 <= k < i ==> out@[k] == as_signed(
                    be64(data@, pos + 4 + 8 * k),
                    0x8000_0000_0000_0000,
                ) as i64,
        decreases cnt - i,
    {
        let x = match read_u64(data, pos + 4 + 8 * i) {
            Ok(x) => x,
            Err(_) => { return Err(DecodeError::Truncated) },
        };
        let v = to_i64(x);
        proof {
            assert(-0x8000_0000_0000_0000 <= as_signed(x as int, 0x8000_0000_0000_0000)
                < 0x8000_0000_0000_0000);
        }
        out.push(v);
        i = i + 1;
    }
    proof {
        let v0 = spec_decode_value(data@, pos as int, TAG_LONG_ARRAY)->Ok_0.0;
        assert(out@ =~= v0->LongArray_0);
    }
    Ok((TagValue::LongArray(out), pos + 4 + 8 * cnt))
}

/// One list: an element kind, a 32-bit signed count, then that many values
/// of that kind.
fn decode_list(data: &Vec<u8>, pos: usize) -> (r: Result<(TagValue, usize), DecodeError>)
    requires
        pos <= data@.len(),
    ensures
        decode_result_matches(data@, pos as int, TAG_LIST, r),
    decreases data@.len() - pos, 0int,
{
    let len = data.len();
    let etag = match read_u8(data, pos) {
        Ok(x) => x,
        Err(_) => { return Err(DecodeError::Truncated) },
    };
    let c = match read_u32(data, pos + 1) {
        Ok(x) => to_i32(x),
        Err(_) => { return Err(DecodeError::Truncated) },
    };
    if c <= 0 {
        return Ok((TagValue::List(etag, Vec::new()), pos + 5));
    }
    let cnt = c as usize;
    let ghost s = data@;
    let mut elems: Vec<TagValue> = Vec::new();
    let mut cur: usize = pos + 5;
    let mut i: usize = 0;
    while i < cnt
        invariant
            0 <= i <= cnt,
            cnt == c,
            0 < c,
            pos + 5 <= cur <= s.len(),
            s == data@,
            len == data@.len(),
            has(s, pos as int, 5),
            etag == s[pos as int],
            (c as int) == as_signed(be32(s, pos as int + 1), 0x8000_0000),
            elems@.len() == i,
            spec_decode_elems(s, pos + 5, etag, c as int) == (match spec_decode_elems(
                s,
                cur as int,
                etag,
                c - i,
            ) {
                Ok((rest, fin)) => Ok::<_, DecodeError>(((deep_list(elems@) + rest), fin)),
                Err(e) => Err(e),
            }),
        decreases cnt - i,
    {
        let ghost prev = elems@;
        match decode_value(data, cur, etag) {
            Err(e) => {
                return Err(e);
            },
            Ok((v, end)) => {
                proof {
                    lemma_deep_list_push(prev, v);
                }
                elems.push(v);
                cur = end;
                i = i + 1;
                proof {
                    if spec_decode_elems(s, cur as int, etag, c - i) is Ok {
                        let (rest, fin) = spec_decode_elems(s, cur as int, etag, c - i)->Ok_0;
                        assert((deep_list(prev) + (seq![v.deep_view()] + rest)) =~= (deep_list(
                            elems@,
                        ) + rest));
                    }
                }
            },
        }
    }
    proof {
        assert(spec_decode_elems(s, cur as int, etag, 0) == Ok::<_, DecodeError>(
            (Seq::<TagV>::empty(), cur as int),
        ));
        assert(deep_list(elems@) + Seq::<TagV>::empty() =~= deep_list(elems@));
        let v0 = spec_decode_value(s, pos as int, TAG_LIST)->Ok_0.0;
        assert(v0->List_1 == deep_list(elems@));
    }
    Ok((TagValue::List(etag, elems), cur))
}

/// One compound: named entries closed by the End marker.
fn decode_compound(data: &Vec<u8>, pos: usize) -> (r: Result<(TagValue, usize), DecodeError>)
    requires
        pos <= data@.len(),
    ensures
        decode_result_matches(data@, pos as int, TAG_COMPOUND, r),
    decreases data@.len() - pos, 0int,
{
    let ghost s = data@;
    let mut entries: Vec<(String, TagValue)> = Vec::new();
    let mut cur: usize = pos;
    loop
        invariant
            pos <= cur <= s.len(),
            s == data@,
            spec_decode_entries(s, pos as int, Seq::empty()) == spec_decode_entries(
                s,
                cur as int,
                deep_entries(entries@),
            ),
        decreases s.len() - cur,
    {
        if cur >= data.len() {
            return Err(DecodeError::Truncated);
        }
        let tag2 = data[cur];
        if tag2 == TAG_END {
            return Ok((TagValue::Compound(entries), cur + 1));
        }
        let (name, p2) = match read_bare_string(data, cur + 1) {
            Ok(x) => x,
            Err(e) => { return Err(e) },
        };
        let ghost prev = entries@;
        match decode_value(data, p2, tag2) {
            Err(e) => { return Err(e) },
            Ok((v, end)) => {
                if entries_contain(&entries, &name) {
                    return Err(DecodeError::DuplicateKey);
                }
                proof {
                    lemma_deep_entries_push(prev, (name, v));
                }
                entries.push((name, v));
                cur = end;
            },
        }
    }
}

/// Decodes exactly one value of kind `tag` that starts at `pos`, and returns
/// it with the position just past it. The result is, case for case, what
/// `spec_decode_value` says of those bytes.
pub fn decode_value(data: &Vec<u8>, pos: usize, tag: u8) -> (r: Result<
    (TagValue, usize),
    DecodeError,
>)
    requires
        pos <= data@.len(),
    ensures
        decode_result_matches(data@, pos as int, tag, r),
    decreases data@.len() - pos, 1int,
{
    let len = data.len();
    if tag == TAG_END {
        Ok((TagValue::End, pos))
    } else if tag == TAG_BYTE {
        match read_u8(data, pos) {
            Ok(x) => Ok((TagValue::Byte(to_i8(x)), pos + 1)),
            Err(e) => Err(e),
        }
    } else if tag == TAG_SHORT {
        match read_u16(data, pos) {
            Ok(x) => Ok((TagValue::Short(to_i16(x)), pos + 2)),
            Err(e) => Err(e),
        }
    } else if tag == TAG_INT {
        match read_u32(data, pos) {
            Ok(x) => Ok((TagValue::Int(to_i32(x)), pos + 4)),
            Err(e) => Err(e),
        }
    } else if tag == TAG_LONG {
        match read_u64(data, pos) {
            Ok(x) => Ok((TagValue::Long(to_i64(x)), pos + 8)),
            Err(e) => Err(e),
        }
    } else if tag == TAG_FLOAT {
        match read_u32(data, pos) {
            Ok(x) => Ok((TagValue::Float(x), pos + 4)),
            Err(e) => Err(e),
        }
    } else if tag == TAG_DOUBLE {
        match read_u64(data, pos) {
            Ok(x) => Ok((TagValue::Double(x), pos + 8)),
            Err(e) => Err(e),
        }
    } else if tag == TAG_BYTE_ARRAY {
        decode_byte_array(data, pos)
    } else if tag == TAG_STRING {
        match read_bare_string(data, pos) {
            Ok((t, end)) => Ok((TagValue::Str(t), end)),
            Err(e) => Err(e),
        }
    } else if tag == TAG_LIST {
        decode_list(data, pos)
    } else if tag == TAG_COMPOUND {
        decode_compound(data, pos)
    } else if tag == TAG_INT_ARRAY {
        decode_int_array(data, pos)
    } else if tag == TAG_LONG_ARRAY {
        decode_long_array(data, pos)
    } else {
        Err(DecodeError::UnknownTagId)
    }
}


/// Decodes a whole document from raw (uncompressed) envelope bytes.
pub fn decode_envelope(data: &Vec<u8>) -> (r: Result<Document, DecodeError>)
    ensures
        (match r {
            Ok(doc) => spec_decode_document(data@) == Ok::<DocV, DecodeError>(doc.deep_view()),
            Err(e) => spec_decode_document(data@) == Err::<DocV, DecodeError>(e),
        }),
{
    let tag = match read_u8(data, 0) {
        Ok(x) => x,
        Err(e) => { return Err(e) },
    };
    if tag == TAG_END {
        return Err(DecodeError::NoRootCompound);
    }
    let (title, p) = match read_bare_string(data, 1) {
        Ok(x) => x,
        Err(e) => { return Err(e) },
    };
    if tag != TAG_COMPOUND {
        return Err(DecodeError::NoRootCompound);
    }
    match decode_value(data, p, TAG_COMPOUND) {
        Ok((root, _end)) => Ok(Document { title, root }),
        Err(e) => Err(e),
    }
}

/// Decodes a document from bytes that may or may not be gzip-compressed: the
/// gzip reading is attempted first, and on any failure of it the same bytes
/// are decoded as raw NBT, whose outcome is the one returned. Every document
/// this returns is well formed.
pub fn decode_document(data: &Vec<u8>) -> (r: Result<Document, DecodeError>)
    ensures
        (match r {
            Ok(doc) => spec_decode_document_auto(data@) == Ok::<DocV, DecodeError>(doc.deep_view())
                && doc.deep_view().wf(),
            Err(e) => spec_decode_document_auto(data@) == Err::<DocV, DecodeError>(e),
        }),
{
    proof {
        lemma_spec_decode_document_auto_wf(data@);
    }
    match gunzip(data) {
        Some(d) => {
            match decode_envelope(&d) {
                Ok(doc) => { return Ok(doc) },
                Err(_) => {},
            }
        },
        None => {},
    }
    decode_envelope(data)
}

/// What `flate2::read::GzDecoder` yields when a byte sequence is read through
/// it to the end: the bytes it held, or nothing where the gzip framing,
/// stream or checksum is bad.
pub uninterp spec fn gunzip_of(b: Seq<u8>) -> Option<Seq<u8>>;

/// Relies on `flate2::read::GzDecoder` read to the end: strips standard gzip
/// framing; the result depends on the bytes alone.
#[verifier::external_body]
fn gunzip(b: &Vec<u8>) -> (r: Option<Vec<u8>>)
    ensures
        r matches Some(d) ==> gunzip_of(b@) == Some(d@),
        r is None <==> gunzip_of(b@) is None,
{
    let mut dec = flate2::read::GzDecoder::new(b.as_slice());
    let mut out: Vec<u8> = Vec::new();
    match std::io::Read::read_to_end(&mut dec, &mut out) {
        Ok(_) => Some(out),
        Err(_) => None,
    }
}

} // verus!
