use vstd::prelude::*;

use crate::value::DecodeError;

verus! {

/// `n` bytes are available at `pos`.
pub open spec fn has(s: Seq<u8>, pos: int, n: int) -> bool {
    0 <= pos && pos + n <= s.len()
}

/// Big-endian unsigned readings of two, four and eight bytes.
pub open spec fn be16(s: Seq<u8>, p: int) -> int {
    s[p] * 0x100 + s[p + 1]
}

pub open spec fn be32(s: Seq<u8>, p: int) -> int {
    s[p] * 0x100_0000 + s[p + 1] * 0x1_0000 + s[p + 2] * 0x100 + s[p + 3]
}

pub open spec fn be64(s: Seq<u8>, p: int) -> int {
    s[p] * 0x100_0000_0000_0000 + s[p + 1] * 0x1_0000_0000_0000 + s[p + 2] * 0x100_0000_0000 + s[p
        + 3] * 0x1_0000_0000 + s[p + 4] * 0x100_0000 + s[p + 5] * 0x1_0000 + s[p + 6] * 0x100 + s[p
        + 7]
}

/// Two's-complement readings of the unsigned values above.
pub open spec fn as_signed(n: int, half: int) -> int {
    if n < half {
        n
    } else {
        n - 2 * half
    }
}

pub fn read_u8(data: &Vec<u8>, pos: usize) -> (r: Result<u8, DecodeError>)
    ensures
        has(data@, pos as int, 1) ==> r == Ok::<u8, DecodeError>(data@[pos as int]),
        !(has(data@, pos as int, 1)) ==> r == Err::<u8, DecodeError>(DecodeError::Truncated),
{
    if pos < data.len() {
        Ok(data[pos])
    } else {
        Err(DecodeError::Truncated)
    }
}

pub fn read_u16(data: &Vec<u8>, pos: usize) -> (r: Result<u16, DecodeError>)
    ensures
        has(data@, pos as int, 2) ==> (r matches Ok(x) && x == be16(data@, pos as int)),
        !(has(data@, pos as int, 2)) ==> r == Err::<u16, DecodeError>(DecodeError::Truncated),
{
    if pos < data.len() && 2 <= data.len() - pos {
        Ok((data[pos] as u16) * 0x100 + (data[pos + 1] as u16))
    } else {
        Err(DecodeError::Truncated)
    }
}

pub fn read_u32(data: &Vec<u8>, pos: usize) -> (r: Result<u32, DecodeError>)
    ensures
        has(data@, pos as int, 4) ==> (r matches Ok(x) && x == be32(data@, pos as int)),
        !(has(data@, pos as int, 4)) ==> r == Err::<u32, DecodeError>(DecodeError::Truncated),
{
    if pos < data.len() && 4 <= data.len() - pos {
        Ok(
            (data[pos] as u32) * 0x100_0000 + (data[pos + 1] as u32) * 0x1_0000 + (data[pos
                + 2] as u32) * 0x100 + (data[pos + 3] as u32),
        )
    } else {
        Err(DecodeError::Truncated)
    }
}

pub fn read_u64(data: &Vec<u8>, pos: usize) -> (r: Result<u64, DecodeError>)
    ensures
        has(data@, pos as int, 8) ==> (r matches Ok(x) && x == be64(data@, pos as int)),
        !(has(data@, pos as int, 8)) ==> r == Err::<u64, DecodeError>(DecodeError::Truncated),
{
    if pos < data.len() && 8 <= data.len() - pos {
        Ok(
            (data[pos] as u64) * 0x100_0000_0000_0000 + (data[pos + 1] as u64) * 0x1_0000_0000_0000
                + (data[pos + 2] as u64) * 0x100_0000_0000 + (data[pos + 3] as u64) * 0x1_0000_0000
                + (data[pos + 4] as u64) * 0x100_0000 + (data[pos + 5] as u64) * 0x1_0000 + (data[
                pos + 6] as u64) * 0x100 + (data[pos + 7] as u64),
        )
    } else {
        Err(DecodeError::Truncated)
    }
}

pub fn to_i8(x: u8) -> (r: i8)
    ensures
        r == as_signed(x as int, 0x80),
{
    if x < 0x80 {
        x as i8
    } else {
        -1i8 - ((0xffu8 - x) as i8)
    }
}

pub fn to_i16(x: u16) -> (r: i16)
    ensures
        r == as_signed(x as int, 0x8000),
{
    if x < 0x8000 {
        x as i16
    } else {
        -1i16 - ((0xffffu16 - x) as i16)
    }
}

pub fn to_i32(x: u32) -> (r: i32)
    ensures
        r == as_signed(x as int, 0x8000_0000),
{
    if x < 0x8000_0000 {
        x as i32
    } else {
        -1i32 - ((0xffff_ffffu32 - x) as i32)
    }
}

pub fn to_i64(x: u64) -> (r: i64)
    ensures
        r == as_signed(x as int, 0x8000_0000_0000_0000),
{
    if x < 0x8000_0000_0000_0000 {
        x as i64
    } else {
        -1i64 - ((0xffff_ffff_ffff_ffffu64 - x) as i64)
    }
}

/// What `cesu8::from_java_cesu8` yields on a byte sequence: the decoded text,
/// or nothing where the bytes are not valid modified UTF-8.
pub uninterp spec fn cesu8_decode(b: Seq<u8>) -> Option<Seq<char>>;

/// What `cesu8::to_java_cesu8` yields on a text: its modified UTF-8 bytes.
pub uninterp spec fn cesu8_encode(t: Seq<char>) -> Seq<u8>;

/// Relies on `cesu8::from_java_cesu8`: decodes modified UTF-8 (Java's CESU-8
/// variant); the result depends on the bytes alone.
#[verifier::external_body]
fn cesu8_decode_bytes(b: &Vec<u8>) -> (r: Result<String, DecodeError>)
    ensures
        r matches Ok(t) ==> cesu8_decode(b@) == Some(t@),
        r is Err <==> cesu8_decode(b@) is None,
        r matches Err(e) ==> e == DecodeError::InvalidTextEncoding,
{
    match cesu8::from_java_cesu8(b.as_slice()) {
        Ok(t) => Ok(t.into_owned()),
        Err(_) => Err(DecodeError::InvalidTextEncoding),
    }
}

/// Relies on `cesu8::to_java_cesu8`: encodes text as modified UTF-8; the
/// result depends on the text alone, is empty exactly for the empty text, and
/// `cesu8::from_java_cesu8` decodes it back to the same text.
#[verifier::external_body]
pub fn cesu8_encode_str(t: &str) -> (r: Vec<u8>)
    ensures
        r@ == cesu8_encode(t@),
        r@.len() == 0 <==> t@.len() == 0,
        cesu8_decode(r@) == Some(t@),
{
    cesu8::to_java_cesu8(t).into_owned()
}

/// The bare string that starts at `pos`: a big-endian 16-bit length prefix,
/// then that many bytes of modified UTF-8. A zero length prefix yields the
/// empty string with no further reads.
pub open spec fn spec_bare_string(s: Seq<u8>, pos: int) -> Result<(Seq<char>, int), DecodeError> {
    if !(has(s, pos, 2)) {
        Err(DecodeError::Truncated)
    } else {
        let n = be16(s, pos);
        if n == 0 {
            Ok((Seq::empty(), pos + 2))
        } else if pos + 2 + n <= s.len() {
            match cesu8_decode(s.subrange(pos + 2, pos + 2 + n)) {
                Some(t) => Ok((t, pos + 2 + n)),
                None => Err(DecodeError::InvalidTextEncoding),
            }
        } else {
            Err(DecodeError::Truncated)
        }
    }
}

/// Decodes the bare string that starts at `pos` and returns it with the
/// position just past it.
pub fn read_bare_string(data: &Vec<u8>, pos: usize) -> (r: Result<
    (String, usize),
    DecodeError,
>)
    ensures
        (match r {
            Ok((t, end)) => spec_bare_string(data@, pos as int) == Ok::<_, DecodeError>(
                (t@, end as int),
            ),
            Err(e) => spec_bare_string(data@, pos as int) == Err::<(Seq<char>, int), _>(e),
        }),
        r matches Ok((t, end)) ==> pos < end <= data@.len(),
{
    let len = data.len();
    let n = match read_u16(data, pos) {
        Ok(x) => x,
        Err(e) => { return Err(e) },
    };
    if n == 0 {
        return Ok((String::new(), pos + 2));
    }
    let n: usize = n as usize;
    if data.len() - (pos + 2) < n {
        return Err(DecodeError::Truncated);
    }
    let mut raw: Vec<u8> = Vec::new();
    let mut i: usize = 0;
    while i < n
        invariant
            0 <= i <= n,
            pos + 2 + n <= data@.len(),
            data@.len() <= usize::MAX,
            raw@ =~= data@.subrange(pos + 2, pos + 2 + i),
        decreases n - i,
    {
        raw.push(data[pos + 2 + i]);
        i = i + 1;
        proof {
            assert(raw@ =~= data@.subrange(pos + 2, pos + 2 + i));
        }
    }
    match cesu8_decode_bytes(&raw) {
        Ok(t) => Ok((t, pos + 2 + n)),
        Err(e) => Err(e),
    }
}

} // verus!
