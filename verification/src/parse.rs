//! Little-endian readers over byte buffers, and C-string decoding, used by
//! the BSP and pack-file record parsers.

use vstd::prelude::*;

verus! {

/// Why a record failed to decode.
#[derive(Debug, Clone, Copy, PartialEq, Eq, Structural)]
pub enum ParseError {
    /// The buffer ends before the record does.
    UnexpectedEnd,
    /// A name is not valid UTF-8.
    InvalidUtf8,
    /// The file does not carry the supported version number.
    BadVersion,
    /// A texture is larger than any atlas could hold.
    Oversize,
    /// A record points at an entry that does not exist.
    BadIndex,
}

/// The 16-bit little-endian value at `pos`.
pub open spec fn le16(b: Seq<u8>, pos: int) -> int {
    b[pos] + 0x100 * b[pos + 1]
}

/// The 32-bit little-endian value at `pos`.
pub open spec fn le32(b: Seq<u8>, pos: int) -> int {
    b[pos] + 0x100 * b[pos + 1] + 0x10000 * b[pos + 2] + 0x1000000 * b[pos + 3]
}

/// Two's-complement reading of a 32-bit value.
pub open spec fn signed32(v: int) -> int {
    if v < 0x8000_0000 {
        v
    } else {
        v - 0x1_0000_0000
    }
}

/// Read one byte.
pub fn read_uchar(data: &Vec<u8>, pos: usize) -> (r: u8)
    requires
        pos < data.len(),
    ensures
        r == data@[pos as int],
{
    data[pos]
}

/// Read an unsigned 16-bit little-endian value.
pub fn read_ushort(data: &Vec<u8>, pos: usize) -> (r: u16)
    requires
        pos + 2 <= data.len(),
    ensures
        r == le16(data@, pos as int),
{
    data[pos] as u16 + (data[pos + 1] as u16) * 0x100
}

/// Read an unsigned 32-bit little-endian value.
pub fn read_ulong(data: &Vec<u8>, pos: usize) -> (r: u32)
    requires
        pos + 4 <= data.len(),
    ensures
        r == le32(data@, pos as int),
{
    data[pos] as u32 + (data[pos + 1] as u32) * 0x100 + (data[pos + 2] as u32) * 0x10000 + (data[pos
        + 3] as u32) * 0x1000000
}

/// Read a signed 32-bit little-endian value.
pub fn read_long(data: &Vec<u8>, pos: usize) -> (r: i32)
    requires
        pos + 4 <= data.len(),
    ensures
        r as int == signed32(le32(data@, pos as int)),
{
    let u = read_ulong(data, pos);
    if u < 0x8000_0000 {
        u as i32
    } else {
        ((u as i64) - 0x1_0000_0000) as i32
    }
}

/// Index of the first NUL byte at or after `i`, or the buffer length.
pub open spec fn cstr_end(b: Seq<u8>, i: int) -> int
    decreases b.len() - i,
{
    if i < 0 || i >= b.len() {
        b.len() as int
    } else if b[i] == 0 {
        i
    } else {
        cstr_end(b, i + 1)
    }
}

/// What UTF-8 decoding makes of a byte sequence: the character sequence
/// for valid input, nothing for invalid input. A function of the bytes
/// alone; its meaning is fixed by the `string_from_utf8` wrapper below.
pub uninterp spec fn utf8_decode(b: Seq<u8>) -> Option<Seq<char>>;

/// Every byte is ASCII.
pub open spec fn ascii_bytes(b: Seq<u8>) -> bool {
    forall|j: int| 0 <= j < b.len() ==> b[j] < 0x80
}

/// The bytes before the first NUL are all ASCII.
pub open spec fn cstr_ascii(b: Seq<u8>) -> bool {
    forall|j: int| 0 <= j < cstr_end(b, 0) ==> b[j] < 0x80
}

/// The bytes before the first NUL decode as UTF-8.
pub open spec fn cstr_ok(b: Seq<u8>) -> bool {
    utf8_decode(b.subrange(0, cstr_end(b, 0))) is Some
}

/// The character content of a NUL-terminated byte string.
pub open spec fn cstr_chars(b: Seq<u8>) -> Seq<char> {
    utf8_decode(b.subrange(0, cstr_end(b, 0))).unwrap()
}

/// Relies on `String::from_utf8`: it succeeds exactly on valid UTF-8,
/// the decoded characters depend on the bytes alone (named `utf8_decode`),
/// and ASCII bytes are valid UTF-8 that decodes to the characters with
/// the same code points.
#[verifier::external_body]
fn string_from_utf8(bytes: Vec<u8>) -> (r: Option<String>)
    ensures
        r is Some <==> utf8_decode(bytes@) is Some,
        r is Some ==> r.unwrap()@ == utf8_decode(bytes@).unwrap(),
        ascii_bytes(bytes@) ==> r is Some && r.unwrap()@ == bytes@.map_values(
            |x: u8| x as char,
        ),
{
    match String::from_utf8(bytes) {
        Ok(s) => Some(s),
        Err(_) => None,
    }
}

/// Nothing before `i` is NUL, so the scan for the end may continue at `i`.
proof fn lemma_cstr_end_skip(b: Seq<u8>, i: int)
    requires
        0 <= i <= b.len(),
        forall|j: int| 0 <= j < i ==> b[j] != 0,
    ensures
        cstr_end(b, 0) == cstr_end(b, i),
    decreases i,
{
    if i > 0 {
        lemma_cstr_end_skip(b, i - 1);
        lemma_cstr_end_step(b, i - 1);
    }
}

/// One unfolding step of `cstr_end`.
proof fn lemma_cstr_end_step(b: Seq<u8>, i: int)
    requires
        0 <= i < b.len(),
        b[i] != 0,
    ensures
        cstr_end(b, i) == cstr_end(b, i + 1),
{
}

/// Decode the text before the first NUL byte of `data` as UTF-8. Returns
/// the name exactly when that prefix is valid UTF-8; an ASCII prefix
/// always succeeds, decoding to its own code points.
pub fn from_cstring(data: &Vec<u8>) -> (r: Result<String, ParseError>)
    ensures
        r is Ok <==> cstr_ok(data@),
        r matches Ok(s) ==> s@ == cstr_chars(data@),
        cstr_ascii(data@) ==> (r matches Ok(s) && s@ == data@.subrange(
            0,
            cstr_end(data@, 0),
        ).map_values(|x: u8| x as char)),
        r is Err ==> r == Result::<String, ParseError>::Err(ParseError::InvalidUtf8),
{
    let ghost b = data@;
    let mut end: usize = 0;
    let mut seen_nul = false;
    while end < data.len() && !seen_nul
        invariant_except_break
            0 <= end <= b.len(),
            data@ == b,
            !seen_nul ==> forall|j: int| 0 <= j < end ==> b[j] != 0,
            !seen_nul ==> cstr_end(b, 0) == cstr_end(b, end as int),
            seen_nul ==> end < b.len() && b[end as int] == 0 && cstr_end(b, 0) == end,
        ensures
            data@ == b,
            0 <= end <= b.len(),
            cstr_end(b, 0) == end,
        decreases b.len() - end + (if seen_nul { 0int } else { 1int }),
    {
        if data[end] == 0 {
            seen_nul = true;
        } else {
            proof {
                lemma_cstr_end_step(b, end as int);
            }
            end = end + 1;
        }
    }
    let mut out: Vec<u8> = Vec::new();
    let mut i: usize = 0;
    while i < end
        invariant
            0 <= i <= end <= b.len(),
            data@ == b,
            cstr_end(b, 0) == end,
            out@ == b.subrange(0, i as int),
        decreases end - i,
    {
        out.push(data[i]);
        i = i + 1;
        proof {
            assert(out@ =~= b.subrange(0, i as int));
        }
    }
    match string_from_utf8(out) {
        Some(s) => Ok(s),
        None => Err(ParseError::InvalidUtf8),
    }
}

} // verus!
