//! The binary layout of a document, stated over the model of `value`.
use vstd::prelude::*;
use crate::value::Val;

verus! {

/// Why a byte sequence is not a well-formed document.
#[derive(Debug, Clone, Copy, PartialEq, Eq, Structural)]
pub enum DecodeError {
    /// A declared length disagrees with the bytes it frames.
    LengthMismatch,
    /// A payload runs past the end of the bytes that frame it.
    Truncated,
    /// A type tag outside the format, or a boolean byte other than 0 or 1.
    InvalidTag,
    /// A string or a name that is not well-formed UTF-8.
    InvalidUtf8,
}

pub const TAG_DOUBLE: u8 = 0x01;
pub const TAG_STRING: u8 = 0x02;
pub const TAG_DOCUMENT: u8 = 0x03;
pub const TAG_ARRAY: u8 = 0x04;
pub const TAG_BOOLEAN: u8 = 0x08;
pub const TAG_NULL: u8 = 0x0A;
pub const TAG_BINARY: u8 = 0x05;
pub const TAG_UNDEFINED: u8 = 0x06;
pub const TAG_OBJECT_ID: u8 = 0x07;
pub const TAG_DATE_TIME: u8 = 0x09;
pub const TAG_REGEX: u8 = 0x0B;
pub const TAG_DB_POINTER: u8 = 0x0C;
pub const TAG_JS_CODE: u8 = 0x0D;
pub const TAG_SYMBOL: u8 = 0x0E;
pub const TAG_CODE_WITH_SCOPE: u8 = 0x0F;
pub const TAG_INT32: u8 = 0x10;
pub const TAG_TIMESTAMP: u8 = 0x11;
pub const TAG_INT64: u8 = 0x12;
pub const TAG_DECIMAL128: u8 = 0x13;
pub const TAG_MAX_KEY: u8 = 0x7F;
pub const TAG_MIN_KEY: u8 = 0xFF;

/// Largest length a frame may declare.
pub const MAX_LEN: u32 = 0x7fff_ffff;

/// Four bytes, least significant first.
pub open spec fn le32(x: u32) -> Seq<u8> {
    seq![(x & 0xff) as u8, ((x >> 8u32) & 0xff) as u8, ((x >> 16u32) & 0xff) as u8, ((x >> 24u32) & 0xff) as u8]
}

/// Eight bytes, least significant first.
pub open spec fn le64(x: u64) -> Seq<u8> {
    le32((x & 0xffff_ffff) as u32) + le32((x >> 32u64) as u32)
}

/// The little-endian integer in the four bytes at `pos`.
pub open spec fn read32(b: Seq<u8>, pos: int) -> u32 {
    (b[pos] as u32) | ((b[pos + 1] as u32) << 8u32) | ((b[pos + 2] as u32) << 16u32) | ((b[pos + 3] as u32) << 24u32)
}

/// The little-endian integer in the eight bytes at `pos`.
pub open spec fn read64(b: Seq<u8>, pos: int) -> u64 {
    (read32(b, pos) as u64) | ((read32(b, pos + 4) as u64) << 32u64)
}

/// The ASCII decimal digits of `n`, most significant first.
pub open spec fn decimal(n: nat) -> Seq<u8>
    decreases n,
{
    if n < 10 {
        seq![(48 + n) as u8]
    } else {
        decimal(n / 10).push((48 + n % 10) as u8)
    }
}

pub open spec fn no_zero(k: Seq<u8>) -> bool {
    forall|i: int| 0 <= i < k.len() ==> k[i] != 0
}

pub open spec fn is_cont(c: u8) -> bool {
    0x80 <= c <= 0xBF
}

/// The length of the well-formed UTF-8 sequence that starts `s`, or 0 if none does.
pub open spec fn utf8_width(s: Seq<u8>) -> int {
    let c = s[0];
    if c < 0x80 {
        1
    } else if 0xC2 <= c <= 0xDF {
        if s.len() >= 2 && is_cont(s[1]) { 2 } else { 0 }
    } else if 0xE0 <= c <= 0xEF {
        if s.len() >= 3 && is_cont(s[2]) && (if c == 0xE0 {
            0xA0 <= s[1] <= 0xBF
        } else if c == 0xED {
            0x80 <= s[1] <= 0x9F
        } else {
            is_cont(s[1])
        }) { 3 } else { 0 }
    } else if 0xF0 <= c <= 0xF4 {
        if s.len() >= 4 && is_cont(s[2]) && is_cont(s[3]) && (if c == 0xF0 {
            0x90 <= s[1] <= 0xBF
        } else if c == 0xF4 {
            0x80 <= s[1] <= 0x8F
        } else {
            is_cont(s[1])
        }) { 4 } else { 0 }
    } else {
        0
    }
}

/// Well-formed UTF-8: each character in its shortest form, no surrogate, nothing past U+10FFFF.
pub open spec fn valid_utf8(s: Seq<u8>) -> bool
    decreases s.len(),
{
    if s.len() == 0 {
        true
    } else {
        let w = utf8_width(s);
        w > 0 && valid_utf8(s.skip(w))
    }
}

/// A field name or a C string of the format: UTF-8 without a zero byte.
pub open spec fn name_ok(k: Seq<u8>) -> bool {
    no_zero(k) && valid_utf8(k)
}

/// Names and strings are UTF-8, names hold no zero byte (they are written
/// null-terminated), and fixed-width byte payloads have their width.
pub open spec fn wf_val(v: Val) -> bool
    decreases v,
{
    match v {
        Val::Str(s) => valid_utf8(s),
        Val::Doc(fs) => wf_fields(fs),
        Val::Arr(xs) => wf_items(xs),
        Val::ObjectId(x) => x.len() == 12,
        Val::Regex(p, o) => name_ok(p) && name_ok(o),
        Val::DbPointer(n, x) => valid_utf8(n) && x.len() == 12,
        Val::JsCode(c) => valid_utf8(c),
        Val::Symbol(c) => valid_utf8(c),
        Val::CodeWithScope(c, fs) => valid_utf8(c) && wf_fields(fs),
        Val::Decimal128(x) => x.len() == 16,
        _ => true,
    }
}

pub open spec fn wf_fields(fs: Seq<(Seq<u8>, Val)>) -> bool
    decreases fs,
{
    if fs.len() == 0 {
        true
    } else {
        wf_fields(fs.drop_last()) && name_ok(fs.last().0) && wf_val(fs.last().1)
    }
}

pub open spec fn wf_items(xs: Seq<Val>) -> bool
    decreases xs,
{
    if xs.len() == 0 {
        true
    } else {
        wf_items(xs.drop_last()) && wf_val(xs.last())
    }
}

pub open spec fn tag_of(v: Val) -> u8 {
    match v {
        Val::Double(_) => TAG_DOUBLE,
        Val::Str(_) => TAG_STRING,
        Val::Doc(_) => TAG_DOCUMENT,
        Val::Arr(_) => TAG_ARRAY,
        Val::Bool(_) => TAG_BOOLEAN,
        Val::Null => TAG_NULL,
        Val::I32(_) => TAG_INT32,
        Val::I64(_) => TAG_INT64,
        Val::Binary(_, _) => TAG_BINARY,
        Val::Undefined => TAG_UNDEFINED,
        Val::ObjectId(_) => TAG_OBJECT_ID,
        Val::DateTime(_) => TAG_DATE_TIME,
        Val::Regex(_, _) => TAG_REGEX,
        Val::DbPointer(_, _) => TAG_DB_POINTER,
        Val::JsCode(_) => TAG_JS_CODE,
        Val::Symbol(_) => TAG_SYMBOL,
        Val::CodeWithScope(_, _) => TAG_CODE_WITH_SCOPE,
        Val::Timestamp(_, _) => TAG_TIMESTAMP,
        Val::Decimal128(_) => TAG_DECIMAL128,
        Val::MinKey => TAG_MIN_KEY,
        Val::MaxKey => TAG_MAX_KEY,
    }
}

/// A body framed by its total length (prefix and terminator included) and a zero byte.
pub open spec fn frame(body: Seq<u8>) -> Seq<u8> {
    le32((body.len() + 5) as u32) + body + seq![0u8]
}

/// A length-prefixed, null-terminated string.
pub open spec fn enc_str(s: Seq<u8>) -> Seq<u8> {
    le32((s.len() + 1) as u32) + s + seq![0u8]
}

/// The payload of a value: what follows its tag and field name.
pub open spec fn enc_val(v: Val) -> Seq<u8>
    decreases v,
{
    match v {
        Val::Double(x) => le64(x),
        Val::Str(s) => enc_str(s),
        Val::Doc(fs) => frame(enc_fields(fs)),
        Val::Arr(xs) => frame(enc_items(xs)),
        Val::Bool(x) => seq![if x { 1u8 } else { 0u8 }],
        Val::Null => Seq::empty(),
        Val::I32(x) => le32(x as u32),
        Val::I64(x) => le64(x as u64),
        Val::Binary(t, d) => le32(d.len() as u32) + seq![t] + d,
        Val::Undefined => Seq::empty(),
        Val::ObjectId(x) => x,
        Val::DateTime(x) => le64(x as u64),
        Val::Regex(p, o) => p + seq![0u8] + o + seq![0u8],
        Val::DbPointer(n, x) => enc_str(n) + x,
        Val::JsCode(c) => enc_str(c),
        Val::Symbol(c) => enc_str(c),
        Val::CodeWithScope(c, fs) => le32((4 + enc_str(c).len() + frame(enc_fields(fs)).len()) as u32) + enc_str(c)
            + frame(enc_fields(fs)),
        Val::Timestamp(t, i) => le32(i) + le32(t),
        Val::Decimal128(x) => x,
        Val::MinKey => Seq::empty(),
        Val::MaxKey => Seq::empty(),
    }
}

/// One element: tag, null-terminated name, payload.
pub open spec fn elem(tag: u8, k: Seq<u8>, payload: Seq<u8>) -> Seq<u8> {
    seq![tag] + k + seq![0u8] + payload
}

pub open spec fn enc_fields(fs: Seq<(Seq<u8>, Val)>) -> Seq<u8>
    decreases fs,
{
    if fs.len() == 0 {
        Seq::empty()
    } else {
        enc_fields(fs.drop_last()) + elem(tag_of(fs.last().1), fs.last().0, enc_val(fs.last().1))
    }
}

/// Array elements are named by their index in decimal.
pub open spec fn enc_items(xs: Seq<Val>) -> Seq<u8>
    decreases xs,
{
    if xs.len() == 0 {
        Seq::empty()
    } else {
        enc_items(xs.drop_last()) + elem(tag_of(xs.last()), decimal((xs.len() - 1) as nat), enc_val(xs.last()))
    }
}

/// The first index in `pos..end` that holds a zero byte, or `end` if there is none.
pub open spec fn find_zero(b: Seq<u8>, pos: int, end: int) -> int
    decreases end - pos,
{
    if pos >= end {
        end
    } else if b[pos] == 0 {
        pos
    } else {
        find_zero(b, pos + 1, end)
    }
}

/// Parses the length-prefixed string at `pos`: its bytes and the index after it.
pub open spec fn parse_str(b: Seq<u8>, pos: int, end: int) -> Result<(Seq<u8>, int), DecodeError> {
    if pos < 0 || end > b.len() || end - pos < 4 {
        Err(DecodeError::Truncated)
    } else {
        let n = read32(b, pos) as int;
        if n < 1 {
            Err(DecodeError::LengthMismatch)
        } else if pos + 4 + n > end {
            Err(DecodeError::Truncated)
        } else if b[pos + 4 + n - 1] != 0 {
            Err(DecodeError::LengthMismatch)
        } else if !valid_utf8(b.subrange(pos + 4, pos + 4 + n - 1)) {
            Err(DecodeError::InvalidUtf8)
        } else {
            Ok((b.subrange(pos + 4, pos + 4 + n - 1), pos + 4 + n))
        }
    }
}

/// Parses the null-terminated string at `pos`: its bytes and the index after the terminator.
pub open spec fn parse_cstr(b: Seq<u8>, pos: int, end: int) -> Result<(Seq<u8>, int), DecodeError> {
    if pos < 0 || end > b.len() || pos > end {
        Err(DecodeError::Truncated)
    } else {
        let k = find_zero(b, pos, end);
        if k < pos || k >= end {
            Err(DecodeError::Truncated)
        } else if !valid_utf8(b.subrange(pos, k)) {
            Err(DecodeError::InvalidUtf8)
        } else {
            Ok((b.subrange(pos, k), k + 1))
        }
    }
}

/// The `n` bytes at `pos`, and the index after them.
pub open spec fn parse_raw(b: Seq<u8>, pos: int, end: int, n: int) -> Result<(Seq<u8>, int), DecodeError> {
    if pos < 0 || end > b.len() || pos > end || end - pos < n {
        Err(DecodeError::Truncated)
    } else {
        Ok((b.subrange(pos, pos + n), pos + n))
    }
}

/// Parses the document framed at `pos`, within `pos..end`: its fields and the index after it.
pub open spec fn parse_doc(b: Seq<u8>, pos: int, end: int) -> Result<(Seq<(Seq<u8>, Val)>, int), DecodeError>
    decreases end - pos, 2int,
{
    if pos < 0 || end > b.len() || end - pos < 4 {
        Err(DecodeError::Truncated)
    } else {
        let l = read32(b, pos) as int;
        if l < 5 {
            Err(DecodeError::LengthMismatch)
        } else if pos + l > end {
            Err(DecodeError::Truncated)
        } else {
            match parse_elems(b, pos + 4, pos + l, Seq::empty()) {
                Err(e) => Err(e),
                Ok((fs, p)) => if p != pos + l {
                    Err(DecodeError::LengthMismatch)
                } else {
                    Ok((fs, p))
                },
            }
        }
    }
}

/// Parses elements from `pos` up to and including the terminating zero tag, appending them to `acc`.
pub open spec fn parse_elems(b: Seq<u8>, pos: int, end: int, acc: Seq<(Seq<u8>, Val)>) -> Result<(Seq<(Seq<u8>, Val)>, int), DecodeError>
    decreases end - pos, 1int,
{
    if pos < 0 || end > b.len() || pos >= end {
        Err(DecodeError::Truncated)
    } else if b[pos] == 0 {
        Ok((acc, pos + 1))
    } else {
        match parse_cstr(b, pos + 1, end) {
            Err(e) => Err(e),
            Ok((key, k1)) => match parse_value(b, b[pos], k1, end) {
                Err(e) => Err(e),
                // `q <= pos` never holds, as each payload starts after the name;
                // testing it keeps the recursion well-founded.
                Ok((v, q)) => if q <= pos || q > end {
                    Err(DecodeError::Truncated)
                } else {
                    parse_elems(b, q, end, acc.push((key, v)))
                },
            },
        }
    }
}

/// Relies on `std::str::from_utf8`: it succeeds exactly on well-formed UTF-8.
#[verifier::external_body]
pub(crate) fn is_utf8(b: &[u8]) -> (r: bool)
    ensures
        r == valid_utf8(b@),
{
    std::str::from_utf8(b).is_ok()
}

pub open spec fn field_value(f: (Seq<u8>, Val)) -> Val {
    f.1
}

/// Parses the payload of a value of type `tag` at `pos`: the value and the index after it.
pub open spec fn parse_value(b: Seq<u8>, tag: u8, pos: int, end: int) -> Result<(Val, int), DecodeError>
    decreases end - pos, 3int,
{
    if pos < 0 || end > b.len() || pos > end {
        Err(DecodeError::Truncated)
    } else if tag == TAG_DOUBLE {
        if end - pos < 8 { Err(DecodeError::Truncated) } else { Ok((Val::Double(read64(b, pos)), pos + 8)) }
    } else if tag == TAG_STRING || tag == TAG_JS_CODE || tag == TAG_SYMBOL {
        match parse_str(b, pos, end) {
            Err(e) => Err(e),
            Ok((s, q)) => Ok((if tag == TAG_STRING { Val::Str(s) } else if tag == TAG_JS_CODE { Val::JsCode(s) } else { Val::Symbol(s) }, q)),
        }
    } else if tag == TAG_DOCUMENT {
        match parse_doc(b, pos, end) {
            Err(e) => Err(e),
            Ok((fs, q)) => Ok((Val::Doc(fs), q)),
        }
    } else if tag == TAG_ARRAY {
        match parse_doc(b, pos, end) {
            Err(e) => Err(e),
            Ok((fs, q)) => Ok((Val::Arr(fs.map_values(|f: (Seq<u8>, Val)| field_value(f))), q)),
        }
    } else if tag == TAG_BOOLEAN {
        if end - pos < 1 {
            Err(DecodeError::Truncated)
        } else if b[pos] == 0 {
            Ok((Val::Bool(false), pos + 1))
        } else if b[pos] == 1 {
            Ok((Val::Bool(true), pos + 1))
        } else {
            Err(DecodeError::InvalidTag)
        }
    } else if tag == TAG_NULL {
        Ok((Val::Null, pos))
    } else if tag == TAG_INT32 {
        if end - pos < 4 { Err(DecodeError::Truncated) } else { Ok((Val::I32(read32(b, pos) as i32), pos + 4)) }
    } else if tag == TAG_INT64 {
        if end - pos < 8 { Err(DecodeError::Truncated) } else { Ok((Val::I64(read64(b, pos) as i64), pos + 8)) }
    } else if tag == TAG_BINARY {
        if end - pos < 5 {
            Err(DecodeError::Truncated)
        } else {
            let n = read32(b, pos) as int;
            if pos + 5 + n > end {
                Err(DecodeError::Truncated)
            } else {
                Ok((Val::Binary(b[pos + 4], b.subrange(pos + 5, pos + 5 + n)), pos + 5 + n))
            }
        }
    } else if tag == TAG_UNDEFINED {
        Ok((Val::Undefined, pos))
    } else if tag == TAG_OBJECT_ID {
        match parse_raw(b, pos, end, 12) {
            Err(e) => Err(e),
            Ok((x, q)) => Ok((Val::ObjectId(x), q)),
        }
    } else if tag == TAG_DATE_TIME {
        if end - pos < 8 { Err(DecodeError::Truncated) } else { Ok((Val::DateTime(read64(b, pos) as i64), pos + 8)) }
    } else if tag == TAG_REGEX {
        match parse_cstr(b, pos, end) {
            Err(e) => Err(e),
            Ok((p, q1)) => match parse_cstr(b, q1, end) {
                Err(e) => Err(e),
                Ok((o, q2)) => Ok((Val::Regex(p, o), q2)),
            },
        }
    } else if tag == TAG_DB_POINTER {
        match parse_str(b, pos, end) {
            Err(e) => Err(e),
            Ok((n, q1)) => match parse_raw(b, q1, end, 12) {
                Err(e) => Err(e),
                Ok((x, q2)) => Ok((Val::DbPointer(n, x), q2)),
            },
        }
    } else if tag == TAG_CODE_WITH_SCOPE {
        if end - pos < 4 {
            Err(DecodeError::Truncated)
        } else {
            let t = read32(b, pos) as int;
            if t < 14 {
                Err(DecodeError::LengthMismatch)
            } else if pos + t > end {
                Err(DecodeError::Truncated)
            } else {
                match parse_str(b, pos + 4, pos + t) {
                    Err(e) => Err(e),
                    Ok((c, q1)) => if q1 <= pos || q1 > pos + t {
                        Err(DecodeError::Truncated)
                    } else {
                        match parse_doc(b, q1, pos + t) {
                            Err(e) => Err(e),
                            Ok((fs, q2)) => if q2 != pos + t {
                                Err(DecodeError::LengthMismatch)
                            } else {
                                Ok((Val::CodeWithScope(c, fs), q2))
                            },
                        }
                    },
                }
            }
        }
    } else if tag == TAG_TIMESTAMP {
        if end - pos < 8 {
            Err(DecodeError::Truncated)
        } else {
            Ok((Val::Timestamp(read32(b, pos + 4), read32(b, pos)), pos + 8))
        }
    } else if tag == TAG_DECIMAL128 {
        match parse_raw(b, pos, end, 16) {
            Err(e) => Err(e),
            Ok((x, q)) => Ok((Val::Decimal128(x), q)),
        }
    } else if tag == TAG_MIN_KEY {
        Ok((Val::MinKey, pos))
    } else if tag == TAG_MAX_KEY {
        Ok((Val::MaxKey, pos))
    } else {
        Err(DecodeError::InvalidTag)
    }
}

/// What decoding a whole buffer gives: its top-level document, or why it is malformed.
pub open spec fn decode_spec(b: Seq<u8>) -> Result<Val, DecodeError> {
    if b.len() < 4 {
        Err(DecodeError::Truncated)
    } else if read32(b, 0) as int != b.len() {
        Err(DecodeError::LengthMismatch)
    } else {
        match parse_doc(b, 0, b.len() as int) {
            Err(e) => Err(e),
            Ok((fs, _)) => Ok(Val::Doc(fs)),
        }
    }
}

} // verus!
