//! Parsing the binary form of a document into a document tree.
use vstd::prelude::*;
use crate::value::{Bson, Val, view_fields, view_items, view_node, lemma_view_fields, lemma_view_items};
use crate::wire::{
    DecodeError, read32, read64, find_zero, parse_doc, parse_elems, parse_value, decode_spec,
    parse_str, parse_cstr, parse_raw, is_utf8, TAG_BINARY, TAG_UNDEFINED, TAG_OBJECT_ID,
    TAG_DATE_TIME, TAG_REGEX, TAG_DB_POINTER, TAG_JS_CODE, TAG_SYMBOL, TAG_CODE_WITH_SCOPE,
    TAG_TIMESTAMP, TAG_DECIMAL128, TAG_MIN_KEY, TAG_MAX_KEY, field_value, TAG_DOUBLE, TAG_STRING, TAG_DOCUMENT, TAG_ARRAY, TAG_BOOLEAN, TAG_NULL, TAG_INT32,
    TAG_INT64,
};

verus! {

broadcast use vstd::std_specs::vec::group_vec_axioms;

pub open spec fn view_decoded(r: Result<Bson, DecodeError>) -> Result<Val, DecodeError> {
    match r {
        Ok(d) => Ok(d@),
        Err(e) => Err(e),
    }
}

pub open spec fn view_parsed_value(r: Result<(Bson, usize), DecodeError>) -> Result<(Val, int), DecodeError> {
    match r {
        Ok((v, q)) => Ok((v@, q as int)),
        Err(e) => Err(e),
    }
}

pub open spec fn view_parsed_doc(r: Result<(Vec<(Vec<u8>, Bson)>, usize), DecodeError>) -> Result<(Seq<(Seq<u8>, Val)>, int), DecodeError> {
    match r {
        Ok((fs, q)) => Ok((view_fields(fs@), q as int)),
        Err(e) => Err(e),
    }
}

fn read32_at(b: &Vec<u8>, pos: usize) -> (r: u32)
    requires
        pos + 4 <= b.len(),
    ensures
        r == read32(b@, pos as int),
{
    (b[pos] as u32) | ((b[pos + 1] as u32) << 8u32) | ((b[pos + 2] as u32) << 16u32) | ((b[pos + 3] as u32) << 24u32)
}

fn read64_at(b: &Vec<u8>, pos: usize) -> (r: u64)
    requires
        pos + 8 <= b.len(),
    ensures
        r == read64(b@, pos as int),
{
    (read32_at(b, pos) as u64) | ((read32_at(b, pos + 4) as u64) << 32u64)
}

fn find_zero_at(b: &Vec<u8>, pos: usize, end: usize) -> (r: usize)
    requires
        pos <= end <= b@.len(),
    ensures
        r == find_zero(b@, pos as int, end as int),
        pos <= r <= end,
{
    let mut i = pos;
    while i < end && b[i] != 0
        invariant
            pos <= i <= end <= b@.len(),
            find_zero(b@, pos as int, end as int) == find_zero(b@, i as int, end as int),
        decreases end - i,
    {
        i = i + 1;
    }
    i
}

fn copy_range(b: &Vec<u8>, from: usize, to: usize) -> (r: Vec<u8>)
    requires
        from <= to <= b@.len(),
    ensures
        r@ == b@.subrange(from as int, to as int),
{
    let mut r: Vec<u8> = Vec::new();
    let mut i = from;
    while i < to
        invariant
            from <= i <= to <= b@.len(),
            r@ == b@.subrange(from as int, i as int),
        decreases to - i,
    {
        r.push(b[i]);
        i = i + 1;
        assert(r@ =~= b@.subrange(from as int, i as int));
    }
    r
}

pub open spec fn view_parsed_bytes(r: Result<(Vec<u8>, usize), DecodeError>) -> Result<(Seq<u8>, int), DecodeError> {
    match r {
        Ok((s, q)) => Ok((s@, q as int)),
        Err(e) => Err(e),
    }
}

fn parse_str_at(b: &Vec<u8>, pos: usize, end: usize) -> (r: Result<(Vec<u8>, usize), DecodeError>)
    requires
        pos <= end <= b@.len(),
    ensures
        view_parsed_bytes(r) == parse_str(b@, pos as int, end as int),
        r is Ok ==> pos + 5 <= r->Ok_0.1 <= end,
{
    if end - pos < 4 {
        return Err(DecodeError::Truncated);
    }
    let n = read32_at(b, pos) as usize;
    if n < 1 {
        Err(DecodeError::LengthMismatch)
    } else if n > end - pos - 4 {
        Err(DecodeError::Truncated)
    } else if b[pos + 4 + n - 1] != 0 {
        Err(DecodeError::LengthMismatch)
    } else {
        let s = copy_range(b, pos + 4, pos + 4 + n - 1);
        if !is_utf8(s.as_slice()) {
            Err(DecodeError::InvalidUtf8)
        } else {
            Ok((s, pos + 4 + n))
        }
    }
}

fn parse_cstr_at(b: &Vec<u8>, pos: usize, end: usize) -> (r: Result<(Vec<u8>, usize), DecodeError>)
    requires
        pos <= end <= b@.len(),
    ensures
        view_parsed_bytes(r) == parse_cstr(b@, pos as int, end as int),
        r is Ok ==> pos < r->Ok_0.1 <= end,
{
    let k = find_zero_at(b, pos, end);
    if k >= end {
        return Err(DecodeError::Truncated);
    }
    let s = copy_range(b, pos, k);
    if !is_utf8(s.as_slice()) {
        Err(DecodeError::InvalidUtf8)
    } else {
        Ok((s, k + 1))
    }
}

fn parse_raw_at(b: &Vec<u8>, pos: usize, end: usize, n: usize) -> (r: Result<(Vec<u8>, usize), DecodeError>)
    requires
        pos <= end <= b@.len(),
    ensures
        view_parsed_bytes(r) == parse_raw(b@, pos as int, end as int, n as int),
        r is Ok ==> pos <= r->Ok_0.1 <= end,
{
    if end - pos < n {
        Err(DecodeError::Truncated)
    } else {
        Ok((copy_range(b, pos, pos + n), pos + n))
    }
}

/// The values of `fs`, in order.
fn field_values(fs: Vec<(Vec<u8>, Bson)>) -> (r: Vec<Bson>)
    ensures
        view_items(r@) == view_fields(fs@).map_values(|f: (Seq<u8>, Val)| field_value(f)),
{
    let ghost orig = fs@;
    let mut fs = fs;
    let mut r: Vec<Bson> = Vec::new();
    let mut i: usize = 0;
    assert(orig.len() == fs.len());
    while fs.len() > 0
        invariant
            orig.len() <= usize::MAX,
            i + fs@.len() == orig.len(),
            fs@ == orig.skip(i as int),
            r@.len() == i,
            forall|j: int| 0 <= j < i ==> #[trigger] view_node(r@[j]) == view_node(orig[j].1),
        decreases fs@.len(),
    {
        let (_, x) = fs.remove(0);
        assert(orig.skip(i as int + 1) =~= orig.skip(i as int).skip(1));
        r.push(x);
        i = i + 1;
    }
    proof {
        lemma_view_items(r@);
        lemma_view_fields(orig);
        assert(view_items(r@) =~= view_fields(orig).map_values(|f: (Seq<u8>, Val)| field_value(f)));
    }
    r
}

/// Parses the document framed at `pos` within `pos..end`.
fn parse_doc_at(b: &Vec<u8>, pos: usize, end: usize) -> (r: Result<(Vec<(Vec<u8>, Bson)>, usize), DecodeError>)
    requires
        pos <= end <= b@.len(),
    ensures
        view_parsed_doc(r) == parse_doc(b@, pos as int, end as int),
        r is Ok ==> pos < r->Ok_0.1 <= end,
    decreases end - pos, 2int,
{
    if end - pos < 4 {
        return Err(DecodeError::Truncated);
    }
    let l = read32_at(b, pos) as usize;
    if l < 5 {
        return Err(DecodeError::LengthMismatch);
    }
    if l > end - pos {
        return Err(DecodeError::Truncated);
    }
    let lim = pos + l;
    let mut acc: Vec<(Vec<u8>, Bson)> = Vec::new();
    let mut p = pos + 4;
    while p < lim && b[p] != 0
        invariant
            pos + 4 <= p <= lim <= end <= b@.len(),
            lim == pos + l,
            l == read32(b@, pos as int) as int,
            parse_elems(b@, pos + 4, lim as int, Seq::empty()) == parse_elems(b@, p as int, lim as int, view_fields(acc@)),
        decreases lim - p,
    {
        let (key, k1) = match parse_cstr_at(b, p + 1, lim) {
            Err(e) => {
                return Err(e);
            },
            Ok(r) => r,
        };
        let tag = b[p];
        match parse_value_at(b, tag, k1, lim) {
            Err(e) => {
                return Err(e);
            },
            Ok((v, q)) => {
                let ghost old_acc = acc@;
                acc.push((key, v));
                assert(acc@.drop_last() =~= old_acc);
                p = q;
            },
        }
    }
    if p >= lim {
        return Err(DecodeError::Truncated);
    }
    if p + 1 != lim {
        return Err(DecodeError::LengthMismatch);
    }
    Ok((acc, lim))
}

/// Parses the payload of a value of type `tag` at `pos` within `pos..end`.
fn parse_value_at(b: &Vec<u8>, tag: u8, pos: usize, end: usize) -> (r: Result<(Bson, usize), DecodeError>)
    requires
        pos <= end <= b@.len(),
    ensures
        view_parsed_value(r) == parse_value(b@, tag, pos as int, end as int),
        r is Ok ==> pos <= r->Ok_0.1 <= end,
    decreases end - pos, 3int,
{
    if tag == TAG_DOUBLE {
        if end - pos < 8 {
            Err(DecodeError::Truncated)
        } else {
            Ok((Bson::Double(read64_at(b, pos)), pos + 8))
        }
    } else if tag == TAG_STRING || tag == TAG_JS_CODE || tag == TAG_SYMBOL {
        match parse_str_at(b, pos, end) {
            Err(e) => Err(e),
            Ok((s, q)) => Ok((if tag == TAG_STRING { Bson::Str(s) } else if tag == TAG_JS_CODE { Bson::JsCode(s) } else { Bson::Symbol(s) }, q)),
        }
    } else if tag == TAG_DOCUMENT {
        match parse_doc_at(b, pos, end) {
            Err(e) => Err(e),
            Ok((fs, q)) => Ok((Bson::Document(fs), q)),
        }
    } else if tag == TAG_ARRAY {
        match parse_doc_at(b, pos, end) {
            Err(e) => Err(e),
            Ok((fs, q)) => Ok((Bson::Array(field_values(fs)), q)),
        }
    } else if tag == TAG_BOOLEAN {
        if end - pos < 1 {
            Err(DecodeError::Truncated)
        } else if b[pos] == 0 {
            Ok((Bson::Boolean(false), pos + 1))
        } else if b[pos] == 1 {
            Ok((Bson::Boolean(true), pos + 1))
        } else {
            Err(DecodeError::InvalidTag)
        }
    } else if tag == TAG_NULL {
        Ok((Bson::Null, pos))
    } else if tag == TAG_INT32 {
        if end - pos < 4 {
            Err(DecodeError::Truncated)
        } else {
            Ok((Bson::Int32(read32_at(b, pos) as i32), pos + 4))
        }
    } else if tag == TAG_INT64 {
        if end - pos < 8 {
            Err(DecodeError::Truncated)
        } else {
            Ok((Bson::Int64(read64_at(b, pos) as i64), pos + 8))
        }
    } else if tag == TAG_BINARY {
        if end - pos < 5 {
            return Err(DecodeError::Truncated);
        }
        let n = read32_at(b, pos) as usize;
        if n > end - pos - 5 {
            Err(DecodeError::Truncated)
        } else {
            Ok((Bson::Binary(b[pos + 4], copy_range(b, pos + 5, pos + 5 + n)), pos + 5 + n))
        }
    } else if tag == TAG_UNDEFINED {
        Ok((Bson::Undefined, pos))
    } else if tag == TAG_OBJECT_ID {
        match parse_raw_at(b, pos, end, 12) {
            Err(e) => Err(e),
            Ok((x, q)) => Ok((Bson::ObjectId(x), q)),
        }
    } else if tag == TAG_DATE_TIME {
        if end - pos < 8 {
            Err(DecodeError::Truncated)
        } else {
            Ok((Bson::DateTime(read64_at(b, pos) as i64), pos + 8))
        }
    } else if tag == TAG_REGEX {
        match parse_cstr_at(b, pos, end) {
            Err(e) => Err(e),
            Ok((p, q1)) => match parse_cstr_at(b, q1, end) {
                Err(e) => Err(e),
                Ok((o, q2)) => Ok((Bson::Regex(p, o), q2)),
            },
        }
    } else if tag == TAG_DB_POINTER {
        match parse_str_at(b, pos, end) {
            Err(e) => Err(e),
            Ok((n, q1)) => match parse_raw_at(b, q1, end, 12) {
                Err(e) => Err(e),
                Ok((x, q2)) => Ok((Bson::DbPointer(n, x), q2)),
            },
        }
    } else if tag == TAG_CODE_WITH_SCOPE {
        if end - pos < 4 {
            return Err(DecodeError::Truncated);
        }
        let t = read32_at(b, pos) as usize;
        if t < 14 {
            return Err(DecodeError::LengthMismatch);
        }
        if t > end - pos {
            return Err(DecodeError::Truncated);
        }
        let lim = pos + t;
        match parse_str_at(b, pos + 4, lim) {
            Err(e) => Err(e),
            Ok((c, q1)) => match parse_doc_at(b, q1, lim) {
                Err(e) => Err(e),
                Ok((fs, q2)) => if q2 != lim {
                    Err(DecodeError::LengthMismatch)
                } else {
                    Ok((Bson::CodeWithScope(c, fs), q2))
                },
            },
        }
    } else if tag == TAG_TIMESTAMP {
        if end - pos < 8 {
            Err(DecodeError::Truncated)
        } else {
            Ok((Bson::Timestamp(read32_at(b, pos + 4), read32_at(b, pos)), pos + 8))
        }
    } else if tag == TAG_DECIMAL128 {
        match parse_raw_at(b, pos, end, 16) {
            Err(e) => Err(e),
            Ok((x, q)) => Ok((Bson::Decimal128(x), q)),
        }
    } else if tag == TAG_MIN_KEY {
        Ok((Bson::MinKey, pos))
    } else if tag == TAG_MAX_KEY {
        Ok((Bson::MaxKey, pos))
    } else {
        Err(DecodeError::InvalidTag)
    }
}

/// Parses a whole buffer as one document.
///
/// The first four bytes must declare the buffer's own length; the result is
/// exactly what `decode_spec` gives, so a malformed buffer yields an error that
/// names the failed check and never a partial document.
pub fn decode(b: &Vec<u8>) -> (r: Result<Bson, DecodeError>)
    ensures
        view_decoded(r) == decode_spec(b@),
        b@.len() < 4 ==> r == Err::<Bson, DecodeError>(DecodeError::Truncated),
        b@.len() >= 4 && read32(b@, 0) as int != b@.len() ==> r == Err::<Bson, DecodeError>(DecodeError::LengthMismatch),
        r is Ok ==> r->Ok_0 is Document,
{
    if b.len() < 4 {
        return Err(DecodeError::Truncated);
    }
    if read32_at(b, 0) as usize != b.len() {
        return Err(DecodeError::LengthMismatch);
    }
    match parse_doc_at(b, 0, b.len()) {
        Err(e) => Err(e),
        Ok((fs, _)) => Ok(Bson::Document(fs)),
    }
}

} // verus!
