//! Serializing a document tree into its binary form.
use vstd::prelude::*;
use crate::value::{Bson, Val, view_fields, view_items, view_node, lemma_view_fields, lemma_view_items};
use crate::wire::{enc_str, frame, name_ok, valid_utf8, is_utf8, TAG_BINARY, TAG_UNDEFINED, TAG_OBJECT_ID, TAG_DATE_TIME, TAG_REGEX, TAG_DB_POINTER, TAG_JS_CODE, TAG_SYMBOL, TAG_CODE_WITH_SCOPE, TAG_TIMESTAMP, TAG_DECIMAL128, TAG_MIN_KEY, TAG_MAX_KEY, elem, le32, le64, decimal, no_zero, wf_val, wf_fields, wf_items, tag_of, enc_val, enc_fields, enc_items, MAX_LEN, TAG_DOUBLE, TAG_STRING, TAG_DOCUMENT, TAG_ARRAY, TAG_BOOLEAN, TAG_NULL, TAG_INT32, TAG_INT64};

verus! {

broadcast use vstd::std_specs::vec::group_vec_axioms;

pub(crate) fn write32(out: &mut Vec<u8>, x: u32)
    ensures
        final(out)@ == old(out)@ + le32(x),
{
    out.push((x & 0xff) as u8);
    out.push(((x >> 8u32) & 0xff) as u8);
    out.push(((x >> 16u32) & 0xff) as u8);
    out.push(((x >> 24u32) & 0xff) as u8);
    assert(final(out)@ =~= old(out)@ + le32(x));
}

pub(crate) fn write64(out: &mut Vec<u8>, x: u64)
    ensures
        final(out)@ == old(out)@ + le64(x),
{
    write32(out, (x & 0xffff_ffff) as u32);
    write32(out, (x >> 32u64) as u32);
    assert(final(out)@ =~= old(out)@ + le64(x));
}

pub(crate) fn write_bytes(out: &mut Vec<u8>, src: &Vec<u8>)
    ensures
        final(out)@ == old(out)@ + src@,
{
    let mut i: usize = 0;
    while i < src.len()
        invariant
            i <= src@.len(),
            out@ == old(out)@ + src@.take(i as int),
        decreases src@.len() - i,
    {
        out.push(src[i]);
        i = i + 1;
        assert(out@ =~= old(out)@ + src@.take(i as int));
    }
    assert(src@.take(i as int) =~= src@);
}

pub(crate) fn write_decimal(out: &mut Vec<u8>, n: usize)
    ensures
        final(out)@ == old(out)@ + decimal(n as nat),
    decreases n,
{
    if n < 10 {
        out.push((48 + n) as u8);
        assert(final(out)@ =~= old(out)@ + decimal(n as nat));
    } else {
        write_decimal(out, n / 10);
        out.push((48 + n % 10) as u8);
        assert(final(out)@ =~= old(out)@ + decimal(n as nat));
    }
}

proof fn lemma_fields_prefix(fs: Seq<(Seq<u8>, Val)>, j: int)
    requires
        0 <= j <= fs.len(),
    ensures
        enc_fields(fs.take(j)).len() <= enc_fields(fs).len(),
    decreases fs.len(),
{
    if j < fs.len() {
        assert(fs.drop_last().take(j) =~= fs.take(j));
        lemma_fields_prefix(fs.drop_last(), j);
    } else {
        assert(fs.take(j) =~= fs);
    }
}

proof fn lemma_items_prefix(xs: Seq<Val>, j: int)
    requires
        0 <= j <= xs.len(),
    ensures
        enc_items(xs.take(j)).len() <= enc_items(xs).len(),
    decreases xs.len(),
{
    if j < xs.len() {
        assert(xs.drop_last().take(j) =~= xs.take(j));
        lemma_items_prefix(xs.drop_last(), j);
    } else {
        assert(xs.take(j) =~= xs);
    }
}

proof fn lemma_wf_fields_at(fs: Seq<(Seq<u8>, Val)>, i: int)
    requires
        wf_fields(fs),
        0 <= i < fs.len(),
    ensures
        name_ok(fs[i].0),
        wf_val(fs[i].1),
    decreases fs.len(),
{
    if i < fs.len() - 1 {
        lemma_wf_fields_at(fs.drop_last(), i);
    }
}

proof fn lemma_wf_items_at(xs: Seq<Val>, i: int)
    requires
        wf_items(xs),
        0 <= i < xs.len(),
    ensures
        wf_val(xs[i]),
    decreases xs.len(),
{
    if i < xs.len() - 1 {
        lemma_wf_items_at(xs.drop_last(), i);
    }
}

fn tag_of_node(v: &Bson) -> (t: u8)
    ensures
        t == tag_of(v@),
{
    match v {
        Bson::Double(_) => TAG_DOUBLE,
        Bson::Str(_) => TAG_STRING,
        Bson::Document(_) => TAG_DOCUMENT,
        Bson::Array(_) => TAG_ARRAY,
        Bson::Boolean(_) => TAG_BOOLEAN,
        Bson::Null => TAG_NULL,
        Bson::Int32(_) => TAG_INT32,
        Bson::Int64(_) => TAG_INT64,
        Bson::Binary(_, _) => TAG_BINARY,
        Bson::Undefined => TAG_UNDEFINED,
        Bson::ObjectId(_) => TAG_OBJECT_ID,
        Bson::DateTime(_) => TAG_DATE_TIME,
        Bson::Regex(_, _) => TAG_REGEX,
        Bson::DbPointer(_, _) => TAG_DB_POINTER,
        Bson::JsCode(_) => TAG_JS_CODE,
        Bson::Symbol(_) => TAG_SYMBOL,
        Bson::CodeWithScope(_, _) => TAG_CODE_WITH_SCOPE,
        Bson::Timestamp(_, _) => TAG_TIMESTAMP,
        Bson::Decimal128(_) => TAG_DECIMAL128,
        Bson::MinKey => TAG_MIN_KEY,
        Bson::MaxKey => TAG_MAX_KEY,
    }
}

fn write_str(out: &mut Vec<u8>, s: &Vec<u8>)
    requires
        s@.len() + 5 <= MAX_LEN,
    ensures
        final(out)@ == old(out)@ + enc_str(s@),
{
    write32(out, (s.len() + 1) as u32);
    write_bytes(out, s);
    out.push(0u8);
    assert(final(out)@ =~= old(out)@ + enc_str(s@));
}

/// Appends `fs` framed as a document.
fn write_frame(out: &mut Vec<u8>, fs: &Vec<(Vec<u8>, Bson)>)
    requires
        wf_fields(view_fields(fs@)),
        frame(enc_fields(view_fields(fs@))).len() <= MAX_LEN,
    ensures
        final(out)@ == old(out)@ + frame(enc_fields(view_fields(fs@))),
    decreases enc_fields(view_fields(fs@)).len() + 1,
{
    let ghost sv = view_fields(fs@);
    proof {
        lemma_view_fields(fs@);
    }
    let mut body: Vec<u8> = Vec::new();
    let mut i: usize = 0;
    while i < fs.len()
        invariant
            i <= fs@.len(),
            sv == view_fields(fs@),
            sv.len() == fs@.len(),
            forall|j: int| 0 <= j < fs@.len() ==> #[trigger] sv[j] == (fs@[j].0@, view_node(fs@[j].1)),
            wf_fields(sv),
            enc_fields(sv).len() + 5 <= MAX_LEN,
            body@ == enc_fields(sv.take(i as int)),
        decreases fs@.len() - i,
    {
        proof {
            lemma_wf_fields_at(sv, i as int);
            lemma_fields_prefix(sv, i as int + 1);
            assert(sv.take(i as int + 1).drop_last() =~= sv.take(i as int));
        }
        let (k, x) = &fs[i];
        proof {
            assert(sv.take(i as int + 1).last() == sv[i as int]);
            assert(x@ == sv[i as int].1);
            assert(enc_val(x@).len() < enc_fields(sv.take(i as int + 1)).len());
        }
        body.push(tag_of_node(x));
        write_bytes(&mut body, k);
        body.push(0u8);
        write_value(&mut body, x);
        i = i + 1;
        assert(body@ =~= enc_fields(sv.take(i as int)));
    }
    assert(sv.take(i as int) =~= sv);
    write32(out, (body.len() + 5) as u32);
    write_bytes(out, &body);
    out.push(0u8);
    assert(final(out)@ =~= old(out)@ + frame(enc_fields(sv)));
}

/// Appends the payload of `v` to `out`.
fn write_value(out: &mut Vec<u8>, v: &Bson)
    requires
        wf_val(v@),
        enc_val(v@).len() <= MAX_LEN,
    ensures
        final(out)@ == old(out)@ + enc_val(v@),
    decreases enc_val(v@).len(),
{
    match v {
        Bson::Double(x) => {
            write64(out, *x);
        },
        Bson::Str(s) => {
            write_str(out, s);
        },
        Bson::Document(fs) => {
            write_frame(out, fs);
        },
        Bson::Array(xs) => {
            let ghost sv = view_items(xs@);
            proof {
                lemma_view_items(xs@);
            }
            let mut body: Vec<u8> = Vec::new();
            let mut i: usize = 0;
            while i < xs.len()
                invariant
                    i <= xs@.len(),
                    sv == view_items(xs@),
                    v@ == Val::Arr(sv),
                    sv.len() == xs@.len(),
                    forall|j: int| 0 <= j < xs@.len() ==> #[trigger] sv[j] == view_node(xs@[j]),
                    wf_items(sv),
                    enc_items(sv).len() + 5 <= MAX_LEN,
                    body@ == enc_items(sv.take(i as int)),
                decreases xs@.len() - i,
            {
                proof {
                    lemma_wf_items_at(sv, i as int);
                    lemma_items_prefix(sv, i as int + 1);
                    assert(sv.take(i as int + 1).drop_last() =~= sv.take(i as int));
                }
                let x = &xs[i];
                proof {
                    assert(sv.take(i as int + 1).last() == sv[i as int]);
                    assert(x@ == sv[i as int]);
                    assert(enc_val(x@).len() < enc_items(sv.take(i as int + 1)).len());
                    assert(enc_val(v@).len() == enc_items(sv).len() + 5);
                }
                body.push(tag_of_node(x));
                write_decimal(&mut body, i);
                body.push(0u8);
                write_value(&mut body, x);
                i = i + 1;
                assert(body@ =~= enc_items(sv.take(i as int)));
            }
            assert(sv.take(i as int) =~= sv);
            write32(out, (body.len() + 5) as u32);
            write_bytes(out, &body);
            out.push(0u8);
            assert(final(out)@ =~= old(out)@ + enc_val(v@));
        },
        Bson::Boolean(x) => {
            out.push(if *x { 1u8 } else { 0u8 });
            assert(final(out)@ =~= old(out)@ + enc_val(v@));
        },
        Bson::Int32(x) => {
            write32(out, #[verifier::truncate] (*x as u32));
        },
        Bson::Int64(x) => {
            write64(out, #[verifier::truncate] (*x as u64));
        },
        Bson::Binary(t, d) => {
            write32(out, d.len() as u32);
            out.push(*t);
            write_bytes(out, d);
            assert(final(out)@ =~= old(out)@ + enc_val(v@));
        },
        Bson::ObjectId(x) => {
            write_bytes(out, x);
        },
        Bson::DateTime(x) => {
            write64(out, #[verifier::truncate] (*x as u64));
        },
        Bson::Regex(p, o) => {
            write_bytes(out, p);
            out.push(0u8);
            write_bytes(out, o);
            out.push(0u8);
            assert(final(out)@ =~= old(out)@ + enc_val(v@));
        },
        Bson::DbPointer(n, x) => {
            write_str(out, n);
            write_bytes(out, x);
            assert(final(out)@ =~= old(out)@ + enc_val(v@));
        },
        Bson::JsCode(c) => {
            write_str(out, c);
        },
        Bson::Symbol(c) => {
            write_str(out, c);
        },
        Bson::CodeWithScope(c, fs) => {
            let mut body: Vec<u8> = Vec::new();
            write_str(&mut body, c);
            write_frame(&mut body, fs);
            write32(out, (4 + body.len()) as u32);
            write_bytes(out, &body);
            assert(final(out)@ =~= old(out)@ + enc_val(v@));
        },
        Bson::Timestamp(t, i) => {
            write32(out, *i);
            write32(out, *t);
            assert(final(out)@ =~= old(out)@ + enc_val(v@));
        },
        Bson::Decimal128(x) => {
            write_bytes(out, x);
        },
        _ => {
            assert(final(out)@ =~= old(out)@ + enc_val(v@));
        },
    }
}

/// Serializes a document into its binary form.
///
/// The node must be a document whose field names hold no zero byte, and whose
/// encoding fits the 31-bit length that frames it.
pub fn encode(d: &Bson) -> (r: Vec<u8>)
    requires
        d@ is Doc,
        wf_val(d@),
        enc_val(d@).len() <= MAX_LEN,
    ensures
        r@ == enc_val(d@),
{
    let mut out: Vec<u8> = Vec::new();
    write_value(&mut out, d);
    assert(out@ =~= enc_val(d@));
    out
}

/// A node whose encoding the encoder can write: its names hold no zero byte
/// and its payload fits the 31-bit frame length.
pub open spec fn encodable_val(v: Val) -> bool {
    wf_val(v) && enc_val(v).len() <= MAX_LEN
}

fn has_no_zero(k: &Vec<u8>) -> (r: bool)
    ensures
        r == no_zero(k@),
{
    let mut i: usize = 0;
    while i < k.len()
        invariant
            i <= k@.len(),
            forall|j: int| 0 <= j < i ==> k@[j] != 0,
        decreases k@.len() - i,
    {
        if k[i] == 0 {
            return false;
        }
        i = i + 1;
    }
    true
}

fn decimal_len(n: usize) -> (r: usize)
    ensures
        r == decimal(n as nat).len(),
        1 <= r <= n + 1,
    decreases n,
{
    if n < 10 {
        1
    } else {
        decimal_len(n / 10) + 1
    }
}

proof fn lemma_fields_step(sv: Seq<(Seq<u8>, Val)>, i: int)
    requires
        0 <= i < sv.len(),
    ensures
        enc_fields(sv.take(i + 1)) == enc_fields(sv.take(i)) + elem(tag_of(sv[i].1), sv[i].0, enc_val(sv[i].1)),
        wf_fields(sv.take(i + 1)) == (wf_fields(sv.take(i)) && name_ok(sv[i].0) && wf_val(sv[i].1)),
        enc_fields(sv.take(i + 1)).len() <= enc_fields(sv).len(),
{
    assert(sv.take(i + 1).drop_last() =~= sv.take(i));
    lemma_fields_prefix(sv, i + 1);
}

proof fn lemma_items_step(sv: Seq<Val>, i: int)
    requires
        0 <= i < sv.len(),
    ensures
        enc_items(sv.take(i + 1)) == enc_items(sv.take(i)) + elem(tag_of(sv[i]), decimal(i as nat), enc_val(sv[i])),
        wf_items(sv.take(i + 1)) == (wf_items(sv.take(i)) && wf_val(sv[i])),
        enc_items(sv.take(i + 1)).len() <= enc_items(sv).len(),
{
    assert(sv.take(i + 1).drop_last() =~= sv.take(i));
    lemma_items_prefix(sv, i + 1);
}

/// The length of `fs` framed as a document, when every field is encodable and the frame fits.
fn frame_size(fs: &Vec<(Vec<u8>, Bson)>) -> (r: Option<u64>)
    ensures
        r is Some <==> (wf_fields(view_fields(fs@)) && frame(enc_fields(view_fields(fs@))).len() <= MAX_LEN),
        r is Some ==> r->Some_0 == frame(enc_fields(view_fields(fs@))).len(),
    decreases enc_fields(view_fields(fs@)).len() + 1,
{
    let ghost sv = view_fields(fs@);
    proof {
        lemma_view_fields(fs@);
    }
    let mut total: u64 = 0;
    let mut i: usize = 0;
    while i < fs.len()
        invariant
            i <= fs@.len(),
            sv == view_fields(fs@),
            sv.len() == fs@.len(),
            forall|j: int| 0 <= j < fs@.len() ==> #[trigger] sv[j] == (fs@[j].0@, view_node(fs@[j].1)),
            wf_fields(sv.take(i as int)),
            total == enc_fields(sv.take(i as int)).len(),
            total + 5 <= MAX_LEN,
        decreases fs@.len() - i,
    {
        let (k, x) = &fs[i];
        proof {
            lemma_fields_step(sv, i as int);
            if wf_fields(sv) {
                lemma_wf_fields_at(sv, i as int);
            }
            assert(x@ == sv[i as int].1);
        }
        if !has_no_zero(k) || !is_utf8(k.as_slice()) {
            return None;
        }
        let n = match payload_size(x) {
            None => {
                return None;
            },
            Some(n) => n,
        };
        if k.len() as u64 > (MAX_LEN - 5) as u64 {
            return None;
        }
        let step = 2 + k.len() as u64 + n;
        if total + step + 5 > MAX_LEN as u64 {
            return None;
        }
        total = total + step;
        i = i + 1;
    }
    assert(sv.take(i as int) =~= sv);
    Some(total + 5)
}

fn str_size(s: &Vec<u8>) -> (r: Option<u64>)
    ensures
        r is Some <==> (valid_utf8(s@) && enc_str(s@).len() <= MAX_LEN),
        r is Some ==> r->Some_0 == enc_str(s@).len(),
{
    if s.len() as u64 > (MAX_LEN - 5) as u64 || !is_utf8(s.as_slice()) {
        None
    } else {
        Some(s.len() as u64 + 5)
    }
}

/// The payload length of `v`, when `v` is encodable.
fn payload_size(v: &Bson) -> (r: Option<u64>)
    ensures
        r is Some <==> encodable_val(v@),
        r is Some ==> r->Some_0 == enc_val(v@).len(),
    decreases enc_val(v@).len(),
{
    match v {
        Bson::Double(_) => Some(8),
        Bson::Str(s) => str_size(s),
        Bson::JsCode(s) => str_size(s),
        Bson::Symbol(s) => str_size(s),
        Bson::Document(fs) => frame_size(fs),
        Bson::Array(xs) => {
            let ghost sv = view_items(xs@);
            proof {
                lemma_view_items(xs@);
            }
            let mut total: u64 = 0;
            let mut i: usize = 0;
            while i < xs.len()
                invariant
                    i <= xs@.len(),
                    sv == view_items(xs@),
                    v@ == Val::Arr(sv),
                    sv.len() == xs@.len(),
                    forall|j: int| 0 <= j < xs@.len() ==> #[trigger] sv[j] == view_node(xs@[j]),
                    wf_items(sv.take(i as int)),
                    total == enc_items(sv.take(i as int)).len(),
                    total + 5 <= MAX_LEN,
                decreases xs@.len() - i,
            {
                let x = &xs[i];
                proof {
                    lemma_items_step(sv, i as int);
                    if wf_items(sv) {
                        lemma_wf_items_at(sv, i as int);
                    }
                    assert(x@ == sv[i as int]);
                    assert(enc_val(v@).len() == enc_items(sv).len() + 5);
                }
                let n = match payload_size(x) {
                    None => {
                        return None;
                    },
                    Some(n) => n,
                };
                let d = decimal_len(i);
                if d as u64 > (MAX_LEN - 5) as u64 {
                    return None;
                }
                let step = 2 + d as u64 + n;
                if total + step + 5 > MAX_LEN as u64 {
                    return None;
                }
                total = total + step;
                i = i + 1;
            }
            assert(sv.take(i as int) =~= sv);
            Some(total + 5)
        },
        Bson::Boolean(_) => Some(1),
        Bson::Null => Some(0),
        Bson::Int32(_) => Some(4),
        Bson::Int64(_) => Some(8),
        Bson::Binary(_, d) => {
            if d.len() as u64 > (MAX_LEN - 5) as u64 {
                None
            } else {
                Some(d.len() as u64 + 5)
            }
        },
        Bson::Undefined => Some(0),
        Bson::ObjectId(x) => {
            if x.len() == 12 {
                Some(12)
            } else {
                None
            }
        },
        Bson::DateTime(_) => Some(8),
        Bson::Regex(p, o) => {
            if !has_no_zero(p) || !is_utf8(p.as_slice()) || !has_no_zero(o) || !is_utf8(o.as_slice()) {
                return None;
            }
            if p.len() as u64 > (MAX_LEN - 2) as u64 || o.len() as u64 > (MAX_LEN - 2) as u64 - p.len() as u64 {
                return None;
            }
            Some(p.len() as u64 + o.len() as u64 + 2)
        },
        Bson::DbPointer(n, x) => {
            if x.len() != 12 {
                return None;
            }
            match str_size(n) {
                None => None,
                Some(m) => if m + 12 > MAX_LEN as u64 {
                    None
                } else {
                    Some(m + 12)
                },
            }
        },
        Bson::CodeWithScope(c, fs) => {
            proof {
                assert(enc_val(v@).len() == 4 + enc_str(c@).len() + frame(enc_fields(view_fields(fs@))).len());
            }
            let m = match str_size(c) {
                None => {
                    return None;
                },
                Some(m) => m,
            };
            let f = match frame_size(fs) {
                None => {
                    return None;
                },
                Some(f) => f,
            };
            if 4 + m + f > MAX_LEN as u64 {
                None
            } else {
                Some(4 + m + f)
            }
        },
        Bson::Timestamp(_, _) => Some(8),
        Bson::Decimal128(x) => {
            if x.len() == 16 {
                Some(16)
            } else {
                None
            }
        },
        Bson::MinKey => Some(0),
        Bson::MaxKey => Some(0),
    }
}

/// Serializes `d` when it is a document that the encoder can write, and gives
/// `None` otherwise: when it is not a document, when a field name holds a zero
/// byte, or when its encoding would not fit the 31-bit frame length.
pub fn try_encode(d: &Bson) -> (r: Option<Vec<u8>>)
    ensures
        r is Some <==> (d@ is Doc && encodable_val(d@)),
        r is Some ==> r->Some_0@ == enc_val(d@),
{
    match d {
        Bson::Document(_) => match payload_size(d) {
            Some(_) => Some(encode(d)),
            None => None,
        },
        _ => None,
    }
}

} // verus!
