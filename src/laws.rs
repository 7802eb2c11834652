//! Laws relating the encoder and the decoder.
use vstd::prelude::*;
use crate::value::Val;
use crate::wire::{
    le32, le64, read32, read64, decimal, name_ok, valid_utf8, utf8_width, enc_str,
    parse_str, parse_cstr, parse_raw, wf_val, wf_fields, wf_items, tag_of, elem, frame,
    enc_val, enc_fields, enc_items, find_zero, parse_doc, parse_elems, parse_value, decode_spec,
    field_value, DecodeError, MAX_LEN,
};

verus! {

proof fn lemma_read32(b: Seq<u8>, pos: int, x: u32)
    requires
        0 <= pos,
        pos + 4 <= b.len(),
        b.subrange(pos, pos + 4) == le32(x),
    ensures
        read32(b, pos) == x,
{
    assert(b[pos] == le32(x)[0]);
    assert(b[pos + 1] == le32(x)[1]);
    assert(b[pos + 2] == le32(x)[2]);
    assert(b[pos + 3] == le32(x)[3]);
    assert(((x & 0xff) as u8 as u32) | ((((x >> 8u32) & 0xff) as u8 as u32) << 8u32)
        | ((((x >> 16u32) & 0xff) as u8 as u32) << 16u32) | ((((x >> 24u32) & 0xff) as u8 as u32) << 24u32) == x)
        by (bit_vector);
}

proof fn lemma_read64(b: Seq<u8>, pos: int, x: u64)
    requires
        0 <= pos,
        pos + 8 <= b.len(),
        b.subrange(pos, pos + 8) == le64(x),
    ensures
        read64(b, pos) == x,
{
    let lo = (x & 0xffff_ffff) as u32;
    let hi = (x >> 32u64) as u32;
    assert(b.subrange(pos, pos + 4) =~= le64(x).subrange(0, 4));
    assert(le64(x).subrange(0, 4) =~= le32(lo));
    assert(b.subrange(pos + 4, pos + 8) =~= le64(x).subrange(4, 8));
    assert(le64(x).subrange(4, 8) =~= le32(hi));
    lemma_read32(b, pos, lo);
    lemma_read32(b, pos + 4, hi);
    assert((((x & 0xffff_ffff) as u32) as u64) | ((((x >> 32u64) as u32) as u64) << 32u64) == x) by (bit_vector);
}

proof fn lemma_i32_bits(x: i32)
    ensures
        (x as u32) as i32 == x,
{
    assert((x as u32) as i32 == x) by (bit_vector);
}

proof fn lemma_i64_bits(x: i64)
    ensures
        (x as u64) as i64 == x,
{
    assert((x as u64) as i64 == x) by (bit_vector);
}

proof fn lemma_sub(b: Seq<u8>, pos: int, e: Seq<u8>, i: int, j: int)
    requires
        0 <= pos,
        pos + e.len() <= b.len(),
        b.subrange(pos, pos + e.len()) == e,
        0 <= i <= j <= e.len(),
    ensures
        b.subrange(pos + i, pos + j) == e.subrange(i, j),
{
    assert(b.subrange(pos + i, pos + j) =~= e.subrange(i, j)) by {
        assert forall|k: int| 0 <= k < j - i implies b.subrange(pos + i, pos + j)[k] == e.subrange(i, j)[k] by {
            assert(b[pos + i + k] == b.subrange(pos, pos + e.len())[i + k]);
        }
    }
}

pub(crate) proof fn lemma_ascii_utf8(s: Seq<u8>)
    requires
        forall|i: int| 0 <= i < s.len() ==> s[i] < 0x80,
    ensures
        valid_utf8(s),
    decreases s.len(),
{
    if s.len() > 0 {
        assert(utf8_width(s) == 1);
        lemma_ascii_utf8(s.skip(1));
    }
}

proof fn lemma_decimal_ascii(n: nat)
    ensures
        forall|i: int| 0 <= i < decimal(n).len() ==> 48 <= #[trigger] decimal(n)[i] <= 57,
        decimal(n).len() >= 1,
    decreases n,
{
    if n >= 10 {
        lemma_decimal_ascii(n / 10);
    }
}

proof fn lemma_decimal_name_ok(n: nat)
    ensures
        name_ok(decimal(n)),
        decimal(n).len() >= 1,
{
    lemma_decimal_ascii(n);
    lemma_ascii_utf8(decimal(n));
}

proof fn lemma_parse_str(b: Seq<u8>, pos: int, end: int, s: Seq<u8>)
    requires
        valid_utf8(s),
        enc_str(s).len() <= MAX_LEN,
        0 <= pos,
        pos + enc_str(s).len() <= end <= b.len(),
        b.subrange(pos, pos + enc_str(s).len()) == enc_str(s),
    ensures
        parse_str(b, pos, end) == Ok::<(Seq<u8>, int), DecodeError>((s, pos + enc_str(s).len())),
{
    let e = enc_str(s);
    let n = s.len() + 1;
    lemma_sub(b, pos, e, 0, 4);
    assert(e.subrange(0, 4) =~= le32(n as u32));
    lemma_read32(b, pos, n as u32);
    assert(b[pos + 4 + n - 1] == b.subrange(pos, pos + e.len())[4 + n - 1]);
    lemma_sub(b, pos, e, 4, 4 + n - 1);
    assert(e.subrange(4, 4 + n - 1) =~= s);
}

proof fn lemma_parse_cstr(b: Seq<u8>, pos: int, end: int, s: Seq<u8>)
    requires
        name_ok(s),
        0 <= pos,
        pos + s.len() + 1 <= end <= b.len(),
        b.subrange(pos, pos + s.len() + 1) == s + seq![0u8],
    ensures
        parse_cstr(b, pos, end) == Ok::<(Seq<u8>, int), DecodeError>((s, pos + s.len() + 1)),
{
    let e = s + seq![0u8];
    let k = pos + s.len();
    assert forall|i: int| pos <= i < k implies #[trigger] b[i] != 0 by {
        assert(b[i] == b.subrange(pos, pos + e.len())[i - pos]);
    }
    assert(b[k] == b.subrange(pos, pos + e.len())[k - pos]);
    lemma_find_zero(b, pos, k, end);
    lemma_sub(b, pos, e, 0, s.len() as int);
    assert(e.subrange(0, s.len() as int) =~= s);
}

proof fn lemma_parse_raw(b: Seq<u8>, pos: int, end: int, x: Seq<u8>)
    requires
        0 <= pos,
        pos + x.len() <= end <= b.len(),
        b.subrange(pos, pos + x.len()) == x,
    ensures
        parse_raw(b, pos, end, x.len() as int) == Ok::<(Seq<u8>, int), DecodeError>((x, pos + x.len())),
{
}

proof fn lemma_find_zero(b: Seq<u8>, p: int, k: int, end: int)
    requires
        0 <= p <= k < end <= b.len(),
        forall|i: int| p <= i < k ==> b[i] != 0,
        b[k] == 0,
    ensures
        find_zero(b, p, end) == k,
    decreases k - p,
{
    if p < k {
        lemma_find_zero(b, p + 1, k, end);
    }
}

proof fn lemma_fields_front(fs: Seq<(Seq<u8>, Val)>)
    requires
        fs.len() > 0,
    ensures
        enc_fields(fs) == elem(tag_of(fs[0].1), fs[0].0, enc_val(fs[0].1)) + enc_fields(fs.skip(1)),
        wf_fields(fs) ==> name_ok(fs[0].0) && wf_val(fs[0].1) && wf_fields(fs.skip(1)),
    decreases fs.len(),
{
    let first = elem(tag_of(fs[0].1), fs[0].0, enc_val(fs[0].1));
    if fs.len() == 1 {
        assert(fs.skip(1) =~= Seq::<(Seq<u8>, Val)>::empty());
        assert(fs.drop_last() =~= Seq::<(Seq<u8>, Val)>::empty());
        assert(enc_fields(fs) =~= first + enc_fields(fs.skip(1)));
    } else {
        let dl = fs.drop_last();
        lemma_fields_front(dl);
        assert(fs.skip(1).drop_last() =~= dl.skip(1));
        assert(fs.skip(1).last() == fs.last());
        assert(dl[0] == fs[0]);
        assert(enc_fields(fs) =~= first + enc_fields(fs.skip(1)));
    }
}

/// An array's elements, each named by its index in decimal.
pub open spec fn keyed(xs: Seq<Val>) -> Seq<(Seq<u8>, Val)> {
    Seq::new(xs.len(), |i: int| (decimal(i as nat), xs[i]))
}

proof fn lemma_items_keyed(xs: Seq<Val>)
    ensures
        enc_items(xs) == enc_fields(keyed(xs)),
        wf_items(xs) ==> wf_fields(keyed(xs)),
        keyed(xs).map_values(|f: (Seq<u8>, Val)| field_value(f)) == xs,
    decreases xs.len(),
{
    assert(keyed(xs).map_values(|f: (Seq<u8>, Val)| field_value(f)) =~= xs);
    if xs.len() > 0 {
        let dl = xs.drop_last();
        lemma_items_keyed(dl);
        assert(keyed(xs).drop_last() =~= keyed(dl));
        lemma_decimal_name_ok((xs.len() - 1) as nat);
    } else {
        assert(keyed(xs) =~= Seq::<(Seq<u8>, Val)>::empty());
    }
}

#[verifier::rlimit(40)]
proof fn lemma_parse_value(b: Seq<u8>, pos: int, end: int, v: Val)
    requires
        wf_val(v),
        enc_val(v).len() <= MAX_LEN,
        0 <= pos,
        pos + enc_val(v).len() <= end <= b.len(),
        b.subrange(pos, pos + enc_val(v).len()) == enc_val(v),
    ensures
        parse_value(b, tag_of(v), pos, end) == Ok::<(Val, int), DecodeError>((v, pos + enc_val(v).len())),
    decreases enc_val(v).len(),
{
    let e = enc_val(v);
    match v {
        Val::Double(x) => {
            lemma_read64(b, pos, x);
        },
        Val::Str(s) => {
            lemma_parse_str(b, pos, end, s);
        },
        Val::JsCode(s) => {
            lemma_parse_str(b, pos, end, s);
        },
        Val::Symbol(s) => {
            lemma_parse_str(b, pos, end, s);
        },
        Val::Doc(fs) => {
            lemma_parse_doc(b, pos, end, fs);
        },
        Val::Arr(xs) => {
            lemma_items_keyed(xs);
            lemma_parse_doc(b, pos, end, keyed(xs));
        },
        Val::Bool(x) => {
            assert(b[pos] == b.subrange(pos, pos + e.len())[0]);
        },
        Val::I32(x) => {
            assert(b.subrange(pos, pos + 4) =~= e);
            lemma_read32(b, pos, x as u32);
            lemma_i32_bits(x);
        },
        Val::I64(x) => {
            lemma_read64(b, pos, x as u64);
            lemma_i64_bits(x);
        },
        Val::DateTime(x) => {
            lemma_read64(b, pos, x as u64);
            lemma_i64_bits(x);
        },
        Val::Binary(t, d) => {
            lemma_sub(b, pos, e, 0, 4);
            assert(e.subrange(0, 4) =~= le32(d.len() as u32));
            lemma_read32(b, pos, d.len() as u32);
            assert(b[pos + 4] == b.subrange(pos, pos + e.len())[4]);
            lemma_sub(b, pos, e, 5, e.len() as int);
            assert(e.subrange(5, e.len() as int) =~= d);
        },
        Val::ObjectId(x) => {
            lemma_parse_raw(b, pos, end, x);
        },
        Val::Decimal128(x) => {
            lemma_parse_raw(b, pos, end, x);
        },
        Val::Regex(p, o) => {
            lemma_regex(b, pos, end, p, o);
        },
        Val::DbPointer(n, x) => {
            let m = enc_str(n).len() as int;
            lemma_sub(b, pos, e, 0, m);
            assert(e.subrange(0, m) =~= enc_str(n));
            lemma_parse_str(b, pos, end, n);
            lemma_sub(b, pos, e, m, e.len() as int);
            assert(e.subrange(m, e.len() as int) =~= x);
            lemma_parse_raw(b, pos + m, end, x);
        },
        Val::CodeWithScope(c, fs) => {
            lemma_code_with_scope(b, pos, end, c, fs);
        },
        Val::Timestamp(t, i) => {
            lemma_sub(b, pos, e, 0, 4);
            assert(e.subrange(0, 4) =~= le32(i));
            lemma_read32(b, pos, i);
            lemma_sub(b, pos, e, 4, 8);
            assert(e.subrange(4, 8) =~= le32(t));
            lemma_read32(b, pos + 4, t);
        },
        _ => {},
    }
}

proof fn lemma_regex(b: Seq<u8>, pos: int, end: int, p: Seq<u8>, o: Seq<u8>)
    requires
        name_ok(p),
        name_ok(o),
        0 <= pos,
        pos + enc_val(Val::Regex(p, o)).len() <= end <= b.len(),
        b.subrange(pos, pos + enc_val(Val::Regex(p, o)).len()) == enc_val(Val::Regex(p, o)),
    ensures
        parse_value(b, tag_of(Val::Regex(p, o)), pos, end) == Ok::<(Val, int), DecodeError>(
            (Val::Regex(p, o), pos + enc_val(Val::Regex(p, o)).len()),
        ),
{
    let e = enc_val(Val::Regex(p, o));
    let m = p.len() + 1int;
    lemma_sub(b, pos, e, 0, m);
    assert(e.subrange(0, m) =~= p + seq![0u8]);
    lemma_parse_cstr(b, pos, end, p);
    lemma_sub(b, pos, e, m, e.len() as int);
    assert(e.subrange(m, e.len() as int) =~= o + seq![0u8]);
    lemma_parse_cstr(b, pos + m, end, o);
}

proof fn lemma_code_with_scope(b: Seq<u8>, pos: int, end: int, c: Seq<u8>, fs: Seq<(Seq<u8>, Val)>)
    requires
        valid_utf8(c),
        wf_fields(fs),
        enc_val(Val::CodeWithScope(c, fs)).len() <= MAX_LEN,
        0 <= pos,
        pos + enc_val(Val::CodeWithScope(c, fs)).len() <= end <= b.len(),
        b.subrange(pos, pos + enc_val(Val::CodeWithScope(c, fs)).len()) == enc_val(Val::CodeWithScope(c, fs)),
    ensures
        parse_value(b, tag_of(Val::CodeWithScope(c, fs)), pos, end) == Ok::<(Val, int), DecodeError>(
            (Val::CodeWithScope(c, fs), pos + enc_val(Val::CodeWithScope(c, fs)).len()),
        ),
    decreases enc_val(Val::CodeWithScope(c, fs)).len(), 1int,
{
    let e = enc_val(Val::CodeWithScope(c, fs));
    let t = e.len() as int;
    let m = enc_str(c).len() as int;
    let f = frame(enc_fields(fs));
    lemma_sub(b, pos, e, 0, 4);
    assert(e.subrange(0, 4) =~= le32(t as u32));
    lemma_read32(b, pos, t as u32);
    lemma_sub(b, pos, e, 4, 4 + m);
    assert(e.subrange(4, 4 + m) =~= enc_str(c));
    lemma_parse_str(b, pos + 4, pos + t, c);
    lemma_sub(b, pos, e, 4 + m, t);
    assert(e.subrange(4 + m, t) =~= f);
    lemma_parse_doc(b, pos + 4 + m, pos + t, fs);
}

proof fn lemma_parse_doc(b: Seq<u8>, pos: int, end: int, fs: Seq<(Seq<u8>, Val)>)
    requires
        wf_fields(fs),
        frame(enc_fields(fs)).len() <= MAX_LEN,
        0 <= pos,
        pos + frame(enc_fields(fs)).len() <= end <= b.len(),
        b.subrange(pos, pos + frame(enc_fields(fs)).len()) == frame(enc_fields(fs)),
    ensures
        parse_doc(b, pos, end) == Ok::<(Seq<(Seq<u8>, Val)>, int), DecodeError>((fs, pos + frame(enc_fields(fs)).len())),
    decreases enc_fields(fs).len() + 1,
{
    let body = enc_fields(fs);
    let e = frame(body);
    let l = body.len() + 5;
    assert(b.subrange(pos, pos + 4) =~= e.subrange(0, 4));
    assert(e.subrange(0, 4) =~= le32(l as u32));
    lemma_read32(b, pos, l as u32);
    assert(b.subrange(pos + 4, pos + 4 + body.len()) =~= e.subrange(4, 4 + body.len() as int));
    assert(e.subrange(4, 4 + body.len() as int) =~= body);
    assert(b[pos + l - 1] == e[l - 1]);
    lemma_parse_elems(b, pos + 4, pos + l, fs, Seq::empty());
    assert(Seq::<(Seq<u8>, Val)>::empty() + fs =~= fs);
}

#[verifier::rlimit(40)]
proof fn lemma_parse_elems(b: Seq<u8>, p: int, lim: int, fs: Seq<(Seq<u8>, Val)>, acc: Seq<(Seq<u8>, Val)>)
    requires
        wf_fields(fs),
        enc_fields(fs).len() <= MAX_LEN,
        0 <= p,
        p + enc_fields(fs).len() + 1 == lim <= b.len(),
        b.subrange(p, p + enc_fields(fs).len()) == enc_fields(fs),
        b[lim - 1] == 0,
    ensures
        parse_elems(b, p, lim, acc) == Ok::<(Seq<(Seq<u8>, Val)>, int), DecodeError>((acc + fs, lim)),
    decreases enc_fields(fs).len(),
{
    if fs.len() == 0 {
        assert(acc + fs =~= acc);
    } else {
        lemma_fields_front(fs);
        let k0 = fs[0].0;
        let v0 = fs[0].1;
        let ev = enc_val(v0);
        let first = elem(tag_of(v0), k0, ev);
        let rest = enc_fields(fs.skip(1));
        let all = enc_fields(fs);
        assert(all == first + rest);
        let k = p + 1 + k0.len();
        let q0 = k + 1;
        let p1 = p + first.len();
        assert(b[p] == b.subrange(p, p + all.len())[0]);
        lemma_sub(b, p, all, 1, q0 - p);
        assert(all.subrange(1, q0 - p) =~= k0 + seq![0u8]);
        lemma_parse_cstr(b, p + 1, lim, k0);
        lemma_sub(b, p, all, q0 - p, q0 - p + ev.len());
        assert(all.subrange(q0 - p, q0 - p + ev.len()) =~= ev);
        lemma_parse_value(b, q0, lim, v0);
        lemma_sub(b, p, all, first.len() as int, all.len() as int);
        assert(all.subrange(first.len() as int, all.len() as int) =~= rest);
        lemma_parse_elems(b, p1, lim, fs.skip(1), acc.push((k0, v0)));
        assert(acc.push((k0, v0)) + fs.skip(1) =~= acc + fs);
    }
}

/// Decoding the encoding of a well-formed document gives that document back,
/// with every field in the order it was written.
pub proof fn lemma_round_trip(d: Val)
    requires
        d is Doc,
        wf_val(d),
        enc_val(d).len() <= MAX_LEN,
    ensures
        decode_spec(enc_val(d)) == Ok::<Val, DecodeError>(d),
{
    let fs = d->Doc_0;
    let b = enc_val(d);
    assert(b.subrange(0, b.len() as int) =~= b);
    lemma_parse_doc(b, 0, b.len() as int, fs);
    assert(b.subrange(0, 4) =~= le32((enc_fields(fs).len() + 5) as u32));
    lemma_read32(b, 0, (enc_fields(fs).len() + 5) as u32);
}

/// A buffer whose first four bytes declare a length other than its own is
/// rejected with `LengthMismatch`, whether the declared length is shorter or longer.
pub proof fn lemma_length_mismatch(b: Seq<u8>)
    requires
        b.len() >= 4,
        read32(b, 0) as int != b.len(),
    ensures
        decode_spec(b) == Err::<Val, DecodeError>(DecodeError::LengthMismatch),
{
}

/// Cutting trailing bytes off the encoding of a well-formed document makes it
/// fail with `Truncated` or `LengthMismatch`; it never decodes to a tree.
pub proof fn lemma_truncation_rejected(d: Val, k: int)
    requires
        d is Doc,
        wf_val(d),
        enc_val(d).len() <= MAX_LEN,
        0 <= k < enc_val(d).len(),
    ensures
        decode_spec(enc_val(d).take(k)) == Err::<Val, DecodeError>(DecodeError::Truncated)
            || decode_spec(enc_val(d).take(k)) == Err::<Val, DecodeError>(DecodeError::LengthMismatch),
{
    let fs = d->Doc_0;
    let b = enc_val(d);
    let t = b.take(k);
    let l = (enc_fields(fs).len() + 5) as u32;
    if k >= 4 {
        assert(t.subrange(0, 4) =~= le32(l));
        lemma_read32(t, 0, l);
    }
}

} // verus!
