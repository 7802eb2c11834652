use vstd::prelude::*;
use crate::laws::lemma_ascii_utf8;
use crate::wire::{name_ok, wf_val, wf_fields, wf_items, decimal, enc_val, enc_fields, enc_items, MAX_LEN};

verus! {

/// A node of a document tree.
///
/// Strings and field names are held as their UTF-8 bytes; a double is held as
/// the bit pattern of its IEEE-754 representation.
#[derive(Debug)]
pub enum Bson {
    Double(u64),
    Str(Vec<u8>),
    Document(Vec<(Vec<u8>, Bson)>),
    Array(Vec<Bson>),
    Boolean(bool),
    Null,
    Int32(i32),
    Int64(i64),
    /// A binary subtype and the bytes.
    Binary(u8, Vec<u8>),
    Undefined,
    /// Twelve bytes.
    ObjectId(Vec<u8>),
    /// Milliseconds since the Unix epoch.
    DateTime(i64),
    /// A pattern and its options.
    Regex(Vec<u8>, Vec<u8>),
    /// A namespace and a twelve-byte id.
    DbPointer(Vec<u8>, Vec<u8>),
    JsCode(Vec<u8>),
    Symbol(Vec<u8>),
    /// Code and the document that scopes it.
    CodeWithScope(Vec<u8>, Vec<(Vec<u8>, Bson)>),
    /// Seconds and an increment.
    Timestamp(u32, u32),
    /// The sixteen bytes of an IEEE-754 decimal128.
    Decimal128(Vec<u8>),
    MinKey,
    MaxKey,
}

/// The mathematical model of a document tree node.
pub enum Val {
    Double(u64),
    Str(Seq<u8>),
    Doc(Seq<(Seq<u8>, Val)>),
    Arr(Seq<Val>),
    Bool(bool),
    Null,
    I32(i32),
    I64(i64),
    Binary(u8, Seq<u8>),
    Undefined,
    ObjectId(Seq<u8>),
    DateTime(i64),
    Regex(Seq<u8>, Seq<u8>),
    DbPointer(Seq<u8>, Seq<u8>),
    JsCode(Seq<u8>),
    Symbol(Seq<u8>),
    CodeWithScope(Seq<u8>, Seq<(Seq<u8>, Val)>),
    Timestamp(u32, u32),
    Decimal128(Seq<u8>),
    MinKey,
    MaxKey,
}

pub open spec fn view_node(b: Bson) -> Val
    decreases b,
{
    match b {
        Bson::Double(x) => Val::Double(x),
        Bson::Str(s) => Val::Str(s@),
        Bson::Document(fs) => Val::Doc(view_fields(fs@)),
        Bson::Array(xs) => Val::Arr(view_items(xs@)),
        Bson::Boolean(x) => Val::Bool(x),
        Bson::Null => Val::Null,
        Bson::Int32(x) => Val::I32(x),
        Bson::Int64(x) => Val::I64(x),
        Bson::Binary(t, d) => Val::Binary(t, d@),
        Bson::Undefined => Val::Undefined,
        Bson::ObjectId(x) => Val::ObjectId(x@),
        Bson::DateTime(x) => Val::DateTime(x),
        Bson::Regex(p, o) => Val::Regex(p@, o@),
        Bson::DbPointer(n, x) => Val::DbPointer(n@, x@),
        Bson::JsCode(c) => Val::JsCode(c@),
        Bson::Symbol(c) => Val::Symbol(c@),
        Bson::CodeWithScope(c, fs) => Val::CodeWithScope(c@, view_fields(fs@)),
        Bson::Timestamp(t, i) => Val::Timestamp(t, i),
        Bson::Decimal128(x) => Val::Decimal128(x@),
        Bson::MinKey => Val::MinKey,
        Bson::MaxKey => Val::MaxKey,
    }
}

pub open spec fn view_fields(fs: Seq<(Vec<u8>, Bson)>) -> Seq<(Seq<u8>, Val)>
    decreases fs,
{
    if fs.len() == 0 {
        Seq::empty()
    } else {
        view_fields(fs.drop_last()).push((fs.last().0@, view_node(fs.last().1)))
    }
}

pub open spec fn view_items(xs: Seq<Bson>) -> Seq<Val>
    decreases xs,
{
    if xs.len() == 0 {
        Seq::empty()
    } else {
        view_items(xs.drop_last()).push(view_node(xs.last()))
    }
}

impl View for Bson {
    type V = Val;

    open spec fn view(&self) -> Val {
        view_node(*self)
    }
}

pub proof fn lemma_view_fields(fs: Seq<(Vec<u8>, Bson)>)
    ensures
        view_fields(fs).len() == fs.len(),
        forall|i: int|
            0 <= i < fs.len() ==> #[trigger] view_fields(fs)[i] == (fs[i].0@, view_node(fs[i].1)),
    decreases fs.len(),
{
    if fs.len() > 0 {
        lemma_view_fields(fs.drop_last());
    }
}

pub proof fn lemma_view_items(xs: Seq<Bson>)
    ensures
        view_items(xs).len() == xs.len(),
        forall|i: int| 0 <= i < xs.len() ==> #[trigger] view_items(xs)[i] == view_node(xs[i]),
    decreases xs.len(),
{
    if xs.len() > 0 {
        lemma_view_items(xs.drop_last());
    }
}

/// The index of the first field of `fs` named `k`, if any.
pub open spec fn first_field(fs: Seq<(Seq<u8>, Val)>, k: Seq<u8>) -> Option<int> {
    if exists|i: int| 0 <= i < fs.len() && fs[i].0 == k {
        Some(choose|i: int| 0 <= i < fs.len() && fs[i].0 == k && forall|j: int| 0 <= j < i ==> fs[j].0 != k)
    } else {
        None
    }
}

fn bytes_eq(a: &Vec<u8>, b: &[u8]) -> (r: bool)
    ensures
        r == (a@ == b@),
{
    if a.len() != b.len() {
        return false;
    }
    let mut i: usize = 0;
    while i < a.len()
        invariant
            a@.len() == b@.len(),
            i <= a@.len(),
            forall|j: int| 0 <= j < i ==> a@[j] == b@[j],
        decreases a@.len() - i,
    {
        if a[i] != b[i] {
            return false;
        }
        i = i + 1;
    }
    assert(a@ =~= b@);
    true
}

impl Bson {
    /// The value of the first field named `key`, when this node is a document
    /// that has such a field.
    pub fn get(&self, key: &[u8]) -> (r: Option<&Bson>)
        ensures
            match self@ {
                Val::Doc(fs) => match first_field(fs, key@) {
                    Some(i) => r is Some && r->Some_0@ == fs[i].1,
                    None => r is None,
                },
                _ => r is None,
            },
    {
        match self {
            Bson::Document(fs) => {
                proof {
                    lemma_view_fields(fs@);
                }
                let ghost sv = view_fields(fs@);
                let mut i: usize = 0;
                while i < fs.len()
                    invariant
                        i <= fs@.len(),
                        self@ == Val::Doc(sv),
                        sv.len() == fs@.len(),
                        forall|j: int| 0 <= j < fs@.len() ==> #[trigger] sv[j] == (fs@[j].0@, view_node(fs@[j].1)),
                        forall|j: int| 0 <= j < i ==> sv[j].0 != key@,
                    decreases fs@.len() - i,
                {
                    if bytes_eq(&fs[i].0, key) {
                        proof {
                            let c = choose|c: int| 0 <= c < sv.len() && sv[c].0 == key@ && forall|j: int| 0 <= j < c ==> sv[j].0 != key@;
                            assert(sv[i as int].0 == key@);
                            if c < i {
                            } else if c > i {
                            }
                            assert(c == i);
                        }
                        return Some(&fs[i].1);
                    }
                    i = i + 1;
                }
                None
            },
            _ => None,
        }
    }
}

/// A small sample document: a name, an age, and a list of phone numbers.
pub open spec fn sample_document() -> Val {
    Val::Doc(seq![
        (seq![110u8, 97, 109, 101], Val::Str(seq![97u8, 98, 99])),
        (seq![97u8, 103, 101], Val::I32(43)),
        (seq![112u8, 104, 111, 110, 101, 115], Val::Arr(seq![
            Val::Str(seq![48u8, 48, 48, 49]),
            Val::Str(seq![48u8, 48, 48, 50]),
        ])),
    ])
}

proof fn lemma_sample_document()
    ensures
        wf_val(sample_document()),
        enc_val(sample_document()).len() == 65,
{
    let fs = sample_document()->Doc_0;
    let xs = fs[2].1->Arr_0;
    assert(xs.drop_last() =~= seq![xs[0]]);
    assert(xs.drop_last().drop_last() =~= Seq::<Val>::empty());
    assert(fs.drop_last() =~= seq![fs[0], fs[1]]);
    assert(fs.drop_last().drop_last() =~= seq![fs[0]]);
    assert(fs.drop_last().drop_last().drop_last() =~= Seq::<(Seq<u8>, Val)>::empty());
    lemma_ascii_utf8(fs[0].0);
    lemma_ascii_utf8(fs[1].0);
    lemma_ascii_utf8(fs[2].0);
    lemma_ascii_utf8(fs[0].1->Str_0);
    lemma_ascii_utf8(xs[0]->Str_0);
    lemma_ascii_utf8(xs[1]->Str_0);
    assert(name_ok(fs[0].0));
    assert(name_ok(fs[1].0));
    assert(name_ok(fs[2].0));
    assert(wf_items(xs.drop_last().drop_last()));
    assert(wf_val(xs[0]));
    assert(wf_val(xs[1]));
    assert(xs.drop_last().last() == xs[0]);
    assert(wf_val(fs[0].1));
    assert(wf_val(fs[1].1));
    assert(wf_items(xs.drop_last()));
    assert(wf_items(xs));
    assert(wf_val(fs[2].1));
    assert(wf_fields(fs.drop_last().drop_last().drop_last()));
    assert(wf_fields(fs.drop_last().drop_last()));
    assert(wf_fields(fs.drop_last()));
    assert(wf_fields(fs));
    assert(enc_val(xs[0]).len() == 9);
    assert(enc_val(xs[1]).len() == 9);
    assert(decimal(0).len() == 1);
    assert(decimal(1).len() == 1);
    assert(enc_items(xs.drop_last().drop_last()).len() == 0);
    assert(enc_items(xs.drop_last()).len() == 12);
    assert(enc_items(xs).len() == 24);
    assert(enc_val(fs[0].1).len() == 8);
    assert(enc_val(fs[1].1).len() == 4);
    assert(enc_val(fs[2].1).len() == 29);
    assert(enc_fields(fs.drop_last().drop_last().drop_last()).len() == 0);
    assert(fs.drop_last().drop_last().last() == fs[0]);
    assert(fs.drop_last().last() == fs[1]);
    assert(enc_fields(fs.drop_last().drop_last()).len() == 14);
    assert(enc_fields(fs.drop_last()).len() == 23);
    assert(enc_fields(fs).len() == 60);
}

/// Builds the sample document `{"name": "abc", "age": 43, "phones": ["0001", "0002"]}`.
pub fn bson_document() -> (r: Bson)
    ensures
        r@ == sample_document(),
        wf_val(r@),
        enc_val(r@).len() <= MAX_LEN,
{
    // Names and strings as their ASCII bytes.
    let phones = vec![Bson::Str(vec![48u8, 48, 48, 49]), Bson::Str(vec![48u8, 48, 48, 50])];
    let fields = vec![
        (vec![110u8, 97, 109, 101], Bson::Str(vec![97u8, 98, 99])),
        (vec![97u8, 103, 101], Bson::Int32(43)),
        (vec![112u8, 104, 111, 110, 101, 115], Bson::Array(phones)),
    ];
    let r = Bson::Document(fields);
    proof {
        let fs = r->Document_0@;
        let xs = fs[2].1->Array_0@;
        lemma_view_items(xs);
        lemma_view_fields(fs);
        assert(view_items(xs) =~= seq![Val::Str(seq![48u8, 48, 48, 49]), Val::Str(seq![48u8, 48, 48, 50])]);
        assert(r@ == sample_document()) by {
            assert(view_fields(fs) =~= sample_document()->Doc_0);
        }
        lemma_sample_document();
    }
    r
}

} // verus!
