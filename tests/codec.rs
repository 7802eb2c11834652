use pgbson::decode::decode;
use pgbson::encode::{encode, try_encode};
use pgbson::value::{bson_document, Bson};
use pgbson::wire::DecodeError;

fn declared_len(b: &[u8]) -> usize {
    u32::from_le_bytes([b[0], b[1], b[2], b[3]]) as usize
}

fn as_str(b: Option<&Bson>) -> Vec<u8> {
    match b {
        Some(Bson::Str(s)) => s.clone(),
        other => panic!("expected a string, got {:?}", other),
    }
}

fn all_kinds() -> Bson {
    Bson::Document(vec![
        (b"d".to_vec(), Bson::Double(1.5f64.to_bits())),
        (b"s".to_vec(), Bson::Str(b"hi\0there".to_vec())),
        (b"sub".to_vec(), Bson::Document(vec![(b"x".to_vec(), Bson::Null)])),
        (b"arr".to_vec(), Bson::Array(vec![Bson::Boolean(true), Bson::Boolean(false), Bson::Int64(-7)])),
        (b"n".to_vec(), Bson::Null),
        (b"i".to_vec(), Bson::Int32(-43)),
        (b"l".to_vec(), Bson::Int64(i64::MAX)),
        (b"empty".to_vec(), Bson::Array(vec![])),
    ])
}

#[test]
fn test_bson_document() {
    let doc = bson_document();
    assert_eq!(b"abc".to_vec(), as_str(doc.get(b"name")));
}

#[test]
fn sample_document_scenario() {
    let bytes = encode(&bson_document());
    assert_eq!(declared_len(&bytes), bytes.len());
    assert_eq!(bytes.len(), 65);
    let doc = decode(&bytes).unwrap();
    assert_eq!(as_str(doc.get(b"name")), b"abc".to_vec());
    assert!(matches!(doc.get(b"age"), Some(Bson::Int32(43))));
    match doc.get(b"phones") {
        Some(Bson::Array(xs)) => {
            assert_eq!(xs.len(), 2);
            assert_eq!(as_str(Some(&xs[0])), b"0001".to_vec());
            assert_eq!(as_str(Some(&xs[1])), b"0002".to_vec());
        }
        other => panic!("expected an array, got {:?}", other),
    }
    assert!(doc.get(b"missing").is_none());
}

#[test]
fn round_trip_keeps_every_kind_and_order() {
    let d = all_kinds();
    let bytes = encode(&d);
    let back = decode(&bytes).unwrap();
    assert_eq!(encode(&back), bytes);
    match back {
        Bson::Document(fs) => {
            let keys: Vec<Vec<u8>> = fs.iter().map(|f| f.0.clone()).collect();
            assert_eq!(keys, vec![b"d".to_vec(), b"s".to_vec(), b"sub".to_vec(), b"arr".to_vec(), b"n".to_vec(), b"i".to_vec(), b"l".to_vec(), b"empty".to_vec()]);
            assert!(matches!(fs[0].1, Bson::Double(x) if f64::from_bits(x) == 1.5));
            assert_eq!(as_str(Some(&fs[1].1)), b"hi\0there".to_vec());
            assert!(matches!(fs[5].1, Bson::Int32(-43)));
            assert!(matches!(fs[6].1, Bson::Int64(i64::MAX)));
            match &fs[3].1 {
                Bson::Array(xs) => {
                    assert!(matches!(xs[0], Bson::Boolean(true)));
                    assert!(matches!(xs[1], Bson::Boolean(false)));
                    assert!(matches!(xs[2], Bson::Int64(-7)));
                }
                other => panic!("expected an array, got {:?}", other),
            }
        }
        other => panic!("expected a document, got {:?}", other),
    }
}

#[test]
fn exact_bytes_of_small_document() {
    let d = Bson::Document(vec![(b"a".to_vec(), Bson::Int32(1))]);
    assert_eq!(encode(&d), vec![12u8, 0, 0, 0, 0x10, b'a', 0, 1, 0, 0, 0, 0]);
    let e = Bson::Document(vec![]);
    assert_eq!(encode(&e), vec![5u8, 0, 0, 0, 0]);
    let arr = Bson::Document(vec![(b"x".to_vec(), Bson::Array(vec![Bson::Null, Bson::Boolean(true)]))]);
    assert_eq!(
        encode(&arr),
        vec![20u8, 0, 0, 0, 0x04, b'x', 0, 12, 0, 0, 0, 0x0A, b'0', 0, 0x08, b'1', 0, 1, 0, 0]
    );
}

#[test]
fn declared_length_shorter_or_longer_is_mismatch() {
    let mut bytes = encode(&bson_document());
    bytes[0] = 64;
    assert_eq!(decode(&bytes).unwrap_err(), DecodeError::LengthMismatch);
    bytes[0] = 66;
    assert_eq!(decode(&bytes).unwrap_err(), DecodeError::LengthMismatch);
    bytes[0] = 65;
    bytes[3] = 1;
    assert_eq!(decode(&bytes).unwrap_err(), DecodeError::LengthMismatch);
}

#[test]
fn every_truncation_is_rejected() {
    for d in [bson_document(), all_kinds()] {
        let bytes = encode(&d);
        for k in 0..bytes.len() {
            let e = decode(&bytes[..k].to_vec()).unwrap_err();
            assert!(e == DecodeError::Truncated || e == DecodeError::LengthMismatch, "prefix {} gave {:?}", k, e);
        }
    }
}

#[test]
fn short_buffers_are_truncated() {
    assert_eq!(decode(&vec![]).unwrap_err(), DecodeError::Truncated);
    assert_eq!(decode(&vec![5, 0, 0]).unwrap_err(), DecodeError::Truncated);
}

#[test]
fn tag_outside_the_format_is_invalid() {
    let bytes = vec![8u8, 0, 0, 0, 0x20, b'a', 0, 0];
    assert_eq!(decode(&bytes).unwrap_err(), DecodeError::InvalidTag);
}

#[test]
fn max_key_and_min_key_decode() {
    let bytes = vec![11u8, 0, 0, 0, 0x7F, b'a', 0, 0xFF, b'b', 0, 0];
    let d = decode(&bytes).unwrap();
    assert!(matches!(d.get(b"a"), Some(Bson::MaxKey)));
    assert!(matches!(d.get(b"b"), Some(Bson::MinKey)));
    assert_eq!(encode(&d), bytes);
}

fn every_other_kind() -> Bson {
    Bson::Document(vec![
        (b"bin".to_vec(), Bson::Binary(0x80, vec![1, 2, 3])),
        (b"undef".to_vec(), Bson::Undefined),
        (b"oid".to_vec(), Bson::ObjectId((1u8..=12).collect())),
        (b"date".to_vec(), Bson::DateTime(-1_000)),
        (b"re".to_vec(), Bson::Regex(b"^a.*".to_vec(), b"i".to_vec())),
        (b"ptr".to_vec(), Bson::DbPointer(b"db.coll".to_vec(), vec![7u8; 12])),
        (b"js".to_vec(), Bson::JsCode(b"f()".to_vec())),
        (b"sym".to_vec(), Bson::Symbol(b"s".to_vec())),
        (b"cws".to_vec(), Bson::CodeWithScope(b"x+1".to_vec(), vec![(b"x".to_vec(), Bson::Int32(1))])),
        (b"ts".to_vec(), Bson::Timestamp(100, 7)),
        (b"dec".to_vec(), Bson::Decimal128(vec![9u8; 16])),
        (b"min".to_vec(), Bson::MinKey),
        (b"max".to_vec(), Bson::MaxKey),
        ("\u{e9}t\u{e9}".as_bytes().to_vec(), Bson::Str("\u{1F600}".as_bytes().to_vec())),
    ])
}

#[test]
fn round_trip_of_every_other_kind() {
    let d = every_other_kind();
    let bytes = encode(&d);
    assert_eq!(declared_len(&bytes), bytes.len());
    let back = decode(&bytes).unwrap();
    assert_eq!(encode(&back), bytes);
    assert!(matches!(back.get(b"bin"), Some(Bson::Binary(0x80, x)) if x == &vec![1u8, 2, 3]));
    assert!(matches!(back.get(b"undef"), Some(Bson::Undefined)));
    assert!(matches!(back.get(b"date"), Some(Bson::DateTime(-1_000))));
    assert!(matches!(back.get(b"ts"), Some(Bson::Timestamp(100, 7))));
    assert!(matches!(back.get(b"re"), Some(Bson::Regex(p, o)) if p == b"^a.*" && o == b"i"));
    match back.get(b"cws") {
        Some(Bson::CodeWithScope(c, fs)) => {
            assert_eq!(c, b"x+1");
            assert!(matches!(fs[0].1, Bson::Int32(1)));
        }
        other => panic!("expected code with scope, got {:?}", other),
    }
    for k in 0..bytes.len() {
        let e = decode(&bytes[..k].to_vec()).unwrap_err();
        assert!(e == DecodeError::Truncated || e == DecodeError::LengthMismatch);
    }
}

#[test]
fn timestamp_bytes_put_increment_first() {
    let d = Bson::Document(vec![(b"t".to_vec(), Bson::Timestamp(2, 1))]);
    assert_eq!(encode(&d), vec![16u8, 0, 0, 0, 0x11, b't', 0, 1, 0, 0, 0, 2, 0, 0, 0, 0]);
}

#[test]
fn invalid_utf8_is_rejected() {
    let bad_str = vec![14u8, 0, 0, 0, 0x02, b's', 0, 2, 0, 0, 0, 0xFF, 0, 0];
    assert_eq!(decode(&bad_str).unwrap_err(), DecodeError::InvalidUtf8);
    let bad_key = vec![8u8, 0, 0, 0, 0x0A, 0xC0, 0, 0];
    assert_eq!(decode(&bad_key).unwrap_err(), DecodeError::InvalidUtf8);
    let surrogate = vec![10u8, 0, 0, 0, 0x0A, 0xED, 0xA0, 0x80, 0, 0];
    assert_eq!(decode(&surrogate).unwrap_err(), DecodeError::InvalidUtf8);
}

#[test]
fn try_encode_refuses_what_cannot_be_written() {
    assert!(try_encode(&Bson::Int32(1)).is_none());
    assert!(try_encode(&Bson::Document(vec![(b"a\0b".to_vec(), Bson::Null)])).is_none());
    assert!(try_encode(&Bson::Document(vec![(vec![0xFF], Bson::Null)])).is_none());
    assert!(try_encode(&Bson::Document(vec![(b"s".to_vec(), Bson::Str(vec![0xC3]))])).is_none());
    assert!(try_encode(&Bson::Document(vec![(b"o".to_vec(), Bson::ObjectId(vec![1, 2]))])).is_none());
    assert!(try_encode(&Bson::Document(vec![(b"r".to_vec(), Bson::Regex(b"a\0".to_vec(), vec![]))])).is_none());
    let d = every_other_kind();
    assert_eq!(try_encode(&d), Some(encode(&d)));
}

#[test]
fn other_kinds_interoperate_with_the_bson_crate() {
    let bytes = encode(&every_other_kind());
    let doc = bson::Document::from_reader(&bytes[..]).unwrap();
    assert_eq!(doc.get_object_id("oid").unwrap().bytes().to_vec(), (1u8..=12).collect::<Vec<u8>>());
    assert_eq!(doc.get_datetime("date").unwrap().timestamp_millis(), -1_000);
    assert_eq!(doc.get_timestamp("ts").unwrap(), bson::Timestamp { time: 100, increment: 7 });
    assert_eq!(doc.get_str("\u{e9}t\u{e9}").unwrap(), "\u{1F600}");
    assert!(matches!(doc.get("max"), Some(bson::Bson::MaxKey)));
    assert!(matches!(doc.get("undef"), Some(bson::Bson::Undefined)));
    let mut back: Vec<u8> = Vec::new();
    doc.to_writer(&mut back).unwrap();
    assert_eq!(back, bytes);
}

#[test]
fn boolean_byte_other_than_zero_or_one_is_invalid() {
    let bytes = vec![9u8, 0, 0, 0, 0x08, b'b', 0, 2, 0];
    assert_eq!(decode(&bytes).unwrap_err(), DecodeError::InvalidTag);
}

#[test]
fn string_running_past_its_frame_is_truncated() {
    let bytes = vec![14u8, 0, 0, 0, 0x02, b's', 0, 9, 0, 0, 0, b'x', 0, 0];
    assert_eq!(decode(&bytes).unwrap_err(), DecodeError::Truncated);
}

#[test]
fn nested_length_disagreeing_with_body_is_mismatch() {
    // The terminator of the inner document comes one byte before its declared end.
    let bytes = vec![14u8, 0, 0, 0, 0x03, b'o', 0, 6, 0, 0, 0, 0, 0, 0];
    assert_eq!(decode(&bytes).unwrap_err(), DecodeError::LengthMismatch);
}

#[test]
fn key_without_terminator_is_truncated() {
    let bytes = vec![8u8, 0, 0, 0, 0x0A, b'a', b'b', b'c'];
    assert_eq!(decode(&bytes).unwrap_err(), DecodeError::Truncated);
}

#[test]
fn encoding_is_read_by_the_bson_crate() {
    let bytes = encode(&bson_document());
    let doc = bson::Document::from_reader(&bytes[..]).unwrap();
    assert_eq!(doc.get_str("name").unwrap(), "abc");
    assert_eq!(doc.get_i32("age").unwrap(), 43);
    let phones = doc.get_array("phones").unwrap();
    assert_eq!(phones.len(), 2);
    assert_eq!(phones[0].as_str().unwrap(), "0001");
    assert_eq!(phones[1].as_str().unwrap(), "0002");
}

#[test]
fn bson_crate_output_is_decoded() {
    let mut doc = bson::Document::new();
    doc.insert("name", "abc");
    doc.insert("age", 43i32);
    doc.insert("big", 5_000_000_000i64);
    doc.insert("ok", true);
    doc.insert("tags", vec![bson::Bson::String("x".to_string()), bson::Bson::Null]);
    let mut bytes: Vec<u8> = Vec::new();
    doc.to_writer(&mut bytes).unwrap();
    let d = decode(&bytes).unwrap();
    assert_eq!(as_str(d.get(b"name")), b"abc".to_vec());
    assert!(matches!(d.get(b"age"), Some(Bson::Int32(43))));
    assert!(matches!(d.get(b"big"), Some(Bson::Int64(5_000_000_000))));
    assert!(matches!(d.get(b"ok"), Some(Bson::Boolean(true))));
    match d.get(b"tags") {
        Some(Bson::Array(xs)) => {
            assert_eq!(as_str(Some(&xs[0])), b"x".to_vec());
            assert!(matches!(xs[1], Bson::Null));
        }
        other => panic!("expected an array, got {:?}", other),
    }
    assert_eq!(encode(&d), bytes);
}

#[test]
fn lookup_finds_first_field_with_name() {
    let d = Bson::Document(vec![(b"k".to_vec(), Bson::Int32(1)), (b"k".to_vec(), Bson::Int32(2))]);
    assert!(matches!(d.get(b"k"), Some(Bson::Int32(1))));
    assert!(Bson::Int32(3).get(b"k").is_none());
}
