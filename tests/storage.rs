use pgbson::encode::encode;
use pgbson::storage::{materialize, read_stored, MaterializeError, ReadError, Stored};
use pgbson::value::{bson_document, Bson};
use pgbson::wire::DecodeError;

#[test]
fn null_reads_as_absent_without_release() {
    let out = read_stored(Stored::Null);
    assert!(matches!(out.value, Ok(None)));
    assert!(!out.release);
    assert!(matches!(materialize(Stored::Null), Ok(None)));
}

#[test]
fn inline_buffer_is_never_released() {
    let bytes = encode(&bson_document());
    let m = materialize(Stored::Inline(bytes.clone())).unwrap().unwrap();
    assert!(!m.was_fresh);
    assert_eq!(m.bytes, bytes);
    let out = read_stored(Stored::Inline(bytes));
    assert!(!out.release);
    assert!(matches!(out.value, Ok(Some(Bson::Document(_)))));
    let bad = read_stored(Stored::Inline(vec![1, 2, 3]));
    assert!(!bad.release);
    assert_eq!(bad.value.unwrap_err(), ReadError::Decode(DecodeError::Truncated));
}

#[test]
fn fetched_buffer_is_released_on_success_and_on_error() {
    let bytes = encode(&bson_document());
    let m = materialize(Stored::Fetched(bytes.clone())).unwrap().unwrap();
    assert!(m.was_fresh);
    let decoded = m.decode();
    assert!(decoded.release);
    assert!(decoded.result.is_ok());

    let out = read_stored(Stored::Fetched(bytes.clone()));
    assert!(out.release);
    match out.value {
        Ok(Some(d)) => assert!(matches!(d.get(b"age"), Some(Bson::Int32(43)))),
        other => panic!("expected a document, got {:?}", other.is_ok()),
    }

    let mut corrupt = bytes;
    corrupt[0] = 1;
    let out = read_stored(Stored::Fetched(corrupt));
    assert!(out.release);
    assert_eq!(out.value.unwrap_err(), ReadError::Decode(DecodeError::LengthMismatch));
}

#[test]
fn failed_fetch_is_an_error_without_release() {
    let out = read_stored(Stored::FetchFailed);
    assert!(!out.release);
    assert_eq!(out.value.unwrap_err(), ReadError::Materialize(MaterializeError::FetchFailed));
    assert_eq!(materialize(Stored::FetchFailed).err(), Some(MaterializeError::FetchFailed));
}
