//! Materializing a stored value and deciding whether its buffer is released.
use vstd::prelude::*;
use crate::value::{Bson, Val};
use crate::wire::{DecodeError, decode_spec};
use crate::decode::{decode, view_decoded};

verus! {

/// A stored value as the host hands it over, once its fetch or decompression
/// step has run where the value needed one.
pub enum Stored {
    /// No value is present.
    Null,
    /// The bytes lie inline in host memory, and the host keeps them.
    Inline(Vec<u8>),
    /// The host fetched or decompressed the value into a buffer allocated for this read.
    Fetched(Vec<u8>),
    /// The host could not fetch or decompress the value.
    FetchFailed,
}

#[derive(Debug, Clone, Copy, PartialEq, Eq, Structural)]
pub enum MaterializeError {
    FetchFailed,
}

#[derive(Debug, Clone, Copy, PartialEq, Eq, Structural)]
pub enum ReadError {
    Decode(DecodeError),
    Materialize(MaterializeError),
}

/// A contiguous buffer, and whether it was allocated for this read.
///
/// Consuming it through `decode` is the one way to learn what it holds, and
/// that call reports whether the buffer must now be released.
pub struct Materialized {
    pub bytes: Vec<u8>,
    pub was_fresh: bool,
}

/// What decoding a materialized buffer gave, and whether the buffer is to be
/// released now that decoding is over.
pub struct DecodeOutcome {
    pub result: Result<Bson, DecodeError>,
    pub release: bool,
}

/// What a read of a stored value gave: the document, the absent marker
/// (`Ok(None)`), or an error; and whether the caller must release the buffer.
pub struct ReadOutcome {
    pub value: Result<Option<Bson>, ReadError>,
    pub release: bool,
}

/// Turns a stored value into a contiguous buffer; `None` stands for a null value.
pub fn materialize(s: Stored) -> (r: Result<Option<Materialized>, MaterializeError>)
    ensures
        match s {
            Stored::Null => r == Ok::<Option<Materialized>, MaterializeError>(None),
            Stored::Inline(b) => r is Ok && r->Ok_0 is Some && r->Ok_0->Some_0.bytes@ == b@ && !r->Ok_0->Some_0.was_fresh,
            Stored::Fetched(b) => r is Ok && r->Ok_0 is Some && r->Ok_0->Some_0.bytes@ == b@ && r->Ok_0->Some_0.was_fresh,
            Stored::FetchFailed => r == Err::<Option<Materialized>, MaterializeError>(MaterializeError::FetchFailed),
        },
{
    match s {
        Stored::Null => Ok(None),
        Stored::Inline(b) => Ok(Some(Materialized { bytes: b, was_fresh: false })),
        Stored::Fetched(b) => Ok(Some(Materialized { bytes: b, was_fresh: true })),
        Stored::FetchFailed => Err(MaterializeError::FetchFailed),
    }
}

impl Materialized {
    /// Decodes the buffer; it is to be released exactly when it was freshly
    /// allocated, whether decoding succeeded or failed.
    pub fn decode(self) -> (r: DecodeOutcome)
        ensures
            view_decoded(r.result) == decode_spec(self.bytes@),
            r.release == self.was_fresh,
    {
        let result = decode(&self.bytes);
        DecodeOutcome { result, release: self.was_fresh }
    }
}

/// What reading a stored value gives, over the model.
pub open spec fn read_spec(s: Stored) -> Result<Option<Val>, ReadError> {
    match s {
        Stored::Null => Ok(None),
        Stored::Inline(b) => match decode_spec(b@) {
            Ok(d) => Ok(Some(d)),
            Err(e) => Err(ReadError::Decode(e)),
        },
        Stored::Fetched(b) => match decode_spec(b@) {
            Ok(d) => Ok(Some(d)),
            Err(e) => Err(ReadError::Decode(e)),
        },
        Stored::FetchFailed => Err(ReadError::Materialize(MaterializeError::FetchFailed)),
    }
}

pub open spec fn view_read(r: Result<Option<Bson>, ReadError>) -> Result<Option<Val>, ReadError> {
    match r {
        Ok(Some(d)) => Ok(Some(d@)),
        Ok(None) => Ok(None),
        Err(e) => Err(e),
    }
}

/// Reads a stored value: materializes it, decodes it, and says whether the
/// buffer must be released, which holds exactly for a freshly fetched buffer,
/// on the success path and on the decode-error path alike. A null value reads
/// as absent without any bytes being parsed.
pub fn read_stored(s: Stored) -> (r: ReadOutcome)
    ensures
        view_read(r.value) == read_spec(s),
        r.release == (s is Fetched),
        s is Null ==> r.value is Ok && r.value->Ok_0 is None && !r.release,
{
    match materialize(s) {
        Err(e) => ReadOutcome { value: Err(ReadError::Materialize(e)), release: false },
        Ok(None) => ReadOutcome { value: Ok(None), release: false },
        Ok(Some(m)) => {
            let out = m.decode();
            let value = match out.result {
                Ok(d) => Ok(Some(d)),
                Err(e) => Err(ReadError::Decode(e)),
            };
            ReadOutcome { value, release: out.release }
        },
    }
}

} // verus!
