//! Records: data that is either raw bytes with a format hint or a parsed
//! value, and the codecs that convert between the two.

use vstd::prelude::*;

use bytes::Bytes;

use crate::error::Error;
use crate::format::Format;
use crate::value::Value;

verus! {

/// Immutable shared bytes, carried through records unopened.
#[verifier::external_type_specification]
#[verifier::external_body]
pub struct ExBytes(bytes::Bytes);

/// The bytes that a `Bytes` handle holds.
pub uninterp spec fn bytes_content(b: bytes::Bytes) -> Seq<u8>;

/// `<Bytes as Clone>::clone` (bytes crate): another handle to the same
/// buffer, so the clone holds the same bytes.
#[verifier::external_body]
pub(crate) fn bytes_clone(b: &Bytes) -> (r: Bytes)
    ensures
        bytes_content(r) == bytes_content(*b),
{
    b.clone()
}

/// Wraps a byte vector: `Bytes::from` (bytes crate, `From<Vec<u8>>`) takes
/// over the vector's buffer, so the handle holds the vector's bytes.
#[verifier::external_body]
pub(crate) fn bytes_from_vec(v: Vec<u8>) -> (r: Bytes)
    ensures
        bytes_content(r) == v@,
{
    Bytes::from(v)
}

/// The bytes of a handle as a slice: `<Bytes as AsRef<[u8]>>::as_ref`
/// (bytes crate) views the handle's buffer.
#[verifier::external_body]
pub(crate) fn bytes_as_slice(b: &Bytes) -> (r: &[u8])
    ensures
        r@ == bytes_content(*b),
{
    b.as_ref()
}

/// Converts between values and bytes.
///
/// Codecs parse (decode) raw bytes into values and serialize (encode)
/// values into bytes for the formats they support.
pub trait Codec {
    /// Decode raw bytes into a value.
    fn decode(&self, bytes: &Bytes, format: &Format) -> Result<Value, Error>;

    /// Encode a value into raw bytes.
    fn encode(&self, value: &Value, format: &Format) -> Result<Bytes, Error>;

    /// Whether this codec supports a format.
    fn supports(&self, format: &Format) -> bool;
}

/// A codec that supports no format: a placeholder for stores that only
/// deal in parsed values.
pub struct NoCodec;

impl Codec for NoCodec {
    fn decode(&self, bytes: &Bytes, format: &Format) -> (r: Result<Value, Error>)
        ensures
            r matches Err(Error::UnsupportedFormat(f)) && f@ == format@,
    {
        Err(Error::UnsupportedFormat(format.duplicate()))
    }

    fn encode(&self, value: &Value, format: &Format) -> (r: Result<Bytes, Error>)
        ensures
            r matches Err(Error::UnsupportedFormat(f)) && f@ == format@,
    {
        Err(Error::UnsupportedFormat(format.duplicate()))
    }

    fn supports(&self, format: &Format) -> (r: bool)
        ensures
            !r,
    {
        false
    }
}

/// Data that can be forwarded without parsing, or parsed for inspection.
#[derive(Debug)]
pub enum Record {
    /// Unparsed bytes with a hint about their format.
    Raw {
        /// The raw bytes.
        bytes: Bytes,
        /// The format hint.
        format: Format,
    },
    /// A parsed value tree.
    Parsed(Value),
}

impl Record {
    /// A record of raw bytes.
    pub fn raw(data: Bytes, format: Format) -> (r: Record)
        ensures
            r == (Record::Raw { bytes: data, format }),
    {
        Record::Raw { bytes: data, format }
    }

    /// A record of a parsed value.
    pub fn parsed(value: Value) -> (r: Record)
        ensures
            r == Record::Parsed(value),
    {
        Record::Parsed(value)
    }

    /// Whether this record is raw bytes.
    pub fn is_raw(&self) -> (r: bool)
        ensures
            r == (self is Raw),
    {
        match self {
            Record::Raw { .. } => true,
            Record::Parsed(_) => false,
        }
    }

    /// Whether this record is a parsed value.
    pub fn is_parsed(&self) -> (r: bool)
        ensures
            r == (self is Parsed),
    {
        match self {
            Record::Raw { .. } => false,
            Record::Parsed(_) => true,
        }
    }

    /// The format hint; a parsed record reports `Format::VALUE`.
    pub fn format(&self) -> (r: Format)
        ensures
            r@ == match self {
                Record::Raw { format, .. } => format@,
                Record::Parsed(_) => Format::VALUE@,
            },
    {
        match self {
            Record::Raw { format, .. } => format.duplicate(),
            Record::Parsed(_) => Format::VALUE,
        }
    }

    /// The raw bytes, when the record has them without serializing.
    pub fn as_bytes(&self) -> (r: Option<&Bytes>)
        ensures
            match self {
                Record::Raw { bytes: b, .. } => r == Some(b),
                Record::Parsed(_) => r is None,
            },
    {
        match self {
            Record::Raw { bytes, .. } => Some(bytes),
            Record::Parsed(_) => None,
        }
    }

    /// The parsed value, when the record has one without parsing.
    pub fn as_value(&self) -> (r: Option<&Value>)
        ensures
            match self {
                Record::Raw { .. } => r is None,
                Record::Parsed(v) => r == Some(v),
            },
    {
        match self {
            Record::Raw { .. } => None,
            Record::Parsed(v) => Some(v),
        }
    }

    /// Parse into a value: a parsed record gives its value, a raw one is
    /// decoded by `codec`.
    pub fn into_value<C: Codec>(self, codec: &C) -> (r: Result<Value, Error>)
        ensures
            self matches Record::Parsed(v) ==> r == Ok::<Value, Error>(v),
    {
        match self {
            Record::Parsed(v) => Ok(v),
            Record::Raw { bytes, format } => codec.decode(&bytes, &format),
        }
    }

    /// Serialize into bytes in `target`: raw bytes already in that format
    /// pass through, other raw bytes are decoded and re-encoded, a parsed
    /// value is encoded.
    pub fn into_bytes<C: Codec>(self, codec: &C, target: &Format) -> (r: Result<Bytes, Error>)
        ensures
            self matches Record::Raw { bytes: b, format: f } ==> (f@ == target@ ==> r == Ok::<Bytes, Error>(b)),
    {
        match self {
            Record::Raw { bytes, format } => {
                if format.same_as(target) {
                    Ok(bytes)
                } else {
                    match codec.decode(&bytes, &format) {
                        Ok(value) => codec.encode(&value, target),
                        Err(e) => Err(e),
                    }
                }
            },
            Record::Parsed(v) => codec.encode(&v, target),
        }
    }

    /// The bytes when they are already in `target`; otherwise the record
    /// back, unchanged.
    pub fn try_into_bytes(self, target: &Format) -> (r: Result<Bytes, Record>)
        ensures
            match self {
                Record::Raw { bytes: b, format: f } => if f@ == target@ {
                    r == Ok::<Bytes, Record>(b)
                } else {
                    r == Err::<Bytes, Record>(self)
                },
                Record::Parsed(_) => r == Err::<Bytes, Record>(self),
            },
    {
        match self {
            Record::Raw { bytes, format } => {
                if format.same_as(target) {
                    Ok(bytes)
                } else {
                    Err(Record::Raw { bytes, format })
                }
            },
            other => Err(other),
        }
    }
}

impl Clone for Record {
    fn clone(&self) -> (r: Record)
        ensures
            match *self {
                Record::Raw { bytes: b, format: f } => r matches Record::Raw { bytes: c, format: g } && bytes_content(c)
                    == bytes_content(b) && g@ == f@,
                Record::Parsed(v) => r matches Record::Parsed(w) && w.model() == v.model(),
            },
    {
        match self {
            Record::Raw { bytes, format } => Record::Raw { bytes: bytes_clone(bytes), format: format.duplicate() },
            Record::Parsed(v) => Record::Parsed(v.deep_clone()),
        }
    }
}

impl From<Value> for Record {
    fn from(v: Value) -> (r: Record)
        ensures
            r == Record::Parsed(v),
    {
        Record::Parsed(v)
    }
}

impl vstd::std_specs::convert::FromSpecImpl<Value> for Record {
    open spec fn obeys_from_spec() -> bool {
        true
    }

    open spec fn from_spec(v: Value) -> Record {
        Record::Parsed(v)
    }
}

impl From<Bytes> for Record {
    fn from(data: Bytes) -> (r: Record)
        ensures
            r == (Record::Raw { bytes: data, format: Format::OctetStream }),
    {
        Record::Raw { bytes: data, format: Format::OCTET_STREAM }
    }
}

impl vstd::std_specs::convert::FromSpecImpl<Bytes> for Record {
    open spec fn obeys_from_spec() -> bool {
        true
    }

    open spec fn from_spec(data: Bytes) -> Record {
        Record::Raw { bytes: data, format: Format::OctetStream }
    }
}

} // verus!
