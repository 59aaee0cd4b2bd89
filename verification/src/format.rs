//! Format hints for wire encoding.

use vstd::prelude::*;

use crate::text::to_owned_string;

verus! {

/// A hint about the wire format of raw bytes, as a MIME-like string.
///
/// Codecs use the hint when parsing raw records into values and when
/// serializing values back to bytes. The well-known formats have variants
/// of their own; any other string is `Named`. Two formats are equal when
/// their strings are.
#[derive(Clone, Debug, Hash)]
pub enum Format {
    /// `application/json`
    Json,
    /// `application/protobuf`
    Protobuf,
    /// `application/msgpack`
    Msgpack,
    /// `application/cbor`
    Cbor,
    /// `application/octet-stream`
    OctetStream,
    /// `application/x-structfs-value`
    ParsedValue,
    /// Any other format string.
    Named(String),
}

impl View for Format {
    type V = Seq<char>;

    open spec fn view(&self) -> Seq<char> {
        match self {
            Format::Json => "application/json"@,
            Format::Protobuf => "application/protobuf"@,
            Format::Msgpack => "application/msgpack"@,
            Format::Cbor => "application/cbor"@,
            Format::OctetStream => "application/octet-stream"@,
            Format::ParsedValue => "application/x-structfs-value"@,
            Format::Named(s) => s@,
        }
    }
}

/// Whether `s` is the string of one of the well-known formats.
pub open spec fn well_known(s: Seq<char>) -> bool {
    ||| s == "application/json"@
    ||| s == "application/protobuf"@
    ||| s == "application/msgpack"@
    ||| s == "application/cbor"@
    ||| s == "application/octet-stream"@
    ||| s == "application/x-structfs-value"@
}

/// Whether a format is in its one form: a well-known string has its own
/// variant, so that formats with the same string are the same value (and
/// hash alike).
pub open spec fn canonical(f: Format) -> bool {
    f matches Format::Named(s) ==> !well_known(s@)
}

/// The format named by `s`, in its one form.
pub open spec fn format_of(s: String) -> Format {
    if s@ == "application/json"@ {
        Format::Json
    } else if s@ == "application/protobuf"@ {
        Format::Protobuf
    } else if s@ == "application/msgpack"@ {
        Format::Msgpack
    } else if s@ == "application/cbor"@ {
        Format::Cbor
    } else if s@ == "application/octet-stream"@ {
        Format::OctetStream
    } else if s@ == "application/x-structfs-value"@ {
        Format::ParsedValue
    } else {
        Format::Named(s)
    }
}

/// The format named by `s`: the variant of a well-known string, or
/// `Named`.
fn format_from(s: String) -> (r: Format)
    ensures
        r == format_of(s),
        r@ == s@,
        canonical(r),
{
    proof {
        reveal_strlit("application/json");
        reveal_strlit("application/protobuf");
        reveal_strlit("application/msgpack");
        reveal_strlit("application/cbor");
        reveal_strlit("application/octet-stream");
        reveal_strlit("application/x-structfs-value");
    }
    let t = s.as_str();
    if crate::text::str_eq(t, "application/json") {
        Format::Json
    } else if crate::text::str_eq(t, "application/protobuf") {
        Format::Protobuf
    } else if crate::text::str_eq(t, "application/msgpack") {
        Format::Msgpack
    } else if crate::text::str_eq(t, "application/cbor") {
        Format::Cbor
    } else if crate::text::str_eq(t, "application/octet-stream") {
        Format::OctetStream
    } else if crate::text::str_eq(t, "application/x-structfs-value") {
        Format::ParsedValue
    } else {
        Format::Named(s)
    }
}

impl Format {
    /// JSON format (`application/json`)
    pub const JSON: Format = Format::Json;

    /// Protocol Buffers (`application/protobuf`)
    pub const PROTOBUF: Format = Format::Protobuf;

    /// MessagePack (`application/msgpack`)
    pub const MSGPACK: Format = Format::Msgpack;

    /// CBOR (`application/cbor`)
    pub const CBOR: Format = Format::Cbor;

    /// Opaque binary data (`application/octet-stream`)
    pub const OCTET_STREAM: Format = Format::OctetStream;

    /// A parsed value that was never serialized.
    pub const VALUE: Format = Format::ParsedValue;

    /// Create a format from a static string.
    pub fn from_static(s: &'static str) -> (r: Format)
        ensures
            r@ == s@,
            canonical(r),
    {
        format_from(to_owned_string(s))
    }

    /// Create a format from an owned string.
    pub fn new(s: String) -> (r: Format)
        ensures
            r == format_of(s),
            r@ == s@,
            canonical(r),
    {
        format_from(s)
    }

    /// The format string.
    pub fn as_str(&self) -> (r: &str)
        ensures
            r@ == self@,
    {
        match self {
            Format::Json => "application/json",
            Format::Protobuf => "application/protobuf",
            Format::Msgpack => "application/msgpack",
            Format::Cbor => "application/cbor",
            Format::OctetStream => "application/octet-stream",
            Format::ParsedValue => "application/x-structfs-value",
            Format::Named(s) => s.as_str(),
        }
    }

    /// An owned copy of the format string.
    pub fn to_string(&self) -> (r: String)
        ensures
            r@ == self@,
    {
        to_owned_string(self.as_str())
    }

    /// A copy of this format.
    pub fn duplicate(&self) -> (r: Format)
        ensures
            r@ == self@,
            canonical(r),
    {
        Format::new(self.to_string())
    }

    /// Whether two formats name the same format string.
    pub fn same_as(&self, other: &Format) -> (r: bool)
        ensures
            r == (self@ == other@),
    {
        let a = self.to_string();
        let b = other.to_string();
        a == b
    }

    /// Whether this is the JSON format.
    pub fn is_json(&self) -> (r: bool)
        ensures
            r == (self@ == "application/json"@),
    {
        let j = to_owned_string("application/json");
        self.to_string() == j
    }

    /// Whether this is the protobuf format.
    pub fn is_protobuf(&self) -> (r: bool)
        ensures
            r == (self@ == "application/protobuf"@),
    {
        let j = to_owned_string("application/protobuf");
        self.to_string() == j
    }

    /// Whether this is the VALUE format (parsed, never serialized).
    pub fn is_value(&self) -> (r: bool)
        ensures
            r == (self@ == "application/x-structfs-value"@),
    {
        let j = to_owned_string("application/x-structfs-value");
        self.to_string() == j
    }
}

impl PartialEq for Format {
    fn eq(&self, other: &Format) -> (r: bool) {
        self.same_as(other)
    }
}

impl Eq for Format {}

impl vstd::std_specs::cmp::PartialEqSpecImpl for Format {
    open spec fn obeys_eq_spec() -> bool {
        true
    }

    open spec fn eq_spec(&self, other: &Format) -> bool {
        self@ == other@
    }
}

impl From<&'static str> for Format {
    fn from(s: &'static str) -> (r: Format)
        ensures
            r@ == s@,
            canonical(r),
    {
        format_from(to_owned_string(s))
    }
}

impl vstd::std_specs::convert::FromSpecImpl<&'static str> for Format {
    open spec fn obeys_from_spec() -> bool {
        false
    }

    open spec fn from_spec(s: &'static str) -> Format {
        Format::Json
    }
}

impl From<String> for Format {
    fn from(s: String) -> (r: Format) {
        format_from(s)
    }
}

impl vstd::std_specs::convert::FromSpecImpl<String> for Format {
    open spec fn obeys_from_spec() -> bool {
        true
    }

    open spec fn from_spec(s: String) -> Format {
        format_of(s)
    }
}

} // verus!
