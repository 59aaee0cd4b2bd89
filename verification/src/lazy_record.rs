//! Records that parse on first use and keep the parsed value, holding the
//! raw bytes and the value side by side.

use vstd::prelude::*;

use bytes::Bytes;

use crate::error::Error;
use crate::format::Format;
use crate::record::{bytes_clone, bytes_content, Codec, Record};
use crate::value::Value;

verus! {

/// A record with lazy parsing: the raw bytes (if it was made from bytes)
/// and the parsed value (once parsed, or if it was made from a value).
/// The first successful `value` call parses and caches; later calls give
/// the cached value.
pub struct LazyRecord {
    raw: Option<(Bytes, Format)>,
    parsed: Option<Value>,
}

impl LazyRecord {
    #[verifier::type_invariant]
    closed spec fn wf(self) -> bool {
        self.raw is Some || self.parsed is Some
    }

    /// The raw bytes and their format, where the record has them.
    pub closed spec fn raw_part(&self) -> Option<(Bytes, Format)> {
        self.raw
    }

    /// The parsed value, once there is one.
    pub closed spec fn parsed_part(&self) -> Option<Value> {
        self.parsed
    }

    /// A record of raw bytes, parsed on the first `value` call.
    pub fn from_raw(bytes: Bytes, format: Format) -> (r: LazyRecord)
        ensures
            r.raw_part() == Some((bytes, format)),
            r.parsed_part() is None,
    {
        LazyRecord { raw: Some((bytes, format)), parsed: None }
    }

    /// A record of a parsed value, without bytes.
    pub fn from_parsed(value: Value) -> (r: LazyRecord)
        ensures
            r.raw_part() is None,
            r.parsed_part() == Some(value),
    {
        LazyRecord { raw: None, parsed: Some(value) }
    }

    /// A record with both the bytes and their parsed value.
    pub fn from_both(bytes: Bytes, format: Format, value: Value) -> (r: LazyRecord)
        ensures
            r.raw_part() == Some((bytes, format)),
            r.parsed_part() == Some(value),
    {
        LazyRecord { raw: Some((bytes, format)), parsed: Some(value) }
    }

    /// The value, parsing the bytes with `codec` on the first call and
    /// caching it. A failed parse leaves the record as it was.
    pub fn value<C: Codec>(&mut self, codec: &C) -> (r: Result<&Value, Error>)
        ensures
            final(self).raw_part() == old(self).raw_part(),
            old(self).parsed_part() matches Some(v) ==> (r matches Ok(w) && *w == v && final(self).parsed_part()
                == old(self).parsed_part()),
            old(self).parsed_part() is None ==> match r {
                Ok(w) => final(self).parsed_part() == Some(*w),
                Err(_) => final(self).parsed_part() is None,
            },
    {
        proof {
            use_type_invariant(&*self);
        }
        if self.parsed.is_none() {
            let decoded = match &self.raw {
                Some((bytes, format)) => codec.decode(bytes, format),
                None => Err(Error::store("lazy_record", "value", "LazyRecord has no raw data to parse")),
            };
            match decoded {
                Ok(v) => {
                    self.parsed = Some(v);
                },
                Err(e) => {
                    return Err(e);
                },
            }
        }
        match &self.parsed {
            Some(v) => Ok(v),
            None => Err(Error::store("lazy_record", "value", "LazyRecord has no raw data to parse")),
        }
    }

    /// The value if already parsed; nothing is parsed.
    pub fn value_if_parsed(&self) -> (r: Option<&Value>)
        ensures
            match self.parsed_part() {
                Some(v) => r matches Some(w) && *w == v,
                None => r is None,
            },
    {
        match &self.parsed {
            Some(v) => Some(v),
            None => None,
        }
    }

    /// The raw bytes, where the record has them.
    pub fn bytes(&self) -> (r: Option<&Bytes>)
        ensures
            match self.raw_part() {
                Some((b, _)) => r matches Some(c) && *c == b,
                None => r is None,
            },
    {
        match &self.raw {
            Some((b, _)) => Some(b),
            None => None,
        }
    }

    /// The format of the raw bytes, where the record has them.
    pub fn format(&self) -> (r: Option<&Format>)
        ensures
            match self.raw_part() {
                Some((_, f)) => r matches Some(g) && *g == f,
                None => r is None,
            },
    {
        match &self.raw {
            Some((_, f)) => Some(f),
            None => None,
        }
    }

    /// Whether the value has been parsed.
    pub fn is_parsed(&self) -> (r: bool)
        ensures
            r == self.parsed_part() is Some,
    {
        self.parsed.is_some()
    }

    /// Whether raw bytes are available.
    pub fn has_bytes(&self) -> (r: bool)
        ensures
            r == self.raw_part() is Some,
    {
        self.raw.is_some()
    }

    /// The record: parsed once there is a value, raw otherwise.
    pub fn into_record(self) -> (r: Record)
        ensures
            match self.parsed_part() {
                Some(v) => r == Record::Parsed(v),
                None => self.raw_part() matches Some((b, f)) && r == (Record::Raw { bytes: b, format: f }),
            },
    {
        proof {
            use_type_invariant(&self);
        }
        let LazyRecord { raw, parsed } = self;
        match parsed {
            Some(v) => Record::Parsed(v),
            None => match raw {
                Some((bytes, format)) => Record::Raw { bytes, format },
                None => Record::Parsed(Value::Null),
            },
        }
    }
}

impl Clone for LazyRecord {
    fn clone(&self) -> (r: LazyRecord)
        ensures
            match self.raw_part() {
                Some((b, f)) => r.raw_part() matches Some((c, g)) && bytes_content(c) == bytes_content(b) && g@ == f@,
                None => r.raw_part() is None,
            },
            match self.parsed_part() {
                Some(v) => r.parsed_part() matches Some(w) && w.model() == v.model(),
                None => r.parsed_part() is None,
            },
    {
        proof {
            use_type_invariant(self);
        }
        let raw = match &self.raw {
            Some((b, f)) => Some((bytes_clone(b), f.duplicate())),
            None => None,
        };
        let parsed = match &self.parsed {
            Some(v) => Some(v.deep_clone()),
            None => None,
        };
        LazyRecord { raw, parsed }
    }
}

impl From<Record> for LazyRecord {
    fn from(record: Record) -> (r: LazyRecord)
        ensures
            match record {
                Record::Raw { bytes, format } => r.raw_part() == Some((bytes, format)) && r.parsed_part() is None,
                Record::Parsed(v) => r.raw_part() is None && r.parsed_part() == Some(v),
            },
    {
        match record {
            Record::Raw { bytes, format } => LazyRecord::from_raw(bytes, format),
            Record::Parsed(value) => LazyRecord::from_parsed(value),
        }
    }
}

impl vstd::std_specs::convert::FromSpecImpl<Record> for LazyRecord {
    open spec fn obeys_from_spec() -> bool {
        false
    }

    open spec fn from_spec(record: Record) -> LazyRecord {
        arbitrary()
    }
}

} // verus!
