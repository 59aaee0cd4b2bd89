//! The low-level store interface: paths of byte strings and byte payloads.

use vstd::prelude::*;

use bytes::Bytes;

use crate::record::{bytes_content, bytes_from_vec};
use crate::text::{decimal, push_str, to_owned_string, u64_to_string};

verus! {

/// A low-level path: one byte string per component.
pub type LLPath = Vec<Bytes>;

/// Errors of the low-level layer.
#[derive(Debug)]
pub enum LLError {
    /// The operation is not supported by the store.
    NotSupported,
    /// The store ran out of a resource.
    ResourceExhausted,
    /// A protocol failure: a numeric code and a payload describing it.
    Protocol { code: u32, detail: Bytes },
}

impl LLError {
    /// The display text of the error.
    pub open spec fn text(&self) -> Seq<char> {
        match self {
            LLError::NotSupported => "operation not supported"@,
            LLError::ResourceExhausted => "resource exhausted"@,
            LLError::Protocol { code, .. } => "protocol error (code "@ + decimal(*code as nat) + ")"@,
        }
    }

    /// Whether this is a protocol error with `code` whose payload is the
    /// UTF-8 encoding of `message`.
    pub open spec fn is_protocol(&self, code: u32, message: Seq<char>) -> bool {
        &&& self matches LLError::Protocol { code: c, detail }
        &&& c == code
        &&& bytes_content(*detail) == vstd::utf8::encode_utf8(message)
    }

    /// A protocol error whose payload is the UTF-8 encoding of `message`.
    pub fn protocol(code: u32, message: &str) -> (r: LLError)
        ensures
            r.is_protocol(code, message@),
    {
        let detail = bytes_from_vec(message.as_bytes_vec());
        LLError::Protocol { code, detail }
    }

    /// The display text of the error.
    pub fn to_string(&self) -> (r: String)
        ensures
            r@ == self.text(),
    {
        match self {
            LLError::NotSupported => to_owned_string("operation not supported"),
            LLError::ResourceExhausted => to_owned_string("resource exhausted"),
            LLError::Protocol { code, .. } => {
                let mut out = to_owned_string("protocol error (code ");
                let digits = u64_to_string(*code as u64);
                push_str(&mut out, digits.as_str());
                push_str(&mut out, ")");
                out
            },
        }
    }
}

/// Read byte payloads at byte paths.
///
/// `Ok(None)` means nothing is at the path.
pub trait LLReader {
    /// Read the payload at `path`.
    fn ll_read(&mut self, path: &[&[u8]]) -> Result<Option<Bytes>, LLError>;
}

/// Write byte payloads at byte paths.
pub trait LLWriter {
    /// Write `data` at `path`, returning the path where it landed.
    fn ll_write(&mut self, path: &[&[u8]], data: Bytes) -> Result<LLPath, LLError>;
}

} // verus!
