//! Errors of the store layer.

use vstd::prelude::*;

use crate::format::Format;
use crate::ll::LLError;
use crate::path::{Path, PathError};
use crate::text::{push_str, to_owned_string};

verus! {

/// Errors at the store layer: semantic errors (invalid paths, codec
/// failures, routing) and the failures a store reports.
#[derive(Debug)]
pub enum Error {
    /// Path validation error.
    Path(PathError),
    /// Invalid path for an operation.
    InvalidPath { message: String },
    /// No route found for a path (in overlay and mount stores).
    NoRoute { path: Path },
    /// A codec failed to decode bytes.
    Decode { format: Format, message: String },
    /// A codec failed to encode a value.
    Encode { format: Format, message: String },
    /// Format not supported by a codec.
    UnsupportedFormat(Format),
    /// Error from the low-level layer.
    Ll(LLError),
    /// A store failed an operation.
    Store { store: String, operation: String, message: String },
    /// Something addressed does not exist.
    NotFound { message: String },
    /// The operation is not permitted.
    PermissionDenied { message: String },
    /// The operation conflicts with existing state.
    Conflict { message: String },
    /// The operation was cancelled.
    Cancelled { message: String },
    /// A resource limit would be exceeded.
    ResourceLimit { message: String },
    /// Generic error with message.
    Other { message: String },
}

/// The error a store error wraps.
#[derive(Debug)]
pub enum Cause<'a> {
    /// A path validation error.
    Path(&'a PathError),
    /// A low-level store error.
    Ll(&'a LLError),
}

impl Error {
    /// The display text of the error.
    pub open spec fn text(&self) -> Seq<char> {
        match self {
            Error::Path(e) => "path error: "@ + e.text(),
            Error::InvalidPath { message } => "invalid path: "@ + message@,
            Error::NoRoute { path } => "no route for path: "@ + crate::path::path_string(path@),
            Error::Decode { format, message } => "decode error ("@ + format@ + "): "@ + message@,
            Error::Encode { format, message } => "encode error ("@ + format@ + "): "@ + message@,
            Error::UnsupportedFormat(format) => "unsupported format: "@ + format@,
            Error::Ll(e) => "ll error: "@ + e.text(),
            Error::Store { store, operation, message } => store@ + " "@ + operation@ + " failed: "@
                + message@,
            Error::NotFound { message } => "not found: "@ + message@,
            Error::PermissionDenied { message } => "permission denied: "@ + message@,
            Error::Conflict { message } => "conflict: "@ + message@,
            Error::Cancelled { message } => "cancelled: "@ + message@,
            Error::ResourceLimit { message } => "resource limit exceeded: "@ + message@,
            Error::Other { message } => message@,
        }
    }

    /// Whether this is the store error of `store` and `operation` with
    /// message `m`.
    pub open spec fn is_store(&self, store: Seq<char>, operation: Seq<char>, m: Seq<char>) -> bool {
        &&& self matches Error::Store { store: s, operation: o, message }
        &&& s@ == store
        &&& o@ == operation
        &&& message@ == m
    }

    /// A store failure.
    pub fn store(store: &str, operation: &str, message: &str) -> (r: Error)
        ensures
            r.is_store(store@, operation@, message@),
    {
        Error::Store {
            store: to_owned_string(store),
            operation: to_owned_string(operation),
            message: to_owned_string(message),
        }
    }

    /// A decode failure for `format`.
    pub fn decode(format: Format, message: &str) -> (r: Error)
        ensures
            r matches Error::Decode { format: f, message: m } && f@ == format@ && m@ == message@,
    {
        Error::Decode { format, message: to_owned_string(message) }
    }

    /// An encode failure for `format`.
    pub fn encode(format: Format, message: &str) -> (r: Error)
        ensures
            r matches Error::Encode { format: f, message: m } && f@ == format@ && m@ == message@,
    {
        Error::Encode { format, message: to_owned_string(message) }
    }

    /// A missing target.
    pub fn not_found(message: &str) -> (r: Error)
        ensures
            r matches Error::NotFound { message: m } && m@ == message@,
    {
        Error::NotFound { message: to_owned_string(message) }
    }

    /// A refused operation.
    pub fn permission_denied(message: &str) -> (r: Error)
        ensures
            r matches Error::PermissionDenied { message: m } && m@ == message@,
    {
        Error::PermissionDenied { message: to_owned_string(message) }
    }

    /// A conflicting operation.
    pub fn conflict(message: &str) -> (r: Error)
        ensures
            r matches Error::Conflict { message: m } && m@ == message@,
    {
        Error::Conflict { message: to_owned_string(message) }
    }

    /// A cancelled operation.
    pub fn cancelled(message: &str) -> (r: Error)
        ensures
            r matches Error::Cancelled { message: m } && m@ == message@,
    {
        Error::Cancelled { message: to_owned_string(message) }
    }

    /// An exhausted resource.
    pub fn resource_limit(message: &str) -> (r: Error)
        ensures
            r matches Error::ResourceLimit { message: m } && m@ == message@,
    {
        Error::ResourceLimit { message: to_owned_string(message) }
    }

    /// Whether this error reports a missing target.
    pub fn is_not_found(&self) -> (r: bool)
        ensures
            r == (self is NotFound),
    {
        match self {
            Error::NotFound { .. } => true,
            _ => false,
        }
    }

    /// The error underneath this one, if it wraps one: a path error or a
    /// low-level error.
    pub fn source(&self) -> (r: Option<Cause<'_>>)
        ensures
            match self {
                Error::Path(e) => r matches Some(Cause::Path(p)) && *p == e,
                Error::Ll(e) => r matches Some(Cause::Ll(l)) && *l == e,
                _ => r is None,
            },
    {
        match self {
            Error::Path(e) => Some(Cause::Path(e)),
            Error::Ll(e) => Some(Cause::Ll(e)),
            _ => None,
        }
    }

    /// The display text of the error.
    pub fn to_string(&self) -> (r: String)
        ensures
            r@ == self.text(),
    {
        match self {
            Error::Path(e) => {
                let mut out = to_owned_string("path error: ");
                let t = e.to_string();
                push_str(&mut out, t.as_str());
                out
            },
            Error::InvalidPath { message } => two("invalid path: ", message.as_str()),
            Error::NoRoute { path } => {
                let t = path.to_string();
                two("no route for path: ", t.as_str())
            },
            Error::Decode { format, message } => {
                let mut out = to_owned_string("decode error (");
                push_str(&mut out, format.as_str());
                push_str(&mut out, "): ");
                push_str(&mut out, message.as_str());
                out
            },
            Error::Encode { format, message } => {
                let mut out = to_owned_string("encode error (");
                push_str(&mut out, format.as_str());
                push_str(&mut out, "): ");
                push_str(&mut out, message.as_str());
                out
            },
            Error::UnsupportedFormat(format) => two("unsupported format: ", format.as_str()),
            Error::Ll(e) => {
                let t = e.to_string();
                two("ll error: ", t.as_str())
            },
            Error::Store { store, operation, message } => {
                let mut out = to_owned_string(store.as_str());
                push_str(&mut out, " ");
                push_str(&mut out, operation.as_str());
                push_str(&mut out, " failed: ");
                push_str(&mut out, message.as_str());
                out
            },
            Error::NotFound { message } => two("not found: ", message.as_str()),
            Error::PermissionDenied { message } => two("permission denied: ", message.as_str()),
            Error::Conflict { message } => two("conflict: ", message.as_str()),
            Error::Cancelled { message } => two("cancelled: ", message.as_str()),
            Error::ResourceLimit { message } => two("resource limit exceeded: ", message.as_str()),
            Error::Other { message } => message.clone(),
        }
    }
}

fn two(a: &str, b: &str) -> (r: String)
    ensures
        r@ == a@ + b@,
{
    let mut out = to_owned_string(a);
    push_str(&mut out, b);
    out
}

impl From<PathError> for Error {
    fn from(e: PathError) -> (r: Error)
        ensures
            r == Error::Path(e),
    {
        Error::Path(e)
    }
}

impl vstd::std_specs::convert::FromSpecImpl<PathError> for Error {
    open spec fn obeys_from_spec() -> bool {
        true
    }

    open spec fn from_spec(e: PathError) -> Error {
        Error::Path(e)
    }
}

impl From<LLError> for Error {
    fn from(e: LLError) -> (r: Error)
        ensures
            r == Error::Ll(e),
    {
        Error::Ll(e)
    }
}

impl vstd::std_specs::convert::FromSpecImpl<LLError> for Error {
    open spec fn obeys_from_spec() -> bool {
        true
    }

    open spec fn from_spec(e: LLError) -> Error {
        Error::Ll(e)
    }
}

} // verus!
