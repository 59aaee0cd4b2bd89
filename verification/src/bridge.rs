//! Bridges between the low-level layer and the store layer.
//!
//! `LLToCore` wraps a low-level store to give a store: paths are sent as
//! the UTF-8 bytes of their components, payloads come back as raw records
//! with a format hint, and records are serialized for writes.
//! `CoreToLL` wraps a store to give a low-level store: byte paths are
//! validated into paths, records are serialized into payloads, and
//! failures become protocol errors (code 1: bad path, 2: the store
//! failed, 3: serialization failed).

use vstd::prelude::*;

use bytes::Bytes;

use crate::error::Error;
use crate::format::Format;
use crate::ll::{LLError, LLPath, LLReader, LLWriter};
use crate::path::{valid_component, valid_path, Path, PathError};
use crate::record::{bytes_as_slice, bytes_content, bytes_from_vec, Codec, Record};
use crate::traits::{Reader, Writer};

verus! {

/// The byte strings of borrowed low-level components.
pub open spec fn slices_view(s: Seq<&[u8]>) -> Seq<Seq<u8>> {
    s.map_values(|b: &[u8]| b@)
}

/// The byte strings of a low-level path.
pub open spec fn bytes_view(s: Seq<Bytes>) -> Seq<Seq<u8>> {
    s.map_values(|b: Bytes| bytes_content(b))
}

/// The low-level form of a path: each component in UTF-8.
pub open spec fn ll_encode(p: Seq<Seq<char>>) -> Seq<Seq<u8>> {
    p.map_values(|c: Seq<char>| vstd::utf8::encode_utf8(c))
}

/// Whether a low-level component is UTF-8 text that is a valid component.
pub open spec fn ll_component_ok(b: Seq<u8>) -> bool {
    vstd::utf8::valid_utf8(b) && valid_component(vstd::utf8::decode_utf8(b))
}

/// Whether every component of a low-level path decodes to a valid
/// component.
pub open spec fn ll_decodable(ll: Seq<Seq<u8>>) -> bool {
    forall|i: int| 0 <= i < ll.len() ==> #[trigger] ll_component_ok(ll[i])
}

/// The components of a low-level path, decoded from UTF-8.
pub open spec fn ll_decode(ll: Seq<Seq<u8>>) -> Seq<Seq<char>> {
    ll.map_values(|b: Seq<u8>| vstd::utf8::decode_utf8(b))
}

/// What validating a low-level path gives: the decoded path when every
/// component decodes to a valid component, and otherwise the error of a
/// failing component, at its position.
pub open spec fn decodes(ll: Seq<Seq<u8>>, r: Result<Path, PathError>) -> bool {
    match r {
        Ok(p) => ll_decodable(ll) && p@ == ll_decode(ll),
        Err(e) => exists|j: int|
            0 <= j < ll.len() && !ll_component_ok(#[trigger] ll[j]) && (e matches PathError::InvalidComponent {
                position,
                ..
            } && position == j),
    }
}

/// Validate borrowed low-level components into a path.
pub fn path_from_bytes(components: &[&[u8]]) -> (r: Result<Path, PathError>)
    ensures
        decodes(slices_view(components@), r),
{
    let mut owned: Vec<Vec<u8>> = Vec::new();
    let mut i: usize = 0;
    while i < components.len()
        invariant
            i <= components@.len(),
            owned@.len() == i,
            forall|k: int| 0 <= k < i ==> #[trigger] owned@[k]@ == components@[k]@,
        decreases components@.len() - i,
    {
        owned.push(vstd::slice::slice_to_vec(components[i]));
        i = i + 1;
    }
    let r = Path::try_from_ll_path(owned.as_slice());
    proof {
        let ll = slices_view(components@);
        assert forall|k: int| 0 <= k < ll.len() implies #[trigger] ll[k] == owned@[k]@ by {}
        if r is Ok {
            assert forall|k: int| 0 <= k < ll.len() implies #[trigger] ll_component_ok(ll[k]) by {
                assert(ll[k] == owned@[k]@);
            }
            assert(r->Ok_0@ =~= ll_decode(ll));
        } else {
            let e = r->Err_0;
            let j = choose|j: int|
                0 <= j < owned@.len() && !(vstd::utf8::valid_utf8(#[trigger] owned@[j]@)
                    && valid_component(vstd::utf8::decode_utf8(owned@[j]@))) && (
                e matches PathError::InvalidComponent { position, .. } && position == j);
            assert(ll[j] == owned@[j]@);
        }
    }
    r
}

/// Validate a low-level path into a path; a failure is a path error.
pub fn path_from_ll(components: &[Bytes]) -> (r: Result<Path, Error>)
    ensures
        match r {
            Ok(p) => decodes(bytes_view(components@), Ok(p)),
            Err(Error::Path(e)) => decodes(bytes_view(components@), Err(e)),
            Err(_) => false,
        },
{
    let mut owned: Vec<Vec<u8>> = Vec::new();
    let mut i: usize = 0;
    while i < components.len()
        invariant
            i <= components@.len(),
            owned@.len() == i,
            forall|k: int| 0 <= k < i ==> #[trigger] owned@[k]@ == bytes_content(components@[k]),
        decreases components@.len() - i,
    {
        owned.push(vstd::slice::slice_to_vec(bytes_as_slice(&components[i])));
        i = i + 1;
    }
    let r = Path::try_from_ll_path(owned.as_slice());
    proof {
        let ll = bytes_view(components@);
        assert forall|k: int| 0 <= k < ll.len() implies #[trigger] ll[k] == owned@[k]@ by {}
        if r is Ok {
            assert forall|k: int| 0 <= k < ll.len() implies #[trigger] ll_component_ok(ll[k]) by {
                assert(ll[k] == owned@[k]@);
            }
            assert(r->Ok_0@ =~= ll_decode(ll));
        } else {
            let e = r->Err_0;
            let j = choose|j: int|
                0 <= j < owned@.len() && !(vstd::utf8::valid_utf8(#[trigger] owned@[j]@)
                    && valid_component(vstd::utf8::decode_utf8(owned@[j]@))) && (
                e matches PathError::InvalidComponent { position, .. } && position == j);
            assert(ll[j] == owned@[j]@);
        }
    }
    match r {
        Ok(p) => Ok(p),
        Err(e) => Err(Error::Path(e)),
    }
}

/// The low-level form of a path, as payload handles.
pub fn ll_path_of(path: &Path) -> (r: LLPath)
    ensures
        bytes_view(r@) == ll_encode(path@),
{
    let owned = path.to_ll_path();
    let mut out: Vec<Bytes> = Vec::new();
    let mut i: usize = 0;
    while i < owned.len()
        invariant
            i <= owned@.len(),
            owned@.len() == path@.len(),
            forall|k: int| 0 <= k < owned@.len() ==> #[trigger] owned@[k]@ == vstd::utf8::encode_utf8(path@[k]),
            out@.len() == i,
            forall|k: int| 0 <= k < i ==> #[trigger] bytes_content(out@[k]) == owned@[k]@,
        decreases owned@.len() - i,
    {
        out.push(bytes_from_vec(vstd::slice::slice_to_vec(owned[i].as_slice())));
        i = i + 1;
    }
    assert(bytes_view(out@) =~= ll_encode(path@));
    out
}

/// Borrow each byte string of `owned`.
fn borrow_all(owned: &Vec<Vec<u8>>) -> (r: Vec<&[u8]>)
    ensures
        slices_view(r@) == owned@.map_values(|b: Vec<u8>| b@),
{
    let mut out: Vec<&[u8]> = Vec::new();
    let mut i: usize = 0;
    while i < owned.len()
        invariant
            i <= owned@.len(),
            out@.len() == i,
            forall|k: int| 0 <= k < i ==> #[trigger] out@[k]@ == owned@[k]@,
        decreases owned@.len() - i,
    {
        out.push(owned[i].as_slice());
        i = i + 1;
    }
    assert(slices_view(out@) =~= owned@.map_values(|b: Vec<u8>| b@));
    out
}

/// The answer of a store read given what the low-level read gave: a
/// payload becomes a raw record with the format hint `format`, nothing
/// stays nothing, and a low-level error is wrapped.
pub fn record_from_ll(outcome: Result<Option<Bytes>, LLError>, format: &Format) -> (r: Result<
    Option<Record>,
    Error,
>)
    ensures
        match outcome {
            Ok(Some(b)) => r matches Ok(Some(Record::Raw { bytes, format: f })) && bytes == b && f@
                == format@,
            Ok(None) => r == Ok::<Option<Record>, Error>(None),
            Err(e) => r == Err::<Option<Record>, Error>(Error::Ll(e)),
        },
{
    match outcome {
        Ok(Some(b)) => Ok(Some(Record::raw(b, format.duplicate()))),
        Ok(None) => Ok(None),
        Err(e) => Err(Error::Ll(e)),
    }
}

/// The answer of a store write given what the low-level write gave: the
/// returned low-level path validated into a path, or the low-level error
/// wrapped.
pub fn path_from_ll_outcome(outcome: Result<LLPath, LLError>) -> (r: Result<Path, Error>)
    ensures
        match outcome {
            Ok(ll) => match r {
                Ok(p) => decodes(bytes_view(ll@), Ok(p)),
                Err(Error::Path(e)) => decodes(bytes_view(ll@), Err(e)),
                Err(_) => false,
            },
            Err(e) => r == Err::<Path, Error>(Error::Ll(e)),
        },
{
    match outcome {
        Ok(ll) => path_from_ll(ll.as_slice()),
        Err(e) => Err(Error::Ll(e)),
    }
}

/// The answer of a low-level read given what the store read gave: a
/// record serialized into `format`, nothing as nothing, and a store
/// failure as protocol error 2 carrying the failure's text. A failure to
/// serialize is protocol error 3.
pub fn payload_from_read<C: Codec>(
    outcome: Result<Option<Record>, Error>,
    codec: &C,
    format: &Format,
) -> (r: Result<Option<Bytes>, LLError>)
    ensures
        match outcome {
            Ok(Some(rec)) => {
                &&& rec matches Record::Raw { bytes: b, format: f } ==> (f@ == format@ ==> r == Ok::<
                    Option<Bytes>,
                    LLError,
                >(Some(b)))
                &&& r matches Ok(x) ==> x is Some
                &&& r matches Err(LLError::Protocol { code, .. }) ==> code == 3
            },
            Ok(None) => r == Ok::<Option<Bytes>, LLError>(None),
            Err(e) => r matches Err(le) && le.is_protocol(2, e.text()),
        },
{
    match outcome {
        Ok(Some(rec)) => match rec.into_bytes(codec, format) {
            Ok(b) => Ok(Some(b)),
            Err(e) => {
                let t = e.to_string();
                Err(LLError::protocol(3, t.as_str()))
            },
        },
        Ok(None) => Ok(None),
        Err(e) => {
            let t = e.to_string();
            Err(LLError::protocol(2, t.as_str()))
        },
    }
}

/// The answer of a low-level write given what the store write gave: the
/// result path in low-level form, or protocol error 2 carrying the
/// failure's text.
pub fn ll_path_from_write(outcome: Result<Path, Error>) -> (r: Result<LLPath, LLError>)
    ensures
        match outcome {
            Ok(p) => r matches Ok(ll) && bytes_view(ll@) == ll_encode(p@),
            Err(e) => r matches Err(le) && le.is_protocol(2, e.text()),
        },
{
    match outcome {
        Ok(p) => Ok(ll_path_of(&p)),
        Err(e) => {
            let t = e.to_string();
            Err(LLError::protocol(2, t.as_str()))
        },
    }
}

/// The protocol error for a low-level path that is not a path: code 1,
/// carrying the validation error's text.
fn bad_path(e: PathError) -> (r: LLError)
    ensures
        r.is_protocol(1, e.text()),
{
    let t = e.to_string();
    LLError::protocol(1, t.as_str())
}

// ---------------------------------------------------------------------
// Low-level store as a store
// ---------------------------------------------------------------------

/// Adapts a low-level store to the store interface.
pub struct LLToCore<T, C> {
    inner: T,
    codec: C,
    read_format: Format,
    write_format: Format,
}

impl<T, C> LLToCore<T, C> {
    /// The wrapped low-level store.
    pub closed spec fn wrapped(&self) -> T {
        self.inner
    }

    /// The codec used to serialize records for writes.
    pub closed spec fn codec_used(&self) -> C {
        self.codec
    }

    /// The format hint given to payloads read.
    pub closed spec fn read_format_of(&self) -> Format {
        self.read_format
    }

    /// The format records are serialized into for writes.
    pub closed spec fn write_format_of(&self) -> Format {
        self.write_format
    }

    /// A bridge with the same format for reads and writes.
    pub fn new(inner: T, codec: C, format: Format) -> (r: Self)
        ensures
            r.wrapped() == inner,
            r.codec_used() == codec,
            r.read_format_of()@ == format@,
            r.write_format_of()@ == format@,
    {
        let read_format = format.duplicate();
        LLToCore { inner, codec, read_format, write_format: format }
    }

    /// A bridge with different formats for reads and writes.
    pub fn with_formats(inner: T, codec: C, read_format: Format, write_format: Format) -> (r: Self)
        ensures
            r.wrapped() == inner,
            r.codec_used() == codec,
            r.read_format_of() == read_format,
            r.write_format_of() == write_format,
    {
        LLToCore { inner, codec, read_format, write_format }
    }

    /// The wrapped low-level store.
    pub fn inner(&self) -> (r: &T)
        ensures
            *r == self.wrapped(),
    {
        &self.inner
    }

    /// The wrapped low-level store, mutably.
    pub fn inner_mut(&mut self) -> (r: &mut T)
        ensures
            *r == old(self).wrapped(),
            final(self).wrapped() == *final(r),
            final(self).codec_used() == old(self).codec_used(),
            final(self).read_format_of() == old(self).read_format_of(),
            final(self).write_format_of() == old(self).write_format_of(),
    {
        &mut self.inner
    }

    /// Unwrap, returning the low-level store.
    pub fn into_inner(self) -> (r: T)
        ensures
            r == self.wrapped(),
    {
        self.inner
    }
}

impl<T: LLReader, C> Reader for LLToCore<T, C> {
    fn read(&mut self, from: &Path) -> (r: Result<Option<Record>, Error>)
        ensures
            final(self).read_format_of() == old(self).read_format_of(),
            final(self).write_format_of() == old(self).write_format_of(),
            match r {
                Ok(Some(rec)) => rec matches Record::Raw { format, .. } && format@
                    == old(self).read_format_of()@,
                Ok(None) => true,
                Err(e) => e is Ll,
            },
    {
        let owned = from.to_ll_path();
        let refs = borrow_all(&owned);
        let outcome = self.inner.ll_read(refs.as_slice());
        record_from_ll(outcome, &self.read_format)
    }
}

impl<T: LLWriter, C: Codec> Writer for LLToCore<T, C> {
    fn write(&mut self, to: &Path, data: Record) -> (r: Result<Path, Error>)
        ensures
            final(self).read_format_of() == old(self).read_format_of(),
            final(self).write_format_of() == old(self).write_format_of(),
            data matches Record::Raw { format: f, .. } && f@ == old(self).write_format_of()@ ==> (r matches Err(e)
                ==> (e is Ll || e is Path)),
    {
        let bytes = match data.into_bytes(&self.codec, &self.write_format) {
            Ok(b) => b,
            Err(e) => {
                return Err(e);
            },
        };
        let owned = to.to_ll_path();
        let refs = borrow_all(&owned);
        let outcome = self.inner.ll_write(refs.as_slice(), bytes);
        path_from_ll_outcome(outcome)
    }
}

// ---------------------------------------------------------------------
// Store as a low-level store
// ---------------------------------------------------------------------

/// Adapts a store to the low-level interface.
pub struct CoreToLL<T, C> {
    inner: T,
    codec: C,
    format: Format,
}

impl<T, C> CoreToLL<T, C> {
    /// The wrapped store.
    pub closed spec fn wrapped(&self) -> T {
        self.inner
    }

    /// The codec used to serialize records for reads.
    pub closed spec fn codec_used(&self) -> C {
        self.codec
    }

    /// The format of the payloads exchanged.
    pub closed spec fn format_of(&self) -> Format {
        self.format
    }

    /// A bridge exchanging payloads in `format`.
    pub fn new(inner: T, codec: C, format: Format) -> (r: Self)
        ensures
            r.wrapped() == inner,
            r.codec_used() == codec,
            r.format_of() == format,
    {
        CoreToLL { inner, codec, format }
    }

    /// The wrapped store.
    pub fn inner(&self) -> (r: &T)
        ensures
            *r == self.wrapped(),
    {
        &self.inner
    }

    /// The wrapped store, mutably.
    pub fn inner_mut(&mut self) -> (r: &mut T)
        ensures
            *r == old(self).wrapped(),
            final(self).wrapped() == *final(r),
            final(self).codec_used() == old(self).codec_used(),
            final(self).format_of() == old(self).format_of(),
    {
        &mut self.inner
    }

    /// Unwrap, returning the store.
    pub fn into_inner(self) -> (r: T)
        ensures
            r == self.wrapped(),
    {
        self.inner
    }
}

impl<T: Reader, C: Codec> LLReader for CoreToLL<T, C> {
    fn ll_read(&mut self, path: &[&[u8]]) -> (r: Result<Option<Bytes>, LLError>)
        ensures
            final(self).format_of() == old(self).format_of(),
            !ll_decodable(slices_view(path@)) ==> (r matches Err(LLError::Protocol { code, .. }) && code
                == 1),
            r matches Err(LLError::Protocol { code, .. }) && code == 1 ==> !ll_decodable(
                slices_view(path@),
            ),
    {
        let p = match path_from_bytes(path) {
            Ok(p) => p,
            Err(e) => {
                return Err(bad_path(e));
            },
        };
        let outcome = self.inner.read(&p);
        payload_from_read(outcome, &self.codec, &self.format)
    }
}

impl<T: Writer, C> LLWriter for CoreToLL<T, C> {
    fn ll_write(&mut self, path: &[&[u8]], data: Bytes) -> (r: Result<LLPath, LLError>)
        ensures
            final(self).format_of() == old(self).format_of(),
            !ll_decodable(slices_view(path@)) ==> (r matches Err(LLError::Protocol { code, .. }) && code
                == 1),
            r matches Err(LLError::Protocol { code, .. }) && code == 1 ==> !ll_decodable(
                slices_view(path@),
            ),
    {
        let p = match path_from_bytes(path) {
            Ok(p) => p,
            Err(e) => {
                return Err(bad_path(e));
            },
        };
        let record = Record::raw(data, self.format.duplicate());
        let outcome = self.inner.write(&p, record);
        ll_path_from_write(outcome)
    }
}

// ---------------------------------------------------------------------
// Laws
// ---------------------------------------------------------------------

/// A path sent down to the low level validates back into the same path.
pub proof fn lemma_ll_roundtrip(p: Seq<Seq<char>>)
    requires
        valid_path(p),
    ensures
        ll_decodable(ll_encode(p)),
        ll_decode(ll_encode(p)) == p,
{
    broadcast use vstd::utf8::encode_utf8_valid_utf8, vstd::utf8::encode_utf8_decode_utf8;

    let ll = ll_encode(p);
    assert forall|i: int| 0 <= i < ll.len() implies #[trigger] ll_component_ok(ll[i]) by {
        assert(ll[i] == vstd::utf8::encode_utf8(p[i]));
        assert(valid_component(p[i]));
    }
    assert(ll_decode(ll) =~= p);
}

/// A low-level path that validates is sent back down unchanged.
pub proof fn lemma_ll_decode_encode(ll: Seq<Seq<u8>>)
    requires
        ll_decodable(ll),
    ensures
        valid_path(ll_decode(ll)),
        ll_encode(ll_decode(ll)) == ll,
{
    broadcast use vstd::utf8::decode_utf8_encode_utf8;

    let p = ll_decode(ll);
    assert forall|i: int| 0 <= i < p.len() implies #[trigger] valid_component(p[i]) by {
        assert(ll_component_ok(ll[i]));
    }
    assert forall|i: int| 0 <= i < ll.len() implies #[trigger] ll_encode(p)[i] == ll[i] by {
        assert(ll_component_ok(ll[i]));
    }
    assert(ll_encode(p) =~= ll);
}

} // verus!
