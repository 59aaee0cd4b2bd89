//! Asynchronous bridges between the low-level layer and the store layer.
//!
//! The adapters hold the same parts as the synchronous ones; the awaiting
//! is done by their callers, who hand what came back to the verified
//! answers of the bridge module.

use vstd::prelude::*;

use crate::format::Format;

verus! {

/// Adapts an asynchronous low-level store to the asynchronous store
/// interface. Its operations await the wrapped store and answer with
/// `record_from_ll` and `path_from_ll_outcome`.
pub struct AsyncLLToCore<T, C> {
    inner: T,
    codec: C,
    read_format: Format,
    write_format: Format,
}

impl<T, C> AsyncLLToCore<T, C> {
    /// The wrapped low-level store.
    pub closed spec fn wrapped(&self) -> T {
        self.inner
    }

    /// The codec used to serialize records for writes.
    pub closed spec fn codec_used(&self) -> C {
        self.codec
    }

    /// The format hint given to payloads read.
    pub closed spec fn read_format_of(&self) -> Format {
        self.read_format
    }

    /// The format records are serialized into for writes.
    pub closed spec fn write_format_of(&self) -> Format {
        self.write_format
    }

    /// A bridge with the same format for reads and writes.
    pub fn new(inner: T, codec: C, format: Format) -> (r: Self)
        ensures
            r.wrapped() == inner,
            r.codec_used() == codec,
            r.read_format_of()@ == format@,
            r.write_format_of()@ == format@,
    {
        let read_format = format.duplicate();
        AsyncLLToCore { inner, codec, read_format, write_format: format }
    }

    /// A bridge with different formats for reads and writes.
    pub fn with_formats(inner: T, codec: C, read_format: Format, write_format: Format) -> (r: Self)
        ensures
            r.wrapped() == inner,
            r.codec_used() == codec,
            r.read_format_of() == read_format,
            r.write_format_of() == write_format,
    {
        AsyncLLToCore { inner, codec, read_format, write_format }
    }

    /// The wrapped low-level store.
    pub fn inner(&self) -> (r: &T)
        ensures
            *r == self.wrapped(),
    {
        &self.inner
    }

    /// The wrapped low-level store, mutably.
    pub fn inner_mut(&mut self) -> (r: &mut T)
        ensures
            *r == old(self).wrapped(),
            final(self).wrapped() == *final(r),
            final(self).codec_used() == old(self).codec_used(),
            final(self).read_format_of() == old(self).read_format_of(),
            final(self).write_format_of() == old(self).write_format_of(),
    {
        &mut self.inner
    }

    /// The codec used to serialize records for writes.
    pub fn codec(&self) -> (r: &C)
        ensures
            *r == self.codec_used(),
    {
        &self.codec
    }

    /// The format hint given to payloads read.
    pub fn read_format(&self) -> (r: &Format)
        ensures
            *r == self.read_format_of(),
    {
        &self.read_format
    }

    /// The format records are serialized into for writes.
    pub fn write_format(&self) -> (r: &Format)
        ensures
            *r == self.write_format_of(),
    {
        &self.write_format
    }

    /// Unwrap, returning the low-level store.
    pub fn into_inner(self) -> (r: T)
        ensures
            r == self.wrapped(),
    {
        self.inner
    }
}

/// Adapts an asynchronous store to the asynchronous low-level interface.
/// Its operations validate with `path_from_bytes`, await the wrapped
/// store and answer with `payload_from_read` and `ll_path_from_write`.
pub struct AsyncCoreToLL<T, C> {
    inner: T,
    codec: C,
    format: Format,
}

impl<T, C> AsyncCoreToLL<T, C> {
    /// The wrapped store.
    pub closed spec fn wrapped(&self) -> T {
        self.inner
    }

    /// The codec used to serialize records for reads.
    pub closed spec fn codec_used(&self) -> C {
        self.codec
    }

    /// The format of the payloads exchanged.
    pub closed spec fn format_of(&self) -> Format {
        self.format
    }

    /// A bridge exchanging payloads in `format`.
    pub fn new(inner: T, codec: C, format: Format) -> (r: Self)
        ensures
            r.wrapped() == inner,
            r.codec_used() == codec,
            r.format_of() == format,
    {
        AsyncCoreToLL { inner, codec, format }
    }

    /// The wrapped store.
    pub fn inner(&self) -> (r: &T)
        ensures
            *r == self.wrapped(),
    {
        &self.inner
    }

    /// The wrapped store, mutably.
    pub fn inner_mut(&mut self) -> (r: &mut T)
        ensures
            *r == old(self).wrapped(),
            final(self).wrapped() == *final(r),
            final(self).codec_used() == old(self).codec_used(),
            final(self).format_of() == old(self).format_of(),
    {
        &mut self.inner
    }

    /// The codec used to serialize records for reads.
    pub fn codec(&self) -> (r: &C)
        ensures
            *r == self.codec_used(),
    {
        &self.codec
    }

    /// The format of the payloads exchanged.
    pub fn format(&self) -> (r: &Format)
        ensures
            *r == self.format_of(),
    {
        &self.format
    }

    /// Unwrap, returning the store.
    pub fn into_inner(self) -> (r: T)
        ensures
            r == self.wrapped(),
    {
        self.inner
    }
}

} // verus!
