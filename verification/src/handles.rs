//! The state machines behind handle stores and streams.
//!
//! A byte stream, an event log and a bounded pipe are each a buffer with a
//! terminal flag; a parked read is a step that either answers or asks to
//! wait. A handle store routes paths of the shape `outstanding/{id}`.
//! The waiting, locking and spawning around these live with their callers.

use vstd::prelude::*;

use std::collections::BTreeMap;

use crate::error::Error;
use crate::path::Path;
use crate::text::{parse_u64_str, push_str, str_eq, to_owned_string, u64_to_string};
use crate::value::{lemma_seq_model, Model, Value, ValueMap};

verus! {

// ---------------------------------------------------------------------
// Byte streams
// ---------------------------------------------------------------------

/// One ranged read of a byte stream.
#[derive(Debug, Clone, PartialEq, Eq)]
pub struct ByteChunk {
    /// The bytes read (possibly fewer than requested).
    pub bytes: Vec<u8>,
    /// The offset the bytes start at.
    pub offset: u64,
    /// Whether the chunk ends at the end of a closed stream.
    pub eof: bool,
}

impl ByteChunk {
    /// The store encoding: the bytes themselves.
    pub fn into_value(self) -> (r: Value)
        ensures
            r.model() == Model::Bytes(self.bytes@),
    {
        Value::Bytes(self.bytes)
    }

    /// The cursor for the next read.
    pub fn next_offset(&self) -> (r: u64)
        requires
            self.offset + self.bytes@.len() <= u64::MAX,
        ensures
            r == self.offset + self.bytes@.len(),
    {
        self.offset + self.bytes.len() as u64
    }
}

/// An append-only byte buffer with a closed flag.
pub struct ByteBuffer {
    data: Vec<u8>,
    closed: bool,
}

/// The chunk a ranged read of `data` at `offset` for at most `max` bytes
/// gives: a past-the-end offset reads as an empty chunk at the end.
pub open spec fn chunk_model(data: Seq<u8>, closed: bool, offset: nat, max: nat) -> (Seq<u8>, nat, bool) {
    let start = if offset < data.len() { offset } else { data.len() };
    let end = if start + max < data.len() { start + max } else { data.len() };
    (data.subrange(start as int, end as int), start, closed && end == data.len())
}

/// A chunk read at an offset within the data is the window of the data
/// that starts there and holds `max` bytes, or the bytes up to the end
/// where fewer remain; it reports the offset asked for, and it is the last
/// chunk exactly when the buffer is closed and the window reaches the end.
/// Past the end, a chunk is empty and reports the end.
pub proof fn lemma_chunk_is_window(data: Seq<u8>, closed: bool, offset: nat, max: nat)
    ensures
        offset <= data.len() ==> ({
            let (b, o, eof) = chunk_model(data, closed, offset, max);
            let n: int = if max < data.len() - offset { max as int } else { data.len() - offset };
            &&& o == offset
            &&& b.len() == n
            &&& forall|j: int| 0 <= j < n ==> b[j] == data[offset + j]
            &&& eof == (closed && offset + n == data.len())
        }),
        offset > data.len() ==> chunk_model(data, closed, offset, max).0.len() == 0 && chunk_model(
            data,
            closed,
            offset,
            max,
        ).1 == data.len(),
{
}

impl ByteBuffer {
    /// The bytes appended so far.
    pub closed spec fn data(self) -> Seq<u8> {
        self.data@
    }

    /// Whether the buffer is closed.
    pub closed spec fn is_closed_spec(self) -> bool {
        self.closed
    }

    /// An empty, open buffer.
    pub fn new() -> (r: ByteBuffer)
        ensures
            r.data() == Seq::<u8>::empty(),
            !r.is_closed_spec(),
    {
        ByteBuffer { data: Vec::new(), closed: false }
    }

    /// Append bytes unless closed; returns whether they were kept.
    pub fn push(&mut self, bytes: &[u8]) -> (r: bool)
        ensures
            r == !old(self).is_closed_spec(),
            final(self).is_closed_spec() == old(self).is_closed_spec(),
            final(self).data() == if r {
                old(self).data() + bytes@
            } else {
                old(self).data()
            },
    {
        if self.closed {
            return false;
        }
        let mut i: usize = 0;
        let ghost start = self.data@;
        while i < bytes.len()
            invariant
                i <= bytes@.len(),
                self.data@ == start + bytes@.subrange(0, i as int),
                !self.closed,
            decreases bytes@.len() - i,
        {
            self.data.push(bytes[i]);
            assert(bytes@.subrange(0, i + 1) =~= bytes@.subrange(0, i as int).push(bytes@[i as int]));
            i = i + 1;
        }
        assert(bytes@.subrange(0, bytes@.len() as int) =~= bytes@);
        true
    }

    /// Close the buffer. Idempotent.
    pub fn close(&mut self)
        ensures
            final(self).is_closed_spec(),
            final(self).data() == old(self).data(),
    {
        self.closed = true;
    }

    /// Whether the buffer is closed.
    pub fn is_closed(&self) -> (r: bool)
        ensures
            r == self.is_closed_spec(),
    {
        self.closed
    }

    /// The number of bytes appended so far.
    pub fn len(&self) -> (r: u64)
        ensures
            r == self.data().len(),
    {
        self.data.len() as u64
    }

    /// Whether nothing has been appended.
    pub fn is_empty(&self) -> (r: bool)
        ensures
            r == (self.data().len() == 0),
    {
        self.data.len() == 0
    }

    /// Whether a parked read at `offset` may answer: there is a byte past
    /// `offset`, or the buffer is closed.
    pub fn ready_at(&self, offset: u64) -> (r: bool)
        ensures
            r == (self.data().len() > offset || self.is_closed_spec()),
    {
        (self.data.len() as u64) > offset || self.closed
    }

    /// What is available now at `offset`, at most `max` bytes.
    pub fn chunk_at(&self, offset: u64, max: usize) -> (r: ByteChunk)
        ensures
            (r.bytes@, r.offset as nat, r.eof) == chunk_model(self.data(), self.is_closed_spec(), offset as nat, max as nat),
    {
        let n = self.data.len();
        let start: usize = if (offset as u128) < (n as u128) {
            offset as usize
        } else {
            n
        };
        let end: usize = if max < n - start {
            start + max
        } else {
            n
        };
        let mut bytes: Vec<u8> = Vec::new();
        let mut i: usize = start;
        while i < end
            invariant
                start <= i <= end,
                end <= self.data@.len(),
                bytes@ == self.data@.subrange(start as int, i as int),
            decreases end - i,
        {
            bytes.push(self.data[i]);
            assert(self.data@.subrange(start as int, i + 1) =~= self.data@.subrange(start as int, i as int).push(
                self.data@[i as int],
            ));
            i = i + 1;
        }
        ByteChunk { bytes, offset: start as u64, eof: self.closed && end == n }
    }
}

// ---------------------------------------------------------------------
// Event logs
// ---------------------------------------------------------------------

/// One page of a tail read.
#[derive(Debug, Clone, PartialEq)]
pub struct TailPage<T> {
    /// Events from the requested cursor to the end of the log.
    pub items: Vec<T>,
    /// The cursor to pass to the next read.
    pub next: u64,
    /// Whether the log is finished: no more events will arrive.
    pub done: bool,
}

/// A tail page as a value: `{items: [...], next: N, status: "open" | "done"}`.
pub open spec fn page_value(items: Seq<Model>, next: int, done: bool) -> Model {
    Model::Object(
        Map::<Seq<char>, Model>::empty().insert("items"@, Model::Array(items)).insert("next"@, Model::Integer(next as i64)).insert(
            "status"@,
            Model::Str(
                if done {
                    "done"@
                } else {
                    "open"@
                },
            ),
        ),
    )
}

impl TailPage<Value> {
    /// The conventional tail envelope.
    pub fn into_value(self) -> (r: Value)
        ensures
            r.model() == page_value(crate::value::seq_model(self.items@), self.next as i64 as int, self.done),
    {
        let mut map = ValueMap::new();
        let ghost items = crate::value::seq_model(self.items@);
        map.insert(to_owned_string("items"), Value::Array(self.items));
        map.insert(to_owned_string("next"), Value::Integer(self.next as i64));
        let status = if self.done {
            "done"
        } else {
            "open"
        };
        map.insert(to_owned_string("status"), Value::String(to_owned_string(status)));
        let r = Value::Object(map);
        assert(r.model() =~~= page_value(items, self.next as i64 as int, self.done));
        r
    }
}

/// An append-only event log with a finished flag.
pub struct TailBuffer<T> {
    events: Vec<T>,
    done: bool,
}

impl<T: Clone> TailBuffer<T> {
    /// The events appended so far.
    pub closed spec fn events(self) -> Seq<T> {
        self.events@
    }

    /// Whether the log is finished.
    pub closed spec fn is_done_spec(self) -> bool {
        self.done
    }

    /// An empty, open log.
    pub fn new() -> (r: TailBuffer<T>)
        ensures
            r.events() == Seq::<T>::empty(),
            !r.is_done_spec(),
    {
        TailBuffer { events: Vec::new(), done: false }
    }

    /// Append an event unless finished; returns whether it was kept.
    pub fn push(&mut self, event: T) -> (r: bool)
        ensures
            r == !old(self).is_done_spec(),
            final(self).is_done_spec() == old(self).is_done_spec(),
            final(self).events() == if r {
                old(self).events().push(event)
            } else {
                old(self).events()
            },
    {
        if self.done {
            return false;
        }
        self.events.push(event);
        true
    }

    /// Mark the log finished. Idempotent.
    pub fn finish(&mut self)
        ensures
            final(self).is_done_spec(),
            final(self).events() == old(self).events(),
    {
        self.done = true;
    }

    /// Whether the log is finished.
    pub fn is_done(&self) -> (r: bool)
        ensures
            r == self.is_done_spec(),
    {
        self.done
    }

    /// The number of events appended so far.
    pub fn len(&self) -> (r: u64)
        ensures
            r == self.events().len(),
    {
        self.events.len() as u64
    }

    /// Whether a parked read from `seq` may answer: there are events past
    /// `seq`, or the log is finished.
    pub fn ready_from(&self, seq: u64) -> (r: bool)
        ensures
            r == (self.events().len() > seq || self.is_done_spec()),
    {
        (self.events.len() as u64) > seq || self.done
    }

    /// The tail from `seq` (a cursor past the end reads as an empty page
    /// at the end), with the cursor for the next read and the finished
    /// flag, taken together.
    pub fn page_from(&self, seq: u64) -> (r: TailPage<T>)
        ensures
            r.items@.len() == self.events().len() - (if seq < self.events().len() {
                seq as int
            } else {
                self.events().len() as int
            }),
            forall|i: int| 0 <= i < r.items@.len() ==> cloned::<T>(
                self.events()[i + (if seq < self.events().len() {
                    seq as int
                } else {
                    self.events().len() as int
                })],
                #[trigger] r.items@[i],
            ),
            r.next == self.events().len(),
            r.done == self.is_done_spec(),
    {
        let n = self.events.len();
        let start: usize = if (seq as u128) < (n as u128) {
            seq as usize
        } else {
            n
        };
        let mut items: Vec<T> = Vec::new();
        let mut i: usize = start;
        while i < n
            invariant
                start <= i <= n,
                n == self.events@.len(),
                items@.len() == i - start,
                forall|k: int| 0 <= k < items@.len() ==> cloned::<T>(self.events@[k + start], #[trigger] items@[k]),
            decreases n - i,
        {
            items.push(self.events[i].clone());
            i = i + 1;
        }
        TailPage { items, next: n as u64, done: self.done }
    }
}

// ---------------------------------------------------------------------
// Bounded pipes
// ---------------------------------------------------------------------

/// One direction of a bounded, consuming byte stream.
pub struct PipeState {
    capacity: usize,
    bytes: Vec<u8>,
    closed: bool,
    released: bool,
}

/// What a readiness probe of a duplex endpoint reports.
#[derive(Clone, Copy, Debug, PartialEq, Eq)]
pub struct StreamReadiness {
    pub readable_bytes: usize,
    pub writable_bytes: usize,
    pub eof: bool,
    pub write_closed: bool,
    pub released: bool,
}

impl PipeState {
    #[verifier::type_invariant]
    closed spec fn wf(self) -> bool {
        self.bytes@.len() <= self.capacity
    }

    /// The queued bytes.
    pub closed spec fn queued(self) -> Seq<u8> {
        self.bytes@
    }

    /// The most bytes the pipe holds.
    pub closed spec fn capacity_spec(self) -> nat {
        self.capacity as nat
    }

    /// Whether the write side is closed.
    pub closed spec fn closed_spec(self) -> bool {
        self.closed
    }

    /// Whether the pipe was released (its queue discarded).
    pub closed spec fn released_spec(self) -> bool {
        self.released
    }

    /// An empty, open pipe holding at most `capacity` bytes.
    pub fn new(capacity: usize) -> (r: PipeState)
        ensures
            r.queued() == Seq::<u8>::empty(),
            r.capacity_spec() == capacity,
            !r.closed_spec(),
            !r.released_spec(),
    {
        PipeState { capacity, bytes: Vec::new(), closed: false, released: false }
    }

    /// Close the write side; with `release`, also discard the queue and
    /// fail every later operation.
    pub fn close(&mut self, release: bool)
        ensures
            final(self).closed_spec(),
            final(self).released_spec() == (old(self).released_spec() || release),
            final(self).queued() == if release {
                Seq::<u8>::empty()
            } else {
                old(self).queued()
            },
            final(self).capacity_spec() == old(self).capacity_spec(),
    {
        proof {
            use_type_invariant(&*self);
        }
        self.closed = true;
        if release {
            self.released = true;
            self.bytes = Vec::new();
        }
    }

    /// One attempt at a read of at most `max` bytes: a conflict when `max`
    /// is zero; `None` to wait; an error once released; otherwise the
    /// oldest queued bytes, consumed, with none meaning end of stream.
    pub fn try_read(&mut self, max: usize) -> (r: Option<Result<Vec<u8>, Error>>)
        ensures
            max == 0 ==> *final(self) == *old(self) && (r matches Some(Err(Error::Conflict { message }))
                && message@ == "read size must be positive"@),
            max > 0 && old(self).released_spec() ==> *final(self) == *old(self) && (r matches Some(Err(Error::Cancelled { message }))
                && message@ == "stream released"@),
            max > 0 && !old(self).released_spec() && old(self).queued().len() == 0 && !old(self).closed_spec() ==> r is None
                && *final(self) == *old(self),
            max > 0 && !old(self).released_spec() && (old(self).queued().len() > 0 || old(self).closed_spec()) ==> {
                let count = if max < old(self).queued().len() {
                    max as int
                } else {
                    old(self).queued().len() as int
                };
                &&& r matches Some(Ok(out)) && out@ == old(self).queued().subrange(0, count)
                &&& final(self).queued() == old(self).queued().subrange(count, old(self).queued().len() as int)
                &&& final(self).closed_spec() == old(self).closed_spec()
                &&& final(self).released_spec() == old(self).released_spec()
                &&& final(self).capacity_spec() == old(self).capacity_spec()
            },
    {
        proof {
            use_type_invariant(&*self);
        }
        if max == 0 {
            return Some(Err(Error::conflict("read size must be positive")));
        }
        if self.released {
            return Some(Err(Error::cancelled("stream released")));
        }
        if self.bytes.len() == 0 && !self.closed {
            return None;
        }
        let count = if max < self.bytes.len() {
            max
        } else {
            self.bytes.len()
        };
        let mut out: Vec<u8> = Vec::new();
        let mut rest: Vec<u8> = Vec::new();
        let mut i: usize = 0;
        while i < self.bytes.len()
            invariant
                i <= self.bytes@.len(),
                count <= self.bytes@.len(),
                out@ == self.bytes@.subrange(0, if i < count { i as int } else { count as int }),
                rest@ == if i <= count {
                    Seq::<u8>::empty()
                } else {
                    self.bytes@.subrange(count as int, i as int)
                },
            decreases self.bytes@.len() - i,
        {
            if i < count {
                out.push(self.bytes[i]);
                assert(self.bytes@.subrange(0, i + 1) =~= self.bytes@.subrange(0, i as int).push(self.bytes@[i as int]));
            } else {
                rest.push(self.bytes[i]);
                assert(self.bytes@.subrange(count as int, i + 1) =~= self.bytes@.subrange(count as int, i as int).push(
                    self.bytes@[i as int],
                ));
            }
            i = i + 1;
        }
        proof {
            if self.bytes@.len() <= count {
                assert(self.bytes@.subrange(count as int, self.bytes@.len() as int) =~= Seq::<u8>::empty());
            }
        }
        self.bytes = rest;
        Some(Ok(out))
    }

    /// One attempt at writing `bytes`: a resource-limit error when the
    /// chunk exceeds the capacity; `None` to wait for room; an error once
    /// the write side is closed; otherwise the whole chunk is queued.
    pub fn try_write(&mut self, bytes: &[u8]) -> (r: Option<Result<(), Error>>)
        ensures
            bytes@.len() > old(self).capacity_spec() ==> *final(self) == *old(self) && (r matches Some(
                Err(Error::ResourceLimit { message }),
            ) && message@ == "write exceeds stream capacity; chunk it"@),
            bytes@.len() <= old(self).capacity_spec() && old(self).closed_spec() ==> *final(self) == *old(self) && (r matches Some(Err(Error::Cancelled { message }))
                && message@ == "stream write side closed"@),
            bytes@.len() <= old(self).capacity_spec() && !old(self).closed_spec() && bytes@.len() > old(self).capacity_spec()
                - old(self).queued().len() ==> r is None
                && *final(self) == *old(self),
            bytes@.len() <= old(self).capacity_spec() && !old(self).closed_spec() && bytes@.len() <= old(self).capacity_spec()
                - old(self).queued().len() ==> {
                &&& r matches Some(Ok(()))
                &&& final(self).queued() == old(self).queued() + bytes@
                &&& final(self).closed_spec() == old(self).closed_spec()
                &&& final(self).released_spec() == old(self).released_spec()
                &&& final(self).capacity_spec() == old(self).capacity_spec()
            },
    {
        proof {
            use_type_invariant(&*self);
        }
        if bytes.len() > self.capacity {
            return Some(Err(Error::resource_limit("write exceeds stream capacity; chunk it")));
        }
        if self.closed {
            return Some(Err(Error::cancelled("stream write side closed")));
        }
        if bytes.len() > self.capacity - self.bytes.len() {
            return None;
        }
        let mut q: Vec<u8> = Vec::new();
        std::mem::swap(&mut q, &mut self.bytes);
        let ghost start = q@;
        let mut i: usize = 0;
        while i < bytes.len()
            invariant
                i <= bytes@.len(),
                q@ == start + bytes@.subrange(0, i as int),
            decreases bytes@.len() - i,
        {
            q.push(bytes[i]);
            assert(bytes@.subrange(0, i + 1) =~= bytes@.subrange(0, i as int).push(bytes@[i as int]));
            i = i + 1;
        }
        assert(bytes@.subrange(0, bytes@.len() as int) =~= bytes@);
        self.bytes = q;
        Some(Ok(()))
    }
}

/// The readiness of an endpoint that receives on `rx` and sends on `tx`.
pub fn readiness(rx: &PipeState, tx: &PipeState) -> (r: StreamReadiness)
    ensures
        r.readable_bytes == rx.queued().len(),
        r.eof == (rx.closed_spec() && rx.queued().len() == 0),
        r.released == (rx.released_spec() || tx.released_spec()),
        r.write_closed == tx.closed_spec(),
        r.writable_bytes == if tx.closed_spec() {
            0
        } else {
            tx.capacity_spec() - tx.queued().len()
        },
{
    proof {
        use_type_invariant(tx);
    }
    StreamReadiness {
        readable_bytes: rx.bytes.len(),
        eof: rx.closed && rx.bytes.len() == 0,
        released: rx.released || tx.released,
        write_closed: tx.closed,
        writable_bytes: if tx.closed {
            0
        } else {
            tx.capacity - tx.bytes.len()
        },
    }
}

/// Whether a readiness probe with these interests may answer.
pub fn readiness_answers(r: &StreamReadiness, read: bool, write: bool) -> (b: bool)
    ensures
        b == (r.released || (read && (r.readable_bytes > 0 || r.eof)) || (write && (r.writable_bytes > 0 || r.write_closed))),
{
    r.released || (read && (r.readable_bytes > 0 || r.eof)) || (write && (r.writable_bytes > 0 || r.write_closed))
}

/// What a read of a duplex endpoint's store addresses.
#[derive(Debug, Clone, Copy, PartialEq, Eq)]
pub enum StreamRead {
    /// `rx/{max}`: consume at most `max` received bytes.
    Receive(usize),
    /// `rx/{max}` with a `max` that is no size.
    BadSize,
    /// `ready/read`, `ready/write` or `ready/both`: wait for readiness with
    /// these interests (read, write).
    Ready(bool, bool),
    /// Any other path.
    Unknown,
}

/// How a read of `p` below a duplex endpoint is routed.
pub open spec fn stream_read_route(p: Seq<Seq<char>>) -> StreamRead {
    if p.len() == 2 && p[0] == "rx"@ {
        match crate::text::parse_usize(p[1]) {
            Some(n) => StreamRead::Receive(n as usize),
            None => StreamRead::BadSize,
        }
    } else if p.len() == 2 && p[0] == "ready"@ && (p[1] == "read"@ || p[1] == "write"@ || p[1] == "both"@) {
        StreamRead::Ready(p[1] != "write"@, p[1] != "read"@)
    } else {
        StreamRead::Unknown
    }
}

/// Route a read below a duplex endpoint.
pub fn route_stream_read(path: &Path) -> (r: StreamRead)
    ensures
        r == stream_read_route(path@),
{
    if path.len() == 2 && str_eq(path.component(0), "rx") {
        return match crate::text::parse_usize_str(path.component(1)) {
            Some(n) => StreamRead::Receive(n),
            None => StreamRead::BadSize,
        };
    }
    if path.len() == 2 && str_eq(path.component(0), "ready") {
        let interest = path.component(1);
        let is_read = str_eq(interest, "read");
        let is_write = str_eq(interest, "write");
        let is_both = str_eq(interest, "both");
        if is_read || is_write || is_both {
            return StreamRead::Ready(!is_write, !is_read);
        }
    }
    StreamRead::Unknown
}

/// What a write to a duplex endpoint's store does.
#[derive(Debug, Clone, PartialEq, Eq)]
pub enum StreamWrite {
    /// Null at the root: release both directions.
    Release,
    /// Null at `shutdown`: close the write side.
    Shutdown,
    /// Bytes at `tx`: send them.
    Send(Vec<u8>),
    /// Something other than bytes at `tx`.
    NotBytes,
    /// Any other path or value.
    Unknown,
}

/// Route a write of `value` below a duplex endpoint: null at the root
/// releases, null at `shutdown` closes the write side, bytes at `tx` are
/// sent.
pub fn route_stream_write(path: &Path, value: Value) -> (r: StreamWrite)
    ensures
        path@.len() == 0 && value.model() is Null ==> r is Release,
        path@ == seq!["shutdown"@] && value.model() is Null ==> r is Shutdown,
        path@ == seq!["tx"@] ==> match value.model() {
            Model::Bytes(b) => r matches StreamWrite::Send(c) && c@ == b,
            _ => r is NotBytes,
        },
        !(path@.len() == 0 && value.model() is Null) && !(path@ == seq!["shutdown"@] && value.model() is Null) && path@
            != seq!["tx"@] ==> r is Unknown,
{
    let is_null = value.is_null();
    if path.is_empty() && is_null {
        return StreamWrite::Release;
    }
    let single = path.len() == 1;
    if single && str_eq(path.component(0), "shutdown") && is_null {
        proof {
            assert(path@ =~= seq!["shutdown"@]);
            reveal_strlit("shutdown");
            reveal_strlit("tx");
            assert(path@[0].len() != "tx"@.len());
        }
        return StreamWrite::Shutdown;
    }
    if single && str_eq(path.component(0), "tx") {
        proof {
            assert(path@ =~= seq!["tx"@]);
        }
        return match value {
            Value::Bytes(b) => StreamWrite::Send(b),
            _ => StreamWrite::NotBytes,
        };
    }
    proof {
        if path@ == seq!["shutdown"@] || path@ == seq!["tx"@] {
            assert(path@.len() == 1);
        }
    }
    StreamWrite::Unknown
}

/// A readiness report as a value.
pub open spec fn readiness_model(r: StreamReadiness) -> Model {
    Model::Object(
        Map::<Seq<char>, Model>::empty().insert("readable_bytes"@, Model::Integer(r.readable_bytes as i64)).insert(
            "writable_bytes"@,
            Model::Integer(r.writable_bytes as i64),
        ).insert("eof"@, Model::Bool(r.eof)).insert("write_closed"@, Model::Bool(r.write_closed)).insert(
            "released"@,
            Model::Bool(r.released),
        ),
    )
}

/// The value a `ready/...` read answers with.
pub fn readiness_value(r: &StreamReadiness) -> (v: Value)
    ensures
        v.model() == readiness_model(*r),
{
    let mut map = ValueMap::new();
    map.insert(to_owned_string("readable_bytes"), Value::Integer(r.readable_bytes as i64));
    map.insert(to_owned_string("writable_bytes"), Value::Integer(r.writable_bytes as i64));
    map.insert(to_owned_string("eof"), Value::Bool(r.eof));
    map.insert(to_owned_string("write_closed"), Value::Bool(r.write_closed));
    map.insert(to_owned_string("released"), Value::Bool(r.released));
    let v = Value::Object(map);
    assert(v.model() =~~= readiness_model(*r));
    v
}

// ---------------------------------------------------------------------
// Cancellation
// ---------------------------------------------------------------------

/// A wait that was cancelled through its token.
#[derive(Debug, Clone, Copy, PartialEq, Eq)]
pub struct Cancelled;

impl Cancelled {
    /// The store error for the cancellation, with context.
    pub fn into_error(self, context: &str) -> (r: Error)
        ensures
            r matches Error::Cancelled { message } && message@ == context@,
    {
        Error::cancelled(context)
    }
}

// ---------------------------------------------------------------------
// Handle routing
// ---------------------------------------------------------------------

/// The handle id and the rest of the path, for a path of the shape
/// `outstanding/{id}[/sub...]` with a decimal id that fits `u64`.
pub open spec fn parse_handle_spec(p: Seq<Seq<char>>) -> Option<(nat, Seq<Seq<char>>)> {
    if p.len() >= 2 && p[0] == "outstanding"@ && crate::text::parse_u64(p[1]) is Some {
        Some((crate::text::parse_u64(p[1])->Some_0, p.skip(2)))
    } else {
        None
    }
}

/// Parse `outstanding/{id}[/sub...]`; `None` for any other shape.
pub fn parse_handle(path: &Path) -> (r: Option<(u64, Path)>)
    ensures
        match r {
            Some((id, sub)) => parse_handle_spec(path@) == Some((id as nat, sub@)),
            None => parse_handle_spec(path@) is None,
        },
{
    if path.len() < 2 || !str_eq(path.component(0), "outstanding") {
        return None;
    }
    match parse_u64_str(path.component(1)) {
        Some(id) => {
            let sub = path.slice(2, path.len());
            assert(path@.subrange(2, path@.len() as int) =~= path@.skip(2));
            Some((id, sub))
        },
        None => None,
    }
}

/// The handle path for an id: `outstanding/{id}`.
pub fn handle_path(id: u64) -> (r: Path)
    ensures
        r@ == seq!["outstanding"@, crate::text::decimal(id as nat)],
{
    proof {
        crate::path::lemma_decimal_is_component(id as nat);
        reveal_strlit("outstanding");
        crate::path::lemma_ascii_word_is_component("outstanding"@);
    }
    let comps = vec![crate::text::to_owned_string("outstanding"), crate::text::u64_to_string(id)];
    assert(comps@.map_values(|s: String| s@) =~= seq!["outstanding"@, crate::text::decimal(id as nat)]);
    Path::from_validated_components(comps)
}

// ---------------------------------------------------------------------
// Handle tables
// ---------------------------------------------------------------------

/// What the ordered map of handles relies on: std's map contracts, and
/// that integer ids are totally ordered.
pub broadcast group group_ordered_table {
    vstd::std_specs::btree::group_btree_axioms,
    vstd::laws_cmp::group_laws_cmp,
}

/// Keys handed out in increasing order are increasing ids.
pub(crate) proof fn lemma_keys_increase(ks: Seq<&u64>)
    requires
        vstd::std_specs::btree::increasing_seq(ks),
    ensures
        forall|a: int, b: int| 0 <= a < b < ks.len() ==> *ks[a] < *ks[b],
{
    broadcast use group_ordered_table;
    assert forall|a: int, b: int| 0 <= a < b < ks.len() implies *ks[a] < *ks[b] by {
        assert(vstd::std_specs::cmp::OrdSpec::cmp_spec(&ks[a], &ks[b]) is Less);
    }
}

/// The live handles of a handle store by id, with the next id to mint.
/// Ids are never reused: every id taken is below `next`.
pub struct HandleTable<H> {
    entries: BTreeMap<u64, H>,
    next_id: u64,
}

impl<H> HandleTable<H> {
    #[verifier::type_invariant]
    closed spec fn wf(self) -> bool {
        forall|k: u64| #[trigger] self.entries@.contains_key(k) ==> k < self.next_id
    }

    /// The live handles by id.
    pub closed spec fn handles(&self) -> Map<u64, H> {
        self.entries@
    }

    /// The next id to mint.
    pub closed spec fn next(&self) -> u64 {
        self.next_id
    }

    /// An empty table minting from 0.
    pub fn new() -> (r: HandleTable<H>)
        ensures
            r.handles() == Map::<u64, H>::empty(),
            r.next() == 0,
    {
        HandleTable { entries: BTreeMap::new(), next_id: 0 }
    }

    /// The next id to mint.
    pub fn next_id(&self) -> (r: u64)
        ensures
            r == self.next(),
    {
        self.next_id
    }

    /// The number of live handles.
    pub fn len(&self) -> (r: usize)
        ensures
            self.handles().dom().finite(),
            r == self.handles().len(),
    {
        broadcast use group_ordered_table;
        self.entries.len()
    }

    /// Take the next id; it is never taken again.
    pub fn take_id(&mut self) -> (r: u64)
        requires
            old(self).next() < u64::MAX,
        ensures
            r == old(self).next(),
            final(self).next() == old(self).next() + 1,
            final(self).handles() == old(self).handles(),
            !old(self).handles().contains_key(r),
    {
        proof {
            use_type_invariant(&*self);
        }
        let id = self.next_id;
        self.next_id = id + 1;
        id
    }

    /// Keep `handle` under `id`, an id taken and not in use.
    pub fn store(&mut self, id: u64, handle: H)
        requires
            id < old(self).next(),
            !old(self).handles().contains_key(id),
        ensures
            final(self).next() == old(self).next(),
            final(self).handles() == old(self).handles().insert(id, handle),
    {
        broadcast use group_ordered_table;
        proof {
            use_type_invariant(&*self);
        }
        let mut entries = BTreeMap::new();
        std::mem::swap(&mut entries, &mut self.entries);
        entries.insert(id, handle);
        self.entries = entries;
    }

    /// The handle under `id`.
    pub fn get(&self, id: u64) -> (r: Option<&H>)
        ensures
            self.handles().contains_key(id) ==> (r matches Some(g) && *g == self.handles()[id]),
            !self.handles().contains_key(id) ==> r is None,
    {
        broadcast use group_ordered_table;
        self.entries.get(&id)
    }

    /// Remove the handle under `id`, returning it; an unknown id changes
    /// nothing.
    pub fn release(&mut self, id: u64) -> (r: Option<H>)
        ensures
            old(self).handles().contains_key(id) ==> r == Some(old(self).handles()[id]),
            !old(self).handles().contains_key(id) ==> r is None,
            final(self).handles() == old(self).handles().remove(id),
            final(self).next() == old(self).next(),
    {
        broadcast use group_ordered_table;
        proof {
            use_type_invariant(&*self);
        }
        let mut entries = BTreeMap::new();
        std::mem::swap(&mut entries, &mut self.entries);
        let r = entries.remove(&id);
        self.entries = entries;
        r
    }

    /// The live ids, increasing.
    pub fn ids(&self) -> (r: Vec<u64>)
        ensures
            r@.len() == self.handles().len(),
            forall|k: u64| #[trigger] self.handles().contains_key(k) <==> r@.contains(k),
            forall|a: int, b: int| 0 <= a < b < r@.len() ==> #[trigger] r@[a] < #[trigger] r@[b],
    {
        broadcast use group_ordered_table;
        let ghost ks = vstd::std_specs::iter::IteratorSpec::remaining(&vstd::std_specs::btree::spec_keys_iter(&self.entries));
        let mut out: Vec<u64> = Vec::new();
        for k in it: self.entries.keys()
            invariant
                it.seq() == ks,
                out@ == ks.take(it.index()).unref(),
        {
            out.push(*k);
            assert(ks.take(it.index() + 1).unref() =~= ks.take(it.index()).unref().push(*ks[it.index()]));
        }
        proof {
            assert(out@ =~= ks.unref());
            assert forall|k: u64| #[trigger] self.handles().contains_key(k) <==> out@.contains(k) by {
                assert(ks.unref().to_set().contains(k) <==> ks.unref().contains(k));
            }
            lemma_keys_increase(ks);
        }
        out
    }
}

/// Releasing a handle twice is releasing it once.
pub proof fn lemma_release_idempotent<H>(m: Map<u64, H>, id: u64)
    ensures
        m.remove(id).remove(id) == m.remove(id),
{
    assert(m.remove(id).remove(id) =~= m.remove(id));
}

/// A released handle is absent: nothing is found under its id.
pub proof fn lemma_released_is_absent<H>(m: Map<u64, H>, id: u64)
    ensures
        !m.remove(id).contains_key(id),
{
}

/// Releasing one handle leaves every other handle in place.
pub proof fn lemma_release_keeps_others<H>(m: Map<u64, H>, id: u64, k: u64)
    requires
        k != id,
    ensures
        m.remove(id).contains_key(k) == m.contains_key(k),
        m.contains_key(k) ==> m.remove(id)[k] == m[k],
{
}

/// What a read below a handle store addresses.
pub enum HandleRead {
    /// The listing of live handles (the root, or `outstanding`).
    Listing,
    /// The protocol's documentation (`docs`).
    Docs,
    /// A path below a handle: its id and the rest.
    Handle(u64, Path),
    /// Nothing: any other shape.
    Absent,
}

/// How a read of `path` is routed.
pub fn route_read(path: &Path) -> (r: HandleRead)
    ensures
        (path@.len() == 0 || (path@.len() == 1 && path@[0] == "outstanding"@)) ==> r is Listing,
        !(path@.len() == 0 || (path@.len() == 1 && path@[0] == "outstanding"@)) && path@.len() == 1 && path@[0] == "docs"@
            ==> r is Docs,
        !(path@.len() == 0 || path@.len() == 1) ==> match parse_handle_spec(path@) {
            Some((id, sub)) => r matches HandleRead::Handle(i, s) && i == id && s@ == sub,
            None => r is Absent,
        },
        path@.len() == 1 && path@[0] != "outstanding"@ && path@[0] != "docs"@ ==> r is Absent,
{
    if path.is_empty() || (path.len() == 1 && str_eq(path.component(0), "outstanding")) {
        return HandleRead::Listing;
    }
    if path.len() == 1 && str_eq(path.component(0), "docs") {
        return HandleRead::Docs;
    }
    match parse_handle(path) {
        Some((id, sub)) => HandleRead::Handle(id, sub),
        None => HandleRead::Absent,
    }
}

/// What a write to a handle store does.
pub enum HandleWrite {
    /// Mint a new handle for the request (a write to the root).
    Mint,
    /// Release the handle (null written to `outstanding/{id}`).
    Release(u64),
    /// Refuse: a handle cannot be overwritten.
    Conflict(u64),
    /// Forward to the handle with the rest of the path.
    Forward(u64, Path),
    /// Refuse: no such path.
    NoSuchPath,
}

/// How a write of a value (null or not) to `path` is routed.
pub fn route_write(path: &Path, is_null: bool) -> (r: HandleWrite)
    ensures
        path@.len() == 0 ==> r is Mint,
        path@.len() > 0 ==> match parse_handle_spec(path@) {
            None => r is NoSuchPath,
            Some((id, sub)) => if sub.len() == 0 {
                if is_null {
                    r matches HandleWrite::Release(i) && i == id
                } else {
                    r matches HandleWrite::Conflict(i) && i == id
                }
            } else {
                r matches HandleWrite::Forward(i, s) && i == id && s@ == sub
            },
        },
{
    if path.is_empty() {
        return HandleWrite::Mint;
    }
    match parse_handle(path) {
        None => HandleWrite::NoSuchPath,
        Some((id, sub)) => {
            if sub.is_empty() {
                if is_null {
                    HandleWrite::Release(id)
                } else {
                    HandleWrite::Conflict(id)
                }
            } else {
                HandleWrite::Forward(id, sub)
            }
        },
    }
}

/// The listing of live handles as a value: `{items: [path, ...]}`, the
/// handle paths of `ids` in order.
pub fn handle_listing(ids: &Vec<u64>) -> (r: Value)
    ensures
        r.model() matches Model::Object(m) && m.dom() == set!["items"@] && (m["items"@] matches Model::Array(items)
            && items.len() == ids@.len() && forall|k: int| 0 <= k < items.len() ==> #[trigger] items[k] == Model::Str(
            crate::path::path_string(seq!["outstanding"@, crate::text::decimal(ids@[k] as nat)]),
        )),
{
    let mut items: Vec<Value> = Vec::new();
    let mut i: usize = 0;
    while i < ids.len()
        invariant
            i <= ids@.len(),
            items@.len() == i,
            forall|k: int| 0 <= k < i ==> #[trigger] items@[k].model() == Model::Str(
                crate::path::path_string(seq!["outstanding"@, crate::text::decimal(ids@[k] as nat)]),
            ),
        decreases ids@.len() - i,
    {
        let p = handle_path(ids[i]);
        items.push(Value::String(p.to_string()));
        i = i + 1;
    }
    proof {
        lemma_seq_model(items@);
    }
    let mut map = ValueMap::new();
    map.insert(to_owned_string("items"), Value::Array(items));
    let r = Value::Object(map);
    assert(r.model()->Object_0.dom() =~= set!["items"@]);
    r
}

/// The message of the conflict a write over a live handle reports.
pub fn overwrite_message(id: u64) -> (r: String)
    ensures
        r@ == "cannot overwrite outstanding handle "@
            + crate::path::path_string(seq!["outstanding"@, crate::text::decimal(id as nat)])
            + "; write Null to release it"@,
{
    let mut m = to_owned_string("cannot overwrite outstanding handle ");
    let p = handle_path(id).to_string();
    push_str(&mut m, p.as_str());
    push_str(&mut m, "; write Null to release it");
    m
}

} // verus!
