use structfs::handles::{
    handle_path, readiness_value, HandleTable, route_stream_read, route_stream_write, ByteBuffer, ByteChunk, StreamRead, StreamReadiness, StreamWrite,
    TailBuffer, TailPage, PipeState, handle_listing,
};
use structfs::path::Path;
use structfs::path::PathComponent;
use structfs::value::Value;

#[test]
fn push_after_close_is_dropped() {
    let mut stream = ByteBuffer::new();
    assert!(stream.push(b"a"));
    stream.close();
    assert!(!stream.push(b"b"));
    assert_eq!(stream.len(), 1);
}

#[test]
fn snapshot_is_nonblocking() {
    let stream = ByteBuffer::new();
    let chunk = stream.chunk_at(0, 10);
    assert!(chunk.bytes.is_empty());
    assert!(!chunk.eof);
}

#[test]
fn value_encoding_is_bytes() {
    let chunk = ByteChunk { bytes: vec![1, 2, 3], offset: 0, eof: false };
    assert_eq!(chunk.into_value(), Value::Bytes(vec![1, 2, 3]));
}

#[test]
fn push_after_finish_is_dropped() {
    let mut log = TailBuffer::new();
    assert!(log.push(1));
    log.finish();
    assert!(!log.push(2));
    assert_eq!(log.len(), 1);
}

#[test]
fn page_value_encoding() {
    let page = TailPage { items: vec![Value::from(1i64)], next: 1, done: true };
    let value = page.into_value();
    let map = match value {
        Value::Object(m) => m,
        _ => panic!("expected map"),
    };
    assert_eq!(map.get("next"), Some(&Value::Integer(1)));
    assert_eq!(map.get("status"), Some(&Value::from("done")));
    assert!(matches!(map.get("items"), Some(Value::Array(a)) if a.len() == 1));
}

#[test]
fn handle_path_component_is_valid() {
    let p = handle_path(7);
    assert_eq!(p.to_string(), "outstanding/7");
    let _ = PathComponent::try_new("outstanding").unwrap();
}

#[test]
fn chunk_reads_a_range_and_reports_eof() {
    let mut stream = ByteBuffer::new();
    assert!(stream.push(b"hello"));
    stream.close();
    let first = stream.chunk_at(0, 3);
    assert_eq!(first.bytes, b"hel".to_vec());
    assert!(!first.eof);
    assert_eq!(first.next_offset(), 3);
    let rest = stream.chunk_at(3, 10);
    assert_eq!(rest.bytes, b"lo".to_vec());
    assert!(rest.eof);
    let past = stream.chunk_at(99, 10);
    assert!(past.bytes.is_empty());
    assert_eq!(past.offset, 5);
    assert!(past.eof);
}

#[test]
fn tail_page_from_cursor() {
    let mut log = TailBuffer::new();
    assert!(log.push(10));
    assert!(log.push(20));
    assert!(log.push(30));
    let page = log.page_from(1);
    assert_eq!(page.items, vec![20, 30]);
    assert_eq!(page.next, 3);
    assert!(!page.done);
    assert!(!log.ready_from(3));
    log.finish();
    assert!(log.ready_from(3));
    let end = log.page_from(3);
    assert!(end.items.is_empty());
    assert!(end.done);
}

fn p(s: &str) -> Path {
    Path::parse(s).unwrap()
}

#[test]
fn stream_reads_are_routed() {
    assert_eq!(route_stream_read(&p("rx/5")), StreamRead::Receive(5));
    assert_eq!(route_stream_read(&p("rx/many")), StreamRead::BadSize);
    assert_eq!(route_stream_read(&p("ready/read")), StreamRead::Ready(true, false));
    assert_eq!(route_stream_read(&p("ready/write")), StreamRead::Ready(false, true));
    assert_eq!(route_stream_read(&p("ready/both")), StreamRead::Ready(true, true));
    assert_eq!(route_stream_read(&p("ready/never")), StreamRead::Unknown);
    assert_eq!(route_stream_read(&p("tx")), StreamRead::Unknown);
}

#[test]
fn stream_writes_are_routed() {
    assert_eq!(route_stream_write(&Path::root(), Value::Null), StreamWrite::Release);
    assert_eq!(route_stream_write(&p("shutdown"), Value::Null), StreamWrite::Shutdown);
    assert_eq!(route_stream_write(&p("tx"), Value::Bytes(vec![1, 2])), StreamWrite::Send(vec![1, 2]));
    assert_eq!(route_stream_write(&p("tx"), Value::Integer(1)), StreamWrite::NotBytes);
    assert_eq!(route_stream_write(&p("shutdown"), Value::Integer(1)), StreamWrite::Unknown);
    assert_eq!(route_stream_write(&Path::root(), Value::Integer(1)), StreamWrite::Unknown);
}

#[test]
fn readiness_is_reported_as_a_map() {
    let r = StreamReadiness { readable_bytes: 3, writable_bytes: 5, eof: false, write_closed: true, released: false };
    let v = readiness_value(&r);
    let m = match v {
        Value::Object(m) => m,
        _ => panic!("expected map"),
    };
    assert_eq!(m.get("readable_bytes"), Some(&Value::Integer(3)));
    assert_eq!(m.get("writable_bytes"), Some(&Value::Integer(5)));
    assert_eq!(m.get("eof"), Some(&Value::Bool(false)));
    assert_eq!(m.get("write_closed"), Some(&Value::Bool(true)));
    assert_eq!(m.get("released"), Some(&Value::Bool(false)));
}

#[test]
fn handle_table_mints_fresh_ids_and_releases() {
    let mut table: HandleTable<&str> = HandleTable::new();
    let a = table.take_id();
    let b = table.take_id();
    assert_eq!((a, b), (0, 1));
    table.store(b, "second");
    table.store(a, "first");
    assert_eq!(table.ids(), vec![0, 1]);
    assert_eq!(table.get(0), Some(&"first"));
    assert_eq!(table.release(0), Some("first"));
    assert_eq!(table.release(0), None);
    assert_eq!(table.get(0), None);
    assert_eq!(table.get(1), Some(&"second"));
    assert_eq!(table.release(42), None);
    assert_eq!(table.len(), 1);
    assert_eq!(table.take_id(), 2);
}

#[test]
fn pipe_read_of_zero_bytes_is_a_conflict() {
    let mut pipe = PipeState::new(4);
    let r = pipe.try_read(0);
    assert_eq!(r.unwrap().unwrap_err().to_string(), "conflict: read size must be positive");
}

#[test]
fn pipe_write_over_capacity_is_refused_at_once() {
    let mut pipe = PipeState::new(4);
    let r = pipe.try_write(b"hello");
    assert_eq!(r.unwrap().unwrap_err().to_string(), "resource limit exceeded: write exceeds stream capacity; chunk it");
    assert!(matches!(pipe.try_write(b"hey"), Some(Ok(()))));
    assert_eq!(pipe.try_read(8).unwrap().unwrap(), b"hey".to_vec());
}

#[test]
fn handle_listing_names_each_handle_path() {
    let listing = handle_listing(&vec![1, 7]);
    let items = match listing {
        Value::Object(m) => m.get("items").cloned().unwrap(),
        _ => panic!("expected a map"),
    };
    assert_eq!(items, Value::Array(vec![Value::from("outstanding/1"), Value::from("outstanding/7")]));
}

#[test]
fn handle_table_lists_live_ids_in_increasing_order() {
    let mut table: HandleTable<u8> = HandleTable::new();
    let ids: Vec<u64> = (0..4).map(|_| table.take_id()).collect();
    table.store(ids[3], 3);
    table.store(ids[1], 1);
    table.store(ids[2], 2);
    table.store(ids[0], 0);
    assert_eq!(table.release(ids[2]), Some(2));
    assert_eq!(table.ids(), vec![0, 1, 3]);
    assert_eq!(table.len(), 3);
}
