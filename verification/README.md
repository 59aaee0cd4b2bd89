# structfs

A uniform read/write interface over paths: every store — in-memory data,
mounted stores, HTTP services — is read and written through validated
paths, and values move between stores as parsed trees or raw bytes.

The library in `src/` is written in Verus. Each public function carries a
contract over a mathematical model of its types (paths as sequences of
component strings, values as a recursive model with maps and sequences,
stores as maps from paths to values), and the library's laws are public
proof functions.

## Layout

- `src/path.rs`, `src/path_order.rs`, `src/path_pattern.rs`, `src/ident.rs`:
  validated paths and components, their order, patterns over them.
- `src/value.rs`, `src/strmap.rs`, `src/format.rs`, `src/record.rs`,
  `src/lazy_record.rs`, `src/reference.rs`: the value tree, records and
  their formats, references between paths.
- `src/traits.rs`, `src/memory_store.rs`, `src/combinators.rs`,
  `src/conformance.rs`: the store traits, the in-memory store, store
  wrappers, and checks of the store conventions.
- `src/path_trie.rs`, `src/overlay_store.rs`, `src/mount_store.rs`:
  routing by longest prefix, redirects, and mounting by configuration.
- `src/ll.rs`, `src/bridge.rs`, `src/async_bridge.rs`: the byte-level
  store layer and the bridges to and from it.
- `src/handles.rs`: handle tables and routing, byte buffers, event logs and
  bounded pipes.
- `src/http_api.rs`, `src/http_client.rs`, `src/broker.rs`: HTTP requests
  and responses, the HTTP client store, and the request brokers as state
  machines.
- `app/`: the runtime around the library — locks, async traits, parked
  reads, serde shapes, and the network side of the HTTP stores.
- `tests/`: tests of the library through its public interface.
