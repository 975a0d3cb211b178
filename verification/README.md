# esplorashrew

An Esplora-compatible indexer for a Bitcoin node's secondary-indexer runtime,
written in Verus. Each block is parsed and indexed into an append-only
key-value store; view functions answer Esplora queries from that store.

## Layout

- `src/` — the verified library.
  - `encoding.rs` — fixed-width little/big-endian integers.
  - `block.rs` — the block and transaction wire format: compact sizes,
    headers, transactions (with and without witness data), txid, wtxid,
    size and weight, hex; the wire format is modelled by spec functions and
    every parser is proved against them.
  - `keys.rs` — the key schema, proved collision-free.
  - `types.rs` — the records the index stores.
  - `indexer.rs` — the key-value pairs a block produces.
  - `store.rs` — the key-value store: a log of writes whose view is a map in
    which the latest write of a key holds.
  - `reads.rs` — what the store holds after a block is indexed: the tip, the
    block's height entry, metadata, transaction list, transaction records,
    UTXO records and spending records read back as written, and every key the
    block does not write keeps its value.
  - `views.rs` — request decoding and the Esplora views.
  - `flush.rs` — the protobuf `KeyValueFlush` message handed to the host.
  - `lib.rs` — the block entry point's logic: splitting the input and
    indexing a block into a store.
- `app/` — the WebAssembly side: host ABI bindings, the block entry point,
  view exports, and the JSON forms of the records.
- `tests/` — tests of the parser, the indexer and the views.

SHA-256 comes from `sha2` and the protobuf wire encoding from `prost`, each
behind a small trusted wrapper whose contract names or states its result.
