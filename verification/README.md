# nomad_core

Static page and file hosting for Nomad Network over Reticulum links, written in
Verus: the functions of the library have contracts that are proved. What is
believed without proof is what a handful of outside calls do (`String::push`,
`String::from_utf8`, SHA-256, hexadecimal encoding, MessagePack decoding); each
stands in one small function whose comment says what is claimed.

The library performs no I/O. What has to be read, written or listed is named as a
request; whoever runs the library carries it out and hands the reply back.
Operations are therefore values (`StoreTask`, `ListTask`, `RebuildTask`,
`SpawnTask`, `ServeTask`) with two methods, `request` and `resume`.

## Layout

- `src/text.rs`, `decimal.rs`, `components.rs`, `order.rs`, `field_map.rs`: text,
  numbers, path components, byte order, a small ordered map.
- `src/error.rs`, `fs.rs`: errors, and the vocabulary of requests and replies.
- `src/paths.rs`, `micron.rs`, `request.rs`, `announce.rs`, `names.rs`: routes and
  their hashes, Micron pages, form bodies, announces, display names.
- `src/resolve.rs`, `store_task.rs`, `storage.rs`, `listing.rs`: the content store.
- `src/routes.rs`, `rebuild.rs`, `budget.rs`, `stats.rs`, `node.rs`, `spawn.rs`: the
  route table, the request budget, the counters and the node itself.
- `src/disk.rs` models a file system, `listing_laws.rs` a directory tree as a walk
  reads it. The `*_laws.rs` files, `rebuild.rs` and `spelling.rs` state what whole
  operations do: in the file system, what a read gives back of a write and what a
  request is answered (`store_laws.rs`, `serve_laws.rs`); in a tree, what a listing
  and a route table hold (`listing_laws.rs`, `tree_laws.rs`, `rebuild.rs`); and,
  where a tree shows a directory of the file system, that what was written is
  listed and served (`reload_laws.rs`).
- `app/` is the host: the file system, the serialisable copies of the library's
  types, and the node on a live transport.
- `tests/` runs the library against a file system in memory.
