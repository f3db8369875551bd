# pg-am-hnsw

A vector index of the HNSW family, verified with Verus: a layered graph of
neighbor lists on the pages of a store with a write-ahead log, and graphs in
memory that are saved to and loaded from snapshot files.

- `src/` is the library. Its contracts speak of byte sequences, page
  sequences and log records. Laws that span functions stand beside them:
  - `entry_laws`, `layout`, `soundness`: what operations on pages do to
    entries, and to the graph that they hold.
  - `index_laws`, `graph_laws`, `search_laws`: an insertion adds its node and
    the chosen edges, and keeps the graph in order.
  - `open_laws`, `audit_laws`: reads give the graph, reopening gives the same
    handle, and the audit accepts exactly the graphs in order.
  - `redo_laws`, `recovery_laws`, `crash_laws`: replay can be repeated, the
    log gives the pages, and an insertion can stop anywhere and be opened
    again.
  - `image_laws`: since a checkpoint, a page is logged whole before a record
    changes it.
  - `encoding_laws`: round trips of the snapshot format.
- `tests/` runs the library on concrete values.
- `app/` is what surrounds it: floating-point distances, files, and errors
  with `Display`.

Vectors are carried as the bits of their `f32` components. Which nodes are
near is decided outside, through the `GraphSearch` trait; whatever it answers,
the index keeps its contracts.

Two functions are trusted, both around `crc32fast`: the CRC32 of some bytes, and
the CRC32 of bytes that follow others whose CRC32 is known.
