# default_index

A commit index for a version control system, verified with Verus. It keeps a
table of commits, parents before their children, in memory and in a stack of
content-addressed files, and answers questions about the commit graph: lookups
by id or by a prefix of an id, ancestry, heads, common ancestors, and walks to
ancestors and descendants, with or without a range of generations.

## Layout

- `src/model.rs` and `src/paths.rs` are the mathematical model that the
  contracts speak of: a sequence of commits, and paths from commits to parents.
- `src/format.rs`, `src/readonly.rs`, `src/loading.rs`, `src/validity.rs` and
  `src/save.rs` are about index files: their bytes, loading one or a stack of
  them, telling whether they hold what an index writes, and making new ones.
- `src/mutable.rs` and `src/merging.rs` hold the commits that are not in a file
  yet, and merge indexes.
- `src/composite.rs`, `src/entry.rs`, `src/ancestry.rs`, `src/queries.rs` and
  `src/stats.rs` answer questions about a stack of segments.
- `src/heap.rs`, `src/queue.rs`, `src/walk.rs`, `src/rev_walk.rs`,
  `src/generation_walk.rs`, `src/descendants.rs` and `src/descendants_index.rs`
  are the walks and what they are made of.
- `src/index.rs` is the index that callers work with.
- `src/laws.rs` states what holds of an index as a whole; the laws of merging are
  in `src/merging.rs`, that of the file format in `src/format.rs`.
- `app/` reads and writes the files.

## What is taken on trust

The contracts of the calls into `byteorder`, `hex`, `blake2` and `smallvec`, and
of `String::from_utf8`, are believed without proof. Each stands in the doc
comment of the function that makes the call.
