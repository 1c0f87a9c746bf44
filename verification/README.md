# lore

A content-addressed store of immutable fragments, and the services around it, with the rules of the
store proved in Verus.

Content is cut into fragments. A fragment is filed under the hash of its content, in a partition and
a context. Entries of one hash share one payload, which lies in pack files. The store keeps its
entries in sorted buckets that spread as they grow, are written to disk in two phases, and are
evicted, compacted, checked and healed in the background.

## Layout

- `src/` is the verified library. It holds what is decided: no file, socket, clock or task.
  - `types`, `error`, `encoding`, `sorting`: the ground.
  - `local/`: the store on this machine. `bucket`, `store`, `find`, `put`, `copy`, `obliterate`,
    `marks` work on one bucket; `group*` and `fan_out` on the buckets of one first byte;
    `immutable_store`, `queries`, `exist_batch`, `gc`, `verify_fragment` on the whole store.
    `codec` is the format of bucket files, `flush` is the order of writes, `compact` and `upgrade`
    move payloads, `evict` and `evict_sized` choose what goes, `obliterate_walk` is the order in
    which listed fragments go. `whole` states what holds of the store across groups and buckets,
    and `reopen` what is read again of what was flushed.
  - `fragment_engine`, `write`, `hash_file`, `in_flight`, `write_tracker`: writing content.
    `many_writers` states what many writers of one fragment come to together.
  - `maintenance`, `gc_event`, `drop_record`: background work and what it reports.
  - `protocol/copy`, `quic/`, `store/`, `plugins/registry`: messages, servers, replicas and plugins.
- `tests/` runs the library on concrete values.
- `app/` carries the library's decisions out: it reads and writes files, sends and receives, sleeps
  and spawns.

## How operations on disk work

An operation that needs a bucket from disk answers `Step::LoadBucket`. The caller reads the file,
hands it to `load_bucket` and makes the operation again. A bucket is what its file holds; where a
damaged file holds a bucket that is out of order, `bucket_fits` says so, and nothing more can be asked
of the store. Work that takes several steps outside, such
as a flush, a compaction or the write of a fragment, is a value that is asked for the next action and
told what came of it.

Statements that relate several operations are proof functions whose names begin with `law_`.
