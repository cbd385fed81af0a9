# dfs

The servers of a distributed file system: a metadata service that is replicated
by Raft and split into shards, a configuration service that keeps the map of the
shards, and a gateway that speaks S3.

`src/` holds the logic, verified with Verus:

- `raft/`: elections, log replication, snapshots, membership changes, and what a
  node asks its surroundings to do. `laws`, `durable`, `cluster` and `safety`
  state what holds of a node, of its disk and of a whole cluster: at most one
  leader per term, logs that match, and committed entries that stay.
- `master/`: files and blocks, placement on racks, repair, balancing, tiering,
  safe mode, renames within and across shards.
- `shards`: the configuration service.
- `s3/`: objects, listings, authentication, sessions and the audit log.
- `text`, `words`, `parse`, `sorting`, `strmap`, `bytes`, `ids`, `clock`: what
  the others build on.

A node or a service never does input or output itself. It takes a message, a
request or the time, and returns what to send, to write and to answer; `app/`
does that. Every function states what it returns and changes; what the library
has from other crates stands behind small functions whose comments say what is
taken on trust.

`tests/` runs the library on concrete values.
