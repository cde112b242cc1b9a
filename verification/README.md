# cairn

A key-value store and a consensus core, in Verus: ordinary Rust whose behaviour
is stated in contracts and proved.

- `src/kv`: a store on the local disk. Writes go to a checksummed log and to an
  ordered table in memory; full tables are written out, found again through a
  filter, and merged.
- `src/raft`: single-group consensus. Elections with a pre-vote round,
  replication, membership changes, snapshots, reads that a majority vouches
  for; the log and the hard state as bytes; messages as bytes; a network in
  memory with faults to order; a checker for linearizable histories.
- `src/frame.rs`, `src/bytes.rs`, `src/text.rs`, `src/error.rs`: what both
  halves share.
- `tests`: whole clusters and stores run under faults, and the edge cases of
  every format.
- `app`: files, clocks and sockets around the library.

The library never touches a file or a socket. Where a file is read it takes the
bytes; where one is to be written it says what to write and is told when that
is done.

Each module states its data as a mathematical model, and its functions by what
they do to the model. `raft/node/stops.rs` says where a store that fails leaves
a node. What holds across functions stands as public proof functions: in
`kv/engine_laws.rs` that a write is read back and that a crash loses nothing, in
`kv/engine_runs.rs` that any sequence of calls leaves the store equal to a map,
in `kv/memtable_laws.rs` what a table answers after any puts, in
`raft/node/laws.rs`, `raft/node/vote_laws.rs` and `raft/node/quorum_laws.rs`
what every step of a node keeps. `raft/cluster/life.rs`, `applying.rs` and
`reading.rs` follow one node through any calls and restarts: one vote per term,
elections won by what was granted, every committed entry handed out once and in
order, reads answered only under a leadership that a majority affirmed.
`raft/transport/intake.rs` takes a message in field by field and refuses it at
the first that is wrong. The rest of `raft/cluster` puts nodes together over a
network that loses, delays, reorders and repeats, with nodes that stop and start
again and voters that come and go: no term has two leaders, logs that agree
somewhere agree on everything before, leaders hold what is committed, and no two
nodes commit different entries at one index. `extents.rs` says what a leader
keeps of the requests it has in flight, and `answers.rs` under which deliveries
it may count on their answers. Each of these laws says in its `requires` what it
takes.

Two calls are taken on trust: the checksum of `crc32fast`, of which nothing is
used but that equal bytes have equal checksums, and the reservation of memory
for an incoming message.
