# raftvec

Vector search over a sharded, replicated, in-memory corpus. A collection's records are spread over
shards by a hash of their ids; every shard is a Raft group of replicas; a search asks every shard's
leader for its exact top `k` by cosine similarity and merges the answers.

The library under `src/` is verified with Verus: what every function returns or changes is stated
in its contract and proved. Floating point numbers are held as their binary32 bit patterns. The
library ranks, stores and merges them; the two floating point operations that scoring needs come
in as a `Kernel`.

| Modules | |
|---|---|
| `record`, `ranking`, `topk` | records, scored ids, their order; what a top `k` is; the bounded heap |
| `similarity`, `search` | cosine similarity over a kernel; the parallel scan |
| `sharding`, `spread` | which shard an id belongs to; how evenly ids spread |
| `collection`, `store` | what collections hold and how requests change them; the node's store |
| `log`, `raft`, `spike` | the replicated log, a shard's state machine, and a small replicated map |
| `message`, `node`, `network`, `metrics` | a replica's requests, replies, failures and reports |
| `failover`, `router`, `gather`, `aggregator` | finding leaders, routing, merging answers |
| `cluster` | why the shards together hold and answer what one node would |
| `address`, `text`, `cli` | addresses, text, the client's arguments |

`app/` is the program around the library: gRPC transport, consensus by openraft, the command line.
`tests/` runs the library with real floating point arithmetic.
