# expanse

A verified Verus library around a sparse, ordered set of 64-bit keys: the
node layouts of an expanse-partitioned digital tree (edges, leaves,
immediates, branch forms and the conversions between them), search, rank
and select over such a trie held in an arena, an ordered set and an ordered
`u64` map kept as strictly ascending key vectors (with the tree/root-leaf
form recorded as a flag), a blob arena and metadata sidecars, the
optimistic concurrency protocol, and epoch-based reclamation. Building and
changing a trie (insertion and removal) is not part of the library.

Layout:

- `src/` — the library; every item is verified by Verus.
  - `set.rs`, `map.rs`, `sorted.rs`: the ordered set and map over a strictly
    ascending key model, the set algebra, rank/select and range counting,
    with the laws that relate them.
  - `types.rs`, `node.rs`, `bits.rs`, `types32.rs`, `node32.rs`: edge tags,
    edges and node layouts.
  - `mutate.rs`, `mutate_map.rs`, `nav.rs`, `branch_forms.rs`: packed keys,
    leaves and immediates, narrow pointers, branch slot maintenance, the
    conversions between branch forms, and forward and backward search over
    a trie held in an arena.
  - `rank.rs`: the keys of a trie in walk order, counting the keys below a
    suffix and selecting the key of a given rank, with the laws tying them
    to each other and to search.
  - `occ.rs`, `occ32.rs`, `occ_stats.rs`: version words, lock sets, the
    writer gate, the epoch collector, and the protocol counters.
  - `blobmap.rs`, `poc_sidecar.rs`: the blob arena and the sidecar maps.
- `tests/` — tests run against the compiled library.
- `app/` — process-wide plumbing that Verus does not check: per-thread
  counter slots, the cycle counter, iterator adapters and a thread-shared
  collector.
