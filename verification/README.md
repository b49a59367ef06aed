# zettacache

A cache of the blocks of an object store on local disks, written in Verus.

Blocks are found through an index that is stored on disk and merged with the changes that are
kept in memory; space for blocks and for the index comes from slabs; checkpoints make the state
durable. The library in `src/` holds the data structures and all decisions, with their contracts
and proofs. `app/` runs it: it reads and writes the disks, encodes what is stored, and runs the
tasks.

## Layout

- `base_types`, `pool_id`, `features`: identifiers, locations and extents on disks, and the
  features that a cache can have.
- `range_tree`, `bitmap_range_iterator`, `vec_map`, `binary_index_tree`: collections.
- `block_access`, `aggregating_writer`: what is known of the disks, the framing of chunks, and
  the order in which writes are made.
- `slab_allocator`, `extent_allocator`: which parts of the disks are in use.
- `block_based_log`, `space_map`: logs of entries in chunks that fill slabs.
- `block_allocator`: blocks in slabs, how they are recorded, how slabs are emptied and disks are
  removed, and reports about slabs.
- `index`, `atime_histogram`, `lru_cache`, `pending_changes`: the index, and what is kept in
  memory beside it.
- `merge`, `zettacache`: lookups, insertions, eviction, and the merge of changes into a new
  index.
- `checkpoint`, `superblock`, `open`: what is stored, and how a cache is found again.

Laws that relate several functions are public proof functions whose names start with `law_`.

What can be set when a cache runs is passed to the functions that depend on it; the values that
are used are in `app/`.

Time, randomness, and the codecs and collections of other crates are reached through small
trusted functions, each with the contract that the rest relies on. Disks and floating point are
left to `app/`.
