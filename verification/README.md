# crystal-sphinx (verified core)

The data structures and rules of a voxel game's world and entity replication, written in
Verus with contracts that the verifier proves. The two outside calls it cannot read, a slice
swap of std and a random draw of `rand`, stand behind small trusted wrappers.

- `src/common/utility/` — `MultiSet` (a map from keys to sets of values) and the sectioned
  vector `VecSectioned` with its `RangeSet`, `Section` and `OrderedHashMap` parts.
- `src/common/world/` — points and chunk coordinates, world chunks with the deltas they tell
  their listener, the flat world generator, and the database of loaded chunks.
- `src/entity/` — components (camera, relevancy, owners) and systems: which chunks and entities
  are relevant to each connection, the operations the replicator sends, and the record it keeps
  of which entities are relevant to which connection.
- `tests/` — tests of the library.
- `app/` — what stays outside the verifier: floating-point ordering of chunks by distance.
