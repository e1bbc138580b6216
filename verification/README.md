# engram

An associative vector memory engine that speaks the Redis wire protocol: named
indices of dense vectors with approximate nearest-neighbour search, a write-ahead
log and compacting snapshots. The library is written in Rust and verified with
Verus; the server around it is ordinary Rust.

## Layout

- `src/` is the library.
  - `vector/` holds the indices: numbers by their bit pattern (`float`), metrics,
    the generator that node levels are drawn from (`rng`), the vector store, the
    graph (`hnsw`, with what it computes stated in `graph`), the index with its
    keys (`index`), every index by name (`registry`), and the proofs that searches
    and insertions come out the same every time (`reproducible`).
  - `persist/` holds the two file formats (`wal`, `snapshot`, and the records in
    `op`), where the next record goes in the log (`log_end`), what the contents of
    the files make of a registry (`replay`, `recovery`), whether the ids last for it
    (`room`), and what they keep of it (`durability`).
  - `command/` holds the commands `VNEW`, `VADD`, `VSEARCH`, `VDEL`, `VINFO` and
    `VSAVE`, and `resp` the format of requests and replies.
  - `server` decides which request of which connection is served next; `state` is
    what the commands work on, and `config` the settings.
  - `bytemap`, `codec` and `text` are what the rest is built from.
- `app/` is the server: sockets, threads, files, and the distance kernels.
- `tests/` runs the library.

## Numbers

The library stores, compares and serialises single-precision numbers but does not
compute with them. Arithmetic arrives as a closure that answers an `Operation`, the
draw of a node level as a closure from a fraction, and the way a distance is
written out as a closure too. Contracts speak of what these closures may answer;
the laws on reproducibility and durability ask that they have a single answer.

## What is proved

- A search returns at most `k` live keys, each once, closest first, with distances
  that were measured; the exhaustive scan returns the nearest ones. So does a search
  as wide as the index if the index has taken no more than 33 vectors or the lowest
  layer of its graph is connected, and where no two keys are equally far from the
  query, both return the same.
- Adding overwrites, removing removes, and nothing else changes.
- What is written to the log and to a snapshot reads back; a torn or corrupt tail
  is ignored, a cut snapshot is refused.
- Whatever a crash or a failed append leaves of the log, the library says where to
  cut it before the next append; every record that was appended whole is then read
  back.
- The log keeps up with the registry, so recovery succeeds and restores what was
  logged, after any number of crashes. A log that is replayed over the snapshot it led to brings
  back the same indices and keys, and each vector as it was held or as the metric
  prepares it once more.
- A connection with a search in flight is served nothing else, and a result never
  reaches another connection.
