//! Rebuilding the registry from its files, and what is written to them.

use vstd::prelude::*;

use crate::codec;
use crate::persist::log_end::LogEnd;
use crate::persist::op::{Mutation, Op};
use crate::persist::replay;
use crate::persist::replay::{block_ops, mutations, ops_applied};
use crate::persist::room;
use crate::persist::room::{
    enough_ids, extents, grown_by_blocks, room_for, room_for_blocks, Extent,
};
use crate::persist::snapshot;
use crate::persist::snapshot::{block_views, entry_views, Block, SnapBlock, SnapshotError};
use crate::persist::wal;
use crate::vector;
use crate::vector::float;
use crate::vector::float::{Float, Operation};
use crate::vector::hnsw;
use crate::vector::index;
use crate::vector::index::Memory;
use crate::vector::metric::Metric;
use crate::vector::registry::{contents, VectorRegistry};

verus! {

/// The blocks that the bytes of a snapshot file hold, if it exists and is one. A
/// file that does not exist holds none.
pub open spec fn blocks_of(file: Option<&[u8]>) -> Option<Seq<Block>> {
    match file {
        Some(bytes) => snapshot::parsed(bytes@),
        None => Some(seq![]),
    }
}

/// The records that the bytes of a log file hold. A file that does not exist
/// holds none.
pub open spec fn records_of(file: Option<&[u8]>) -> Seq<Seq<u8>> {
    match file {
        Some(bytes) => wal::records(bytes@),
        None => seq![],
    }
}

/// How many bytes the intact records of a log file take up, and how many there
/// are in all.
pub open spec fn extent_of(file: Option<&[u8]>) -> (nat, nat) {
    match file {
        Some(bytes) => (wal::intact(bytes@), bytes@.len()),
        None => (0, 0),
    }
}

/// What was read from the files.
pub struct Recovery {
    blocks: Vec<SnapBlock>,
    records: Vec<Vec<u8>>,
    intact: usize,
    len: usize,
}

impl Recovery {
    /// The blocks of the snapshot.
    pub closed spec fn blocks(&self) -> Seq<Block> {
        block_views(self.blocks@)
    }

    /// The records of the log.
    pub closed spec fn records(&self) -> Seq<Seq<u8>> {
        wal::contents(self.records@)
    }

    /// How many bytes of the log its intact records take up, and how many it has
    /// in all.
    pub closed spec fn extent(&self) -> (nat, nat) {
        (self.intact as nat, self.len as nat)
    }

    /// Whether there is an id for every vector that recovery adds.
    pub open spec fn has_ids(&self) -> bool {
        enough_ids(self.blocks(), self.records())
    }

    /// Reads the bytes of a snapshot file and of a log file, of which either may
    /// be missing. A snapshot file that is no snapshot is an error; a log is read
    /// up to its first torn or corrupt record.
    pub fn load(snapshot_file: Option<&[u8]>, log_file: Option<&[u8]>) -> (r: Result<
        Recovery,
        SnapshotError,
    >)
        ensures
            match r {
                Ok(rec) => {
                    &&& blocks_of(snapshot_file) == Some(rec.blocks())
                    &&& records_of(log_file) == rec.records()
                    &&& extent_of(log_file) == rec.extent()
                },
                Err(e) => e == SnapshotError::Corrupt && blocks_of(snapshot_file) is None,
            },
    {
        let blocks = match snapshot::read(snapshot_file) {
            Ok(blocks) => blocks,
            Err(e) => return Err(e),
        };
        match log_file {
            Some(bytes) => {
                let (records, intact) = wal::scan(bytes);
                Ok(Recovery { blocks, records, intact, len: bytes.len() })
            },
            None => {
                let records: Vec<Vec<u8>> = Vec::new();
                assert(wal::contents(records@) =~= seq![]);
                Ok(Recovery { blocks, records, intact: 0, len: 0 })
            },
        }
    }

    /// Where the next record goes in the log. Everything behind that has to be
    /// cut off first, for no record behind it would be read.
    pub fn log_end(&self) -> (r: LogEnd)
        ensures
            r.len == self.extent().0,
            r.torn == (self.extent().0 < self.extent().1),
    {
        LogEnd::new(self.intact, self.len)
    }

    /// Rebuilds the registry: the snapshot is the base, and everything logged
    /// since comes on top. Nothing is logged again. There is none if an index runs
    /// out of ids on the way.
    pub fn restore<A: Fn(Operation<'_>) -> Float, L: Fn(u64, u64, usize) -> u8>(
        &self,
        arith: &A,
        level_of: &L,
    ) -> (r: Option<VectorRegistry>)
        requires
            float::computes(*arith),
            hnsw::levels(*level_of),
        ensures
            r is Some <==> self.has_ids(),
            r matches Some(registry) ==> {
                &&& registry.wf()
                &&& replay::recovered(
                    *arith,
                    *level_of,
                    self.blocks(),
                    self.records(),
                    registry@,
                )
            },
    {
        let ghost all = self.blocks();
        let ghost none = Map::<Seq<u8>, Extent>::empty();
        let mut registry = VectorRegistry::new();
        let ghost empty = registry@;
        let mut i: usize = 0;
        assert(all.take(0) =~= seq![]);
        assert(extents(empty) =~= none);
        while i < self.blocks.len()
            invariant
                float::computes(*arith),
                hnsw::levels(*level_of),
                registry.wf(),
                all == self.blocks(),
                none == Map::<Seq<u8>, Extent>::empty(),
                i <= self.blocks@.len(),
                replay::blocks_applied(*arith, *level_of, empty, all.take(i as int), registry@),
                extents(registry@) == grown_by_blocks(none, all.take(i as int)),
                room_for_blocks(none, all.take(i as int)),
            decreases self.blocks@.len() - i,
        {
            let ghost mid = registry@;
            let ghost part = all.take(i + 1);
            proof {
                assert(part.drop_last() =~= all.take(i as int));
                assert(part.last() == self.blocks@[i as int]@);
            }
            if !room::block_has_room(&registry, &self.blocks[i]) {
                proof {
                    if room_for_blocks(none, all) {
                        room::lemma_room_for_start(none, all, i + 1);
                    }
                }
                return None;
            }
            replay::apply_snapshot_block(&mut registry, &self.blocks[i], arith, level_of);
            proof {
                let ops = block_ops(contents(mid), part.last());
                assert(ops == room::block_over(extents(mid), part.last()));
                room::law_mutations_grow_the_registry(*arith, *level_of, mid, ops, registry@);
            }
            i += 1;
        }
        assert(all.take(i as int) =~= all);
        let ghost base = registry@;
        let ghost records = self.records();
        let ghost e = extents(base);
        let mut j: usize = 0;
        assert(mutations(records.take(0)) =~= seq![]);
        while j < self.records.len()
            invariant
                float::computes(*arith),
                hnsw::levels(*level_of),
                registry.wf(),
                all == self.blocks(),
                records == self.records(),
                e == extents(base),
                e == grown_by_blocks(Map::empty(), all),
                j <= self.records@.len(),
                ops_applied(
                    *arith,
                    *level_of,
                    base,
                    mutations(records.take(j as int)),
                    registry@,
                ),
                room_for(e, mutations(records.take(j as int))),
            decreases self.records@.len() - j,
        {
            let ghost mid = registry@;
            let ghost said = mutations(records.take(j as int));
            proof {
                let part = records.take(j + 1);
                assert(part.drop_last() =~= records.take(j as int));
                assert(part.last() == self.records@[j as int]@);
                room::law_mutations_grow_the_registry(*arith, *level_of, base, said, mid);
            }
            if let Some(op) = Op::decode(self.records[j].as_slice()) {
                let ghost now = op@;
                proof {
                    room::lemma_room_push(e, said, now);
                }
                if !op.has_room(&registry) {
                    proof {
                        if room_for(e, mutations(records)) {
                            lemma_said(records, j + 1);
                            room::lemma_room_at(
                                e,
                                mutations(records),
                                mutations(records.take(j + 1)).len() as int,
                            );
                        }
                    }
                    return None;
                }
                op.apply(&mut registry, arith, level_of);
                proof {
                    replay::lemma_ops_push(
                        *arith,
                        *level_of,
                        base,
                        said,
                        mid,
                        now,
                        registry@,
                    );
                }
            }
            j += 1;
        }
        proof {
            assert(records.take(j as int) =~= records);
            assert(replay::blocks_applied(*arith, *level_of, Map::empty(), all, base));
        }
        Some(registry)
    }
}

/// What the first records say comes first.
proof fn lemma_said(records: Seq<Seq<u8>>, i: int)
    requires
        0 <= i <= records.len(),
    ensures
        mutations(records.take(i)).len() <= mutations(records).len(),
        mutations(records).take(mutations(records.take(i)).len() as int) == mutations(
            records.take(i),
        ),
    decreases records.len(),
{
    let first = mutations(records.take(i));
    if i == records.len() {
        assert(records.take(i) =~= records);
        assert(first.take(first.len() as int) =~= first);
    } else {
        let less = records.drop_last();
        lemma_said(less, i);
        assert(less.take(i) =~= records.take(i));
        assert(mutations(records).take(first.len() as int) =~= mutations(less).take(
            first.len() as int,
        ));
    }
}

/// Entries as a block holds them: the vectors packed.
pub open spec fn saved_entries(pairs: Seq<(Seq<u8>, Seq<Float>)>) -> Seq<(Seq<u8>, Seq<u8>)> {
    pairs.map_values(|e: (Seq<u8>, Seq<Float>)| (e.0, vector::packed(e.1)))
}

/// The block that holds an index: its live entries only, in the order of their
/// ids.
pub open spec fn saved_block(name: Seq<u8>, memory: Memory) -> Block {
    Block {
        name,
        dim: (memory.dim % 0x1_0000_0000) as u32,
        metric: memory.metric.tag(),
        entries: saved_entries(memory.pairs()),
    }
}

/// The blocks that hold the indices, in the order of their names.
pub open spec fn saved(names: Seq<Seq<u8>>, m: Map<Seq<u8>, Memory>) -> Seq<Block> {
    names.map_values(|name: Seq<u8>| saved_block(name, m[name]))
}

/// The bytes of the snapshot file that holds a registry.
pub fn save(registry: &VectorRegistry) -> (r: Vec<u8>)
    requires
        registry.wf(),
    ensures
        r@ == snapshot::layout(saved(registry.names(), registry@)),
{
    let indices = registry.iter();
    let ghost names = registry.names();
    let mut blocks: Vec<SnapBlock> = Vec::new();
    let mut i: usize = 0;
    while i < indices.len()
        invariant
            i <= indices@.len(),
            names == registry.names(),
            indices@.len() == names.len(),
            forall|j: int|
                0 <= j < indices@.len() ==> {
                    &&& (#[trigger] indices@[j]).0@ == names[j]
                    &&& indices@[j].1.wf()
                    &&& indices@[j].1@ == registry@[names[j]]
                },
            blocks@.len() == i,
            forall|j: int|
                0 <= j < i ==> (#[trigger] blocks@[j])@ == saved_block(
                    names[j],
                    registry@[names[j]],
                ),
        decreases indices@.len() - i,
    {
        let (name, index) = indices[i];
        blocks.push(
            SnapBlock {
                name: codec::copied(name.as_slice()),
                dim: codec::short_len(index.dim()),
                metric: index.metric().to_u8(),
                entries: packed_entries(index),
            },
        );
        i += 1;
    }
    assert(block_views(blocks@) =~= saved(names, registry@));
    snapshot::write(blocks.as_slice())
}

/// The live entries of an index with their vectors packed.
fn packed_entries(index: &index::Index) -> (r: Vec<(Vec<u8>, Vec<u8>)>)
    requires
        index.wf(),
    ensures
        entry_views(r@) == saved_entries(index@.pairs()),
{
    let pairs = index.entries();
    let mut out: Vec<(Vec<u8>, Vec<u8>)> = Vec::new();
    let mut i: usize = 0;
    while i < pairs.len()
        invariant
            i <= pairs@.len(),
            out@.len() == i,
            forall|j: int|
                0 <= j < i ==> (#[trigger] out@[j]).0@ == pairs@[j].0@ && out@[j].1@
                    == vector::packed(pairs@[j].1@),
        decreases pairs@.len() - i,
    {
        let (key, v) = pairs[i];
        out.push((codec::copied(key), vector::encode(v)));
        i += 1;
    }
    proof {
        let all = index::pair_views(pairs@);
        assert forall|j: int| 0 <= j < out@.len() implies entry_views(out@)[j] == saved_entries(
            all,
        )[j] by {
            assert(all[j] == (pairs@[j].0@, pairs@[j].1@));
        }
        assert(entry_views(out@) =~= saved_entries(all));
    }
    out
}

/// What is appended to the log for the creation of an index.
pub fn log_new(name: &[u8], dim: usize, metric: Metric) -> (r: Vec<u8>)
    ensures
        r@ == wal::framed(
            (Mutation::New {
                name: name@,
                dim: (dim as nat % 0x1_0000_0000) as u32,
                metric: metric.tag(),
            }).encoded(),
        ),
{
    let record = Op::encode_new(name, codec::short_len(dim), metric.to_u8());
    wal::frame(record.as_slice())
}

/// What is appended to the log for an inserted vector. `vec` is the packed
/// payload as received.
pub fn log_add(name: &[u8], key: &[u8], vec: &[u8]) -> (r: Vec<u8>)
    ensures
        r@ == wal::framed(
            (Mutation::Add { name: name@, key: key@, vec: vec@ }).encoded(),
        ),
{
    let record = Op::encode_add(name, key, vec);
    wal::frame(record.as_slice())
}

/// What is appended to the log for a deletion.
pub fn log_del(name: &[u8], key: &[u8]) -> (r: Vec<u8>)
    ensures
        r@ == wal::framed((Mutation::Del { name: name@, key: key@ }).encoded()),
{
    let record = Op::encode_del(name, key);
    wal::frame(record.as_slice())
}

/// A file that exists is read for what it holds, and one that does not exist holds
/// nothing.
pub proof fn law_missing_files_hold_nothing(bytes: &[u8])
    ensures
        blocks_of(None) == Some(Seq::<Block>::empty()),
        records_of(None) == Seq::<Seq<u8>>::empty(),
        blocks_of(Some(bytes)) == snapshot::parsed(bytes@),
        records_of(Some(bytes)) == wal::records(bytes@),
{
}

} // verus!
