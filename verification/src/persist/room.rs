//! Whether the ids of the indices last for what is applied to a registry.
//!
//! An index gives away an id for every vector that is added to it and never takes
//! one back. Nothing else uses one up: not a creation, not a deletion, not an
//! addition that takes no effect, and not an addition to another index.

use vstd::prelude::*;

use crate::persist::op::{Mutation, Op};
use crate::persist::replay::{
    additions_over, block_additions, block_ops, blocks_applied, fitting, mutations, op_applied,
    ops_applied, ops_over, recovered,
};
use crate::persist::snapshot::{Block, SnapBlock};
use crate::vector;
use crate::vector::float::{Float, Operation};
use crate::vector::index;
use crate::vector::index::{Memory, CAPACITY};
use crate::vector::metric::Metric;
use crate::vector::registry::{contents, VectorRegistry};

verus! {

/// How large an index is: the dimension of its vectors, and how many ids it has
/// given away.
pub struct Extent {
    pub dim: nat,
    pub ids: nat,
}

/// How large every index is.
pub type Extents = Map<Seq<u8>, Extent>;

/// How large every index of a registry is.
pub open spec fn extents(m: Map<Seq<u8>, Memory>) -> Extents {
    m.map_values(|x: Memory| Extent { dim: x.dim, ids: x.keys.len() })
}

/// The dimension of an index, if it exists.
pub open spec fn dim_in(e: Extents, name: Seq<u8>) -> Option<nat> {
    if e.contains_key(name) {
        Some(e[name].dim)
    } else {
        None
    }
}

/// Whether an addition takes effect: the index exists, and the bytes hold a vector
/// of its dimension.
pub open spec fn takes(e: Extents, name: Seq<u8>, vec: Seq<u8>) -> bool {
    e.contains_key(name) && fitting(vec, e[name].dim) is Some
}

/// How large every index is after a mutation.
pub open spec fn grown(e: Extents, op: Mutation) -> Extents {
    match op {
        Mutation::New { name, dim, metric } => if Metric::tagged(metric) is Some
            && !e.contains_key(name) {
            e.insert(name, Extent { dim: dim as nat, ids: 0 })
        } else {
            e
        },
        Mutation::Add { name, vec, .. } => if takes(e, name, vec) {
            e.insert(name, Extent { ids: e[name].ids + 1, ..e[name] })
        } else {
            e
        },
        Mutation::Del { .. } => e,
    }
}

/// How large every index is after mutations, one after the other.
pub open spec fn grown_by(e: Extents, ops: Seq<Mutation>) -> Extents
    decreases ops.len(),
{
    if ops.len() == 0 {
        e
    } else {
        grown(grown_by(e, ops.drop_last()), ops.last())
    }
}

/// Whether there is an id for what a mutation adds.
pub open spec fn room(e: Extents, op: Mutation) -> bool {
    match op {
        Mutation::Add { name, vec, .. } => takes(e, name, vec) ==> e[name].ids < CAPACITY,
        _ => true,
    }
}

/// Whether there is an id for everything that mutations, one after the other, add.
pub open spec fn room_for(e: Extents, ops: Seq<Mutation>) -> bool
    decreases ops.len(),
{
    ops.len() == 0 || (room_for(e, ops.drop_last()) && room(
        grown_by(e, ops.drop_last()),
        ops.last(),
    ))
}

/// What a block stands for where the indices are as large as that.
pub open spec fn block_over(e: Extents, b: Block) -> Seq<Mutation> {
    ops_over(dim_in(e, b.name), b)
}

/// How large every index is after the blocks of a snapshot, one after the other.
pub open spec fn grown_by_blocks(e: Extents, blocks: Seq<Block>) -> Extents
    decreases blocks.len(),
{
    if blocks.len() == 0 {
        e
    } else {
        let mid = grown_by_blocks(e, blocks.drop_last());
        grown_by(mid, block_over(mid, blocks.last()))
    }
}

/// Whether there is an id for everything that the blocks of a snapshot, one after
/// the other, add.
pub open spec fn room_for_blocks(e: Extents, blocks: Seq<Block>) -> bool
    decreases blocks.len(),
{
    if blocks.len() == 0 {
        true
    } else {
        let mid = grown_by_blocks(e, blocks.drop_last());
        room_for_blocks(e, blocks.drop_last()) && room_for(mid, block_over(mid, blocks.last()))
    }
}

/// Whether recovery from the blocks of a snapshot and the records of a log finds an
/// id for every vector that it adds.
pub open spec fn enough_ids(blocks: Seq<Block>, records: Seq<Seq<u8>>) -> bool {
    &&& room_for_blocks(Map::empty(), blocks)
    &&& room_for(grown_by_blocks(Map::empty(), blocks), mutations(records))
}

/// How large the indices are is known without applying anything.
pub proof fn law_mutation_grows_the_registry<
    A: Fn(Operation<'_>) -> Float,
    L: Fn(u64, u64, usize) -> u8,
>(
    arith: A,
    level_of: L,
    before: Map<Seq<u8>, Memory>,
    op: Mutation,
    after: Map<Seq<u8>, Memory>,
)
    requires
        op_applied(arith, level_of, before, op, after),
    ensures
        extents(after) == grown(extents(before), op),
{
    let e = extents(before);
    match op {
        Mutation::New { name, dim, metric } => {
            assert(extents(after) =~= grown(e, op));
        },
        Mutation::Add { name, key, vec } => {
            if takes(e, name, vec) {
                let v = fitting(vec, before[name].dim)->0;
                let m = choose|m: Memory| #[trigger]
                    index::added(arith, level_of, before[name], m, key, v) && after
                        == before.insert(name, m);
                let (stored, level) = choose|stored: Seq<Float>, level: nat| #[trigger]
                    index::added_as(arith, level_of, before[name], m, key, v, stored, level);
                assert(m.keys.len() == before[name].keys.len() + 1);
            }
            assert(extents(after) =~= grown(e, op));
        },
        Mutation::Del { name, key } => {
            assert(extents(after) =~= grown(e, op));
        },
    }
}

/// How large the indices are after mutations is known without applying them.
pub proof fn law_mutations_grow_the_registry<
    A: Fn(Operation<'_>) -> Float,
    L: Fn(u64, u64, usize) -> u8,
>(
    arith: A,
    level_of: L,
    before: Map<Seq<u8>, Memory>,
    ops: Seq<Mutation>,
    after: Map<Seq<u8>, Memory>,
)
    requires
        ops_applied(arith, level_of, before, ops, after),
    ensures
        extents(after) == grown_by(extents(before), ops),
    decreases ops.len(),
{
    if ops.len() > 0 {
        let mid = choose|mid: Map<Seq<u8>, Memory>|
            ops_applied(arith, level_of, before, ops.drop_last(), mid) && #[trigger] op_applied(
                arith,
                level_of,
                mid,
                ops.last(),
                after,
            );
        law_mutations_grow_the_registry(arith, level_of, before, ops.drop_last(), mid);
        law_mutation_grows_the_registry(arith, level_of, mid, ops.last(), after);
    }
}

/// Where there is an id for everything, there is one at every step.
pub proof fn lemma_room_at(e: Extents, ops: Seq<Mutation>, i: int)
    requires
        room_for(e, ops),
        0 <= i <= ops.len(),
    ensures
        room_for(e, ops.take(i)),
        i < ops.len() ==> room(grown_by(e, ops.take(i)), ops[i]),
    decreases ops.len(),
{
    if i == ops.len() {
        assert(ops.take(i) =~= ops);
    } else if i == ops.len() - 1 {
        assert(ops.take(i) =~= ops.drop_last());
    } else {
        lemma_room_at(e, ops.drop_last(), i);
        assert(ops.drop_last().take(i) =~= ops.take(i));
    }
}

/// Where there is an id for everything in the blocks, there is one for the first of
/// them.
pub proof fn lemma_room_for_start(e: Extents, blocks: Seq<Block>, i: int)
    requires
        room_for_blocks(e, blocks),
        0 <= i <= blocks.len(),
    ensures
        room_for_blocks(e, blocks.take(i)),
    decreases blocks.len(),
{
    if i == blocks.len() {
        assert(blocks.take(i) =~= blocks);
    } else {
        lemma_room_for_start(e, blocks.drop_last(), i);
        assert(blocks.drop_last().take(i) =~= blocks.take(i));
    }
}

/// One more mutation comes on top of those before it.
pub proof fn lemma_room_push(e: Extents, ops: Seq<Mutation>, op: Mutation)
    ensures
        grown_by(e, ops.push(op)) == grown(grown_by(e, ops), op),
        room_for(e, ops.push(op)) == (room_for(e, ops) && room(grown_by(e, ops), op)),
{
    assert(ops.push(op).drop_last() =~= ops);
}

/// Mutations that were applied found an id for everything that they added.
pub proof fn law_applied_mutations_found_ids<
    A: Fn(Operation<'_>) -> Float,
    L: Fn(u64, u64, usize) -> u8,
>(
    arith: A,
    level_of: L,
    before: Map<Seq<u8>, Memory>,
    ops: Seq<Mutation>,
    after: Map<Seq<u8>, Memory>,
)
    requires
        ops_applied(arith, level_of, before, ops, after),
    ensures
        room_for(extents(before), ops),
    decreases ops.len(),
{
    if ops.len() > 0 {
        let op = ops.last();
        let mid = choose|mid: Map<Seq<u8>, Memory>|
            ops_applied(arith, level_of, before, ops.drop_last(), mid) && #[trigger] op_applied(
                arith,
                level_of,
                mid,
                op,
                after,
            );
        law_applied_mutations_found_ids(arith, level_of, before, ops.drop_last(), mid);
        law_mutations_grow_the_registry(arith, level_of, before, ops.drop_last(), mid);
        law_mutation_grows_the_registry(arith, level_of, mid, op, after);
        if let Mutation::Add { name, vec, .. } = op {
            if takes(extents(mid), name, vec) {
                assert(extents(after)[name].ids == extents(mid)[name].ids + 1);
                assert(extents(after).contains_key(name));
                assert(after[name].wf());
            }
        }
    }
}

/// A snapshot that was applied found an id for everything that it added.
proof fn lemma_applied_blocks_found_ids<
    A: Fn(Operation<'_>) -> Float,
    L: Fn(u64, u64, usize) -> u8,
>(
    arith: A,
    level_of: L,
    before: Map<Seq<u8>, Memory>,
    blocks: Seq<Block>,
    after: Map<Seq<u8>, Memory>,
)
    requires
        blocks_applied(arith, level_of, before, blocks, after),
    ensures
        extents(after) == grown_by_blocks(extents(before), blocks),
        room_for_blocks(extents(before), blocks),
    decreases blocks.len(),
{
    if blocks.len() > 0 {
        let b = blocks.last();
        let mid = choose|mid: Map<Seq<u8>, Memory>|
            blocks_applied(arith, level_of, before, blocks.drop_last(), mid)
                && #[trigger] ops_applied(
                arith,
                level_of,
                mid,
                block_ops(contents(mid), b),
                after,
            );
        lemma_applied_blocks_found_ids(arith, level_of, before, blocks.drop_last(), mid);
        assert(block_ops(contents(mid), b) == block_over(extents(mid), b));
        law_mutations_grow_the_registry(arith, level_of, mid, block_ops(contents(mid), b), after);
        law_applied_mutations_found_ids(arith, level_of, mid, block_ops(contents(mid), b), after);
    }
}

/// What was recovered once is recovered again: the ids last.
pub proof fn law_recovered_registry_found_ids<
    A: Fn(Operation<'_>) -> Float,
    L: Fn(u64, u64, usize) -> u8,
>(
    arith: A,
    level_of: L,
    blocks: Seq<Block>,
    records: Seq<Seq<u8>>,
    after: Map<Seq<u8>, Memory>,
)
    requires
        recovered(arith, level_of, blocks, records, after),
    ensures
        enough_ids(blocks, records),
{
    let base = choose|base: Map<Seq<u8>, Memory>| #[trigger]
        blocks_applied(arith, level_of, Map::empty(), blocks, base) && ops_applied(
            arith,
            level_of,
            base,
            mutations(records),
            after,
        );
    assert(extents(Map::empty()) =~= Map::empty());
    lemma_applied_blocks_found_ids(arith, level_of, Map::empty(), blocks, base);
    law_applied_mutations_found_ids(arith, level_of, base, mutations(records), after);
}

/// How many ids a block takes of a new index.
proof fn lemma_block_takes(e: Extents, b: Block, i: int)
    requires
        !e.contains_key(b.name),
        Metric::tagged(b.metric) is Some,
        0 <= i <= b.entries.len() <= CAPACITY,
    ensures
        room_for(e, additions_over(b).take(i + 1)),
        grown_by(e, additions_over(b).take(i + 1)).dom() == e.dom().insert(b.name),
        grown_by(e, additions_over(b).take(i + 1))[b.name].ids <= i,
    decreases i,
{
    let ops = additions_over(b);
    if i == 0 {
        lemma_room_push(e, seq![], ops[0]);
        assert(ops.take(1) =~= Seq::<Mutation>::empty().push(ops[0]));
        assert(grown_by(e, ops.take(1)).dom() =~= e.dom().insert(b.name));
    } else {
        lemma_block_takes(e, b, i - 1);
        let now = grown_by(e, ops.take(i));
        assert(ops[i] == block_additions(b)[i - 1]);
        lemma_room_push(e, ops.take(i), ops[i]);
        assert(ops.take(i + 1) =~= ops.take(i).push(ops[i]));
        assert(now.dom().contains(b.name));
        assert(grown(now, ops[i]).dom() =~= now.dom());
    }
}

/// There is an id for everything in blocks of different names that are no longer
/// than an index can be.
pub proof fn law_blocks_of_new_indices_find_ids(blocks: Seq<Block>)
    requires
        forall|i: int, j: int|
            0 <= i < j < blocks.len() ==> (#[trigger] blocks[i]).name != (
            #[trigger] blocks[j]).name,
        forall|i: int|
            0 <= i < blocks.len() ==> Metric::tagged((#[trigger] blocks[i]).metric) is Some
                && blocks[i].entries.len() <= CAPACITY,
    ensures
        room_for_blocks(Map::empty(), blocks),
        forall|name: Seq<u8>| #[trigger]
            grown_by_blocks(Map::empty(), blocks).contains_key(name) ==> exists|i: int|
                0 <= i < blocks.len() && (#[trigger] blocks[i]).name == name,
    decreases blocks.len(),
{
    if blocks.len() > 0 {
        let less = blocks.drop_last();
        let b = blocks.last();
        law_blocks_of_new_indices_find_ids(less);
        let mid = grown_by_blocks(Map::empty(), less);
        assert(!mid.contains_key(b.name)) by {
            if mid.contains_key(b.name) {
                let i = choose|i: int| 0 <= i < less.len() && (#[trigger] less[i]).name == b.name;
                assert(blocks[i].name != blocks[blocks.len() - 1].name);
            }
        }
        assert(b == blocks[blocks.len() - 1]);
        lemma_block_takes(mid, b, b.entries.len() as int);
        assert(additions_over(b).take(b.entries.len() as int + 1) =~= additions_over(b));
        let all = grown_by_blocks(Map::empty(), blocks);
        assert forall|name: Seq<u8>| #[trigger] all.contains_key(name) implies exists|i: int|
            0 <= i < blocks.len() && (#[trigger] blocks[i]).name == name by {
            if name == b.name {
                assert(blocks[blocks.len() - 1].name == name);
            } else {
                assert(all.dom().contains(name));
                assert(mid.contains_key(name));
                let i = choose|i: int| 0 <= i < less.len() && (#[trigger] less[i]).name == name;
                assert(blocks[i].name == name);
            }
        }
    }
}

/// Whether there is an id for a vector that is added to an index, or it takes no
/// effect.
pub fn addition_has_room(registry: &VectorRegistry, name: &[u8], vec: &[u8]) -> (r: bool)
    requires
        registry.wf(),
    ensures
        r == (takes(extents(registry@), name@, vec@) ==> extents(registry@)[name@].ids < CAPACITY),
{
    match registry.get(name) {
        Some(index) => !index.is_full() || match vector::decode(vec) {
            Some(v) => v.len() != index.dim(),
            None => true,
        },
        None => true,
    }
}

impl Op {
    /// Whether there is an id for what the mutation adds to a registry.
    pub fn has_room(&self, registry: &VectorRegistry) -> (r: bool)
        requires
            registry.wf(),
        ensures
            r == room(extents(registry@), self@),
    {
        match self {
            Op::Add { name, vec, .. } => {
                addition_has_room(registry, name.as_slice(), vec.as_slice())
            },
            _ => true,
        }
    }
}

/// Whether there is an id for everything that a block of a snapshot adds to a
/// registry.
pub fn block_has_room(registry: &VectorRegistry, block: &SnapBlock) -> (r: bool)
    requires
        registry.wf(),
    ensures
        r == room_for(extents(registry@), block_over(extents(registry@), block@)),
{
    let ghost e = extents(registry@);
    let ghost b = block@;
    let ghost ops = block_over(e, b);
    if Metric::from_u8(block.metric).is_none() {
        return true;
    }
    let dim: usize = block.dim as usize;
    let mut left: u64 = CAPACITY;
    if let Some(index) = registry.get(block.name.as_slice()) {
        if index.dim() != dim {
            return true;
        }
        left = index.ids_left();
    }
    let ghost creation = Mutation::New { name: b.name, dim: b.dim, metric: b.metric };
    assert(ops == additions_over(b));
    proof {
        lemma_room_push(e, seq![], creation);
        assert(ops.take(1) =~= Seq::<Mutation>::empty().push(creation));
    }
    let mut i: usize = 0;
    while i < block.entries.len()
        invariant
            e == extents(registry@),
            b == block@,
            ops == block_over(e, b),
            dim == b.dim,
            ops == additions_over(b),
            i <= block.entries@.len(),
            left <= CAPACITY,
            room_for(e, ops.take(i + 1)),
            ({
                let now = grown_by(e, ops.take(i + 1));
                now.contains_key(b.name) && now[b.name] == (Extent {
                    dim: dim as nat,
                    ids: (CAPACITY - left) as nat,
                })
            }),
        decreases block.entries@.len() - i,
    {
        let (key, vec) = &block.entries[i];
        proof {
            let op = Mutation::Add { name: b.name, key: key@, vec: vec@ };
            assert(b.entries[i as int] == (key@, vec@));
            assert(ops[i + 1] == op) by {
                assert(block_additions(b)[i as int] == op);
            }
            assert(ops.take(i + 2) =~= ops.take(i + 1).push(op));
            lemma_room_push(e, ops.take(i + 1), op);
        }
        if let Some(v) = vector::decode(vec.as_slice()) {
            if v.len() == dim {
                if left == 0 {
                    proof {
                        if room_for(e, ops) {
                            lemma_room_at(e, ops, i + 2);
                        }
                    }
                    return false;
                }
                left = left - 1;
            }
        }
        i += 1;
    }
    assert(ops.take(i + 1) =~= ops);
    true
}

/// There is an id for a vector as long as its index has given away fewer than there
/// are numbers of 32 bits.
pub proof fn law_ids_are_numbers_of_32_bits(e: Extents, name: Seq<u8>, key: Seq<u8>, vec: Seq<u8>)
    ensures
        room(e, Mutation::Add { name, key, vec }) <==> (takes(e, name, vec) ==> e[name].ids
            < 0x1_0000_0000),
{
}

} // verus!
