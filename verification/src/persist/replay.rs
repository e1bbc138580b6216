//! What applying logged mutations and snapshot blocks makes of a registry.

use vstd::prelude::*;

use crate::codec;
use crate::persist::op::{decoded, Mutation, Op};
use crate::persist::room;
use crate::persist::room::extents;
use crate::persist::snapshot::{Block, SnapBlock};
use crate::vector;
use crate::vector::float;
use crate::vector::float::{Float, Operation};
use crate::vector::hnsw;
use crate::vector::index;
use crate::vector::index::Memory;
use crate::vector::metric;
use crate::vector::metric::Metric;
use crate::vector::registry::{contents, Contents, VectorRegistry};

verus! {

/// What every index holds is in order.
pub open spec fn sound(m: Map<Seq<u8>, Memory>) -> bool {
    forall|name: Seq<u8>| #[trigger] m.contains_key(name) ==> m[name].wf()
}

/// The vector that an addition to an index of dimension `dim` adds: the one that
/// its bytes hold, if they hold one of that dimension.
pub open spec fn fitting(vec: Seq<u8>, dim: nat) -> Option<Seq<Float>> {
    match vector::unpacked(vec) {
        Some(v) => if v.len() == dim {
            Some(v)
        } else {
            None
        },
        None => None,
    }
}

/// Whether applying an addition may turn `before` into `after`.
pub open spec fn addition_applied<A: Fn(Operation<'_>) -> Float, L: Fn(u64, u64, usize) -> u8>(
    arith: A,
    level_of: L,
    before: Map<Seq<u8>, Memory>,
    name: Seq<u8>,
    key: Seq<u8>,
    vec: Seq<u8>,
    after: Map<Seq<u8>, Memory>,
) -> bool {
    if before.contains_key(name) && fitting(vec, before[name].dim) is Some {
        exists|m: Memory| #[trigger]
            index::added(
                arith,
                level_of,
                before[name],
                m,
                key,
                fitting(vec, before[name].dim)->0,
            ) && after == before.insert(name, m)
    } else {
        after == before
    }
}

/// Whether applying `op` may turn `before` into `after`. A creation takes effect
/// if its metric is known and the name is free; an addition if the index exists
/// and the bytes hold a vector of its dimension; a deletion if the index exists.
pub open spec fn op_applied<A: Fn(Operation<'_>) -> Float, L: Fn(u64, u64, usize) -> u8>(
    arith: A,
    level_of: L,
    before: Map<Seq<u8>, Memory>,
    op: Mutation,
    after: Map<Seq<u8>, Memory>,
) -> bool {
    &&& sound(after)
    &&& match op {
        Mutation::New { name, dim, metric } => match Metric::tagged(metric) {
            Some(m) => after == if before.contains_key(name) {
                before
            } else {
                before.insert(name, Memory::fresh(dim as nat, m))
            },
            None => after == before,
        },
        Mutation::Add { name, key, vec } => addition_applied(
            arith,
            level_of,
            before,
            name,
            key,
            vec,
            after,
        ),
        Mutation::Del { name, key } => after == if before.contains_key(name) {
            before.insert(name, before[name].without(key))
        } else {
            before
        },
    }
}

/// Whether applying the mutations, one after the other, may turn `before` into
/// `after`.
pub open spec fn ops_applied<A: Fn(Operation<'_>) -> Float, L: Fn(u64, u64, usize) -> u8>(
    arith: A,
    level_of: L,
    before: Map<Seq<u8>, Memory>,
    ops: Seq<Mutation>,
    after: Map<Seq<u8>, Memory>,
) -> bool
    decreases ops.len(),
{
    if ops.len() == 0 {
        after == before
    } else {
        exists|mid: Map<Seq<u8>, Memory>|
            ops_applied(arith, level_of, before, ops.drop_last(), mid) && #[trigger] op_applied(
                arith,
                level_of,
                mid,
                ops.last(),
                after,
            )
    }
}

/// The additions of the entries of a block.
pub open spec fn block_additions(b: Block) -> Seq<Mutation> {
    b.entries.map_values(
        |e: (Seq<u8>, Seq<u8>)| Mutation::Add { name: b.name, key: e.0, vec: e.1 },
    )
}

/// The creation of the index of a block and the additions of its entries.
pub open spec fn additions_over(b: Block) -> Seq<Mutation> {
    seq![Mutation::New { name: b.name, dim: b.dim, metric: b.metric }] + block_additions(b)
}

/// What a block of a snapshot stands for: the creation of its index and the
/// addition of its entries, or nothing if its metric is not known or its name is
/// taken by an index of another dimension. `taken` is the dimension of the index
/// that has its name, if there is one.
pub open spec fn ops_over(taken: Option<nat>, b: Block) -> Seq<Mutation> {
    if Metric::tagged(b.metric) is None || (taken matches Some(dim) && dim != b.dim) {
        seq![]
    } else {
        additions_over(b)
    }
}

/// What a block of a snapshot stands for over what is known of the indices.
pub open spec fn block_ops(known: Map<Seq<u8>, Contents>, b: Block) -> Seq<Mutation> {
    ops_over(
        if known.contains_key(b.name) {
            Some(known[b.name].dim)
        } else {
            None
        },
        b,
    )
}

/// Whether applying the blocks of a snapshot, one after the other, may turn
/// `before` into `after`.
pub open spec fn blocks_applied<A: Fn(Operation<'_>) -> Float, L: Fn(u64, u64, usize) -> u8>(
    arith: A,
    level_of: L,
    before: Map<Seq<u8>, Memory>,
    blocks: Seq<Block>,
    after: Map<Seq<u8>, Memory>,
) -> bool
    decreases blocks.len(),
{
    if blocks.len() == 0 {
        after == before
    } else {
        exists|mid: Map<Seq<u8>, Memory>|
            blocks_applied(arith, level_of, before, blocks.drop_last(), mid)
                && #[trigger] ops_applied(
                arith,
                level_of,
                mid,
                block_ops(contents(mid), blocks.last()),
                after,
            )
    }
}

/// The mutations that records say; a record that says none is passed over.
pub open spec fn mutations(records: Seq<Seq<u8>>) -> Seq<Mutation>
    decreases records.len(),
{
    if records.len() == 0 {
        seq![]
    } else {
        let rest = mutations(records.drop_last());
        match decoded(records.last()) {
            Some(op) => rest.push(op),
            None => rest,
        }
    }
}

/// Whether recovery from the blocks of a snapshot and the records of a log may
/// give `after`: the blocks make up the base, and what was logged since comes on
/// top.
pub open spec fn recovered<A: Fn(Operation<'_>) -> Float, L: Fn(u64, u64, usize) -> u8>(
    arith: A,
    level_of: L,
    blocks: Seq<Block>,
    records: Seq<Seq<u8>>,
    after: Map<Seq<u8>, Memory>,
) -> bool {
    exists|base: Map<Seq<u8>, Memory>| #[trigger]
        blocks_applied(arith, level_of, Map::empty(), blocks, base) && ops_applied(
            arith,
            level_of,
            base,
            mutations(records),
            after,
        )
}

impl Op {
    /// Applies the mutation to a registry. What cannot take effect is passed
    /// over.
    pub fn apply<A: Fn(Operation<'_>) -> Float, L: Fn(u64, u64, usize) -> u8>(
        self,
        registry: &mut VectorRegistry,
        arith: &A,
        level_of: &L,
    )
        requires
            old(registry).wf(),
            room::room(extents(old(registry)@), self@),
            float::computes(*arith),
            hnsw::levels(*level_of),
        ensures
            final(registry).wf(),
            op_applied(*arith, *level_of, old(registry)@, self@, final(registry)@),
    {
        proof {
            registry.lemma_names();
        }
        match self {
            Op::New { name, dim, metric } => {
                if let Some(m) = Metric::from_u8(metric) {
                    registry.create(name, dim as usize, m);
                }
            },
            Op::Add { name, key, vec } => {
                apply_addition(registry, name.as_slice(), key, vec.as_slice(), arith, level_of);
            },
            Op::Del { name, key } => {
                if let Some(index) = registry.get_mut(name.as_slice()) {
                    index.remove(key.as_slice());
                }
            },
        }
        proof {
            registry.lemma_names();
        }
    }
}

/// Applies an addition to a registry. What cannot take effect is passed over.
fn apply_addition<A: Fn(Operation<'_>) -> Float, L: Fn(u64, u64, usize) -> u8>(
    registry: &mut VectorRegistry,
    name: &[u8],
    key: Vec<u8>,
    vec: &[u8],
    arith: &A,
    level_of: &L,
)
    requires
        old(registry).wf(),
        room::room(
            extents(old(registry)@),
            Mutation::Add { name: name@, key: key@, vec: vec@ },
        ),
        float::computes(*arith),
        hnsw::levels(*level_of),
    ensures
        final(registry).wf(),
        addition_applied(
            *arith,
            *level_of,
            old(registry)@,
            name@,
            key@,
            vec@,
            final(registry)@,
        ),
{
    proof {
        registry.lemma_names();
    }
    if let Some(index) = registry.get_mut(name) {
        if let Some(v) = vector::decode(vec) {
            if v.len() == index.dim() {
                index.add(key, v, arith, level_of);
            }
        }
    }
    proof {
        registry.lemma_names();
        let before = old(registry)@;
        if before.contains_key(name@) {
            let fit = fitting(vec@, before[name@].dim);
            if fit is Some {
                let m = registry@[name@];
                assert(index::added(*arith, *level_of, before[name@], m, key@, fit->0));
                assert(registry@ == before.insert(name@, m));
            } else {
                assert(registry@ =~= before);
            }
        }
    }
}

/// Applies a block of a snapshot to a registry: creates its index and adds its
/// entries. What cannot take effect is passed over.
pub fn apply_snapshot_block<A: Fn(Operation<'_>) -> Float, L: Fn(u64, u64, usize) -> u8>(
    registry: &mut VectorRegistry,
    block: &SnapBlock,
    arith: &A,
    level_of: &L,
)
    requires
        old(registry).wf(),
        room::room_for(
            extents(old(registry)@),
            room::block_over(extents(old(registry)@), block@),
        ),
        float::computes(*arith),
        hnsw::levels(*level_of),
    ensures
        final(registry).wf(),
        ops_applied(
            *arith,
            *level_of,
            old(registry)@,
            block_ops(contents(old(registry)@), block@),
            final(registry)@,
        ),
{
    let ghost before = registry@;
    let ghost b = block@;
    let metric = match Metric::from_u8(block.metric) {
        Some(m) => m,
        None => {
            return ;
        },
    };
    let dim: usize = block.dim as usize;
    if let Some(index) = registry.get(block.name.as_slice()) {
        if index.dim() != dim {
            return ;
        }
    }
    proof {
        registry.lemma_names();
    }
    registry.create(codec::copied(block.name.as_slice()), dim, metric);
    let ghost ops = block_ops(contents(before), b);
    proof {
        registry.lemma_names();
        assert(contents(before).contains_key(b.name) ==> contents(before)[b.name].dim == b.dim);
        assert(ops == additions_over(b));
        let creation = Mutation::New { name: b.name, dim: b.dim, metric: b.metric };
        lemma_ops_push(*arith, *level_of, before, seq![], before, creation, registry@);
        assert(ops.take(1) =~= Seq::<Mutation>::empty().push(creation));
    }
    let mut i: usize = 0;
    while i < block.entries.len()
        invariant
            registry.wf(),
            float::computes(*arith),
            hnsw::levels(*level_of),
            b == block@,
            i <= block.entries@.len(),
            ops.len() == b.entries.len() + 1,
            ops == additions_over(b),
            room::room_for(extents(before), ops),
            ops_applied(*arith, *level_of, before, ops.take(i + 1), registry@),
        decreases block.entries@.len() - i,
    {
        let ghost mid = registry@;
        let (key, vec) = &block.entries[i];
        let ghost op = Mutation::Add { name: b.name, key: key@, vec: vec@ };
        proof {
            assert(b.entries[i as int] == (key@, vec@));
            assert(block_additions(b)[i as int] == op);
            assert(ops[i + 1] == op);
            room::law_mutations_grow_the_registry(
                *arith,
                *level_of,
                before,
                ops.take(i + 1),
                mid,
            );
            room::lemma_room_at(extents(before), ops, i + 1);
        }
        apply_addition(
            registry,
            block.name.as_slice(),
            codec::copied(key.as_slice()),
            vec.as_slice(),
            arith,
            level_of,
        );
        proof {
            registry.lemma_names();
            lemma_ops_push(*arith, *level_of, before, ops.take(i + 1), mid, op, registry@);
            assert(ops.take(i + 2) =~= ops.take(i + 1).push(op));
        }
        i += 1;
    }
    assert(ops.take(i + 1) =~= ops);
}

/// One more mutation comes on top of those before it.
pub proof fn lemma_ops_push<A: Fn(Operation<'_>) -> Float, L: Fn(u64, u64, usize) -> u8>(
    arith: A,
    level_of: L,
    before: Map<Seq<u8>, Memory>,
    ops: Seq<Mutation>,
    mid: Map<Seq<u8>, Memory>,
    op: Mutation,
    after: Map<Seq<u8>, Memory>,
)
    requires
        ops_applied(arith, level_of, before, ops, mid),
        op_applied(arith, level_of, mid, op, after),
    ensures
        ops_applied(arith, level_of, before, ops.push(op), after),
{
    assert(ops.push(op).drop_last() =~= ops);
    assert(ops.push(op).last() == op);
}

} // verus!
