//! What the files keep of a registry.
//!
//! A snapshot holds no graphs: they are rebuilt from the live keys when it is read
//! and may come out differently linked. What it keeps is what the clients see:
//! which indices there are, and for each its dimension, its metric, and its live
//! keys with their vectors.
//!
//! Everything here is said of arithmetic that has a single answer to each
//! operation, so that the vector that is stored for a payload is always the same.

use vstd::prelude::*;

use crate::codec;
use crate::persist::op::{law_records_round_trip, Mutation};
use crate::persist::recovery::{saved, saved_block, saved_entries};
use crate::persist::replay::{
    block_additions, block_ops, blocks_applied, fitting, lemma_ops_push, mutations, op_applied,
    ops_applied, recovered, sound,
};
use crate::persist::room::{
    enough_ids, law_blocks_of_new_indices_find_ids, law_recovered_registry_found_ids,
};
use crate::persist::snapshot;
use crate::persist::snapshot::Block;
use crate::persist::wal;
use crate::vector;
use crate::vector::float;
use crate::vector::float::{Float, Operation};
use crate::vector::index;
use crate::vector::index::{live_ids, Memory, CAPACITY};
use crate::vector::metric;
use crate::vector::metric::Metric;
use crate::vector::registry::{contents, Contents};
use crate::vector::reproducible::{law_add_is_reproducible, single_level};

verus! {

/// What every index holds as its clients see it.
pub type Shelves = Map<Seq<u8>, Contents>;

/// The vector that is stored under a metric for `v`.
pub open spec fn prepared<A: Fn(Operation<'_>) -> Float>(
    arith: A,
    metric: Metric,
    v: Seq<Float>,
) -> Seq<Float> {
    choose|w: Seq<Float>| metric::gives_prepared(arith, metric, v, w)
}

impl Contents {
    /// What a new index holds.
    pub open spec fn fresh(dim: nat, metric: Metric) -> Contents {
        Contents { dim, metric, entries: Map::empty() }
    }

    /// The same with a key leading to a vector.
    pub open spec fn with(self, key: Seq<u8>, v: Seq<Float>) -> Contents {
        Contents { entries: self.entries.insert(key, v), ..self }
    }

    /// The same without a key.
    pub open spec fn without(self, key: Seq<u8>) -> Contents {
        Contents { entries: self.entries.remove(key), ..self }
    }
}

/// What a mutation makes of what the clients see.
pub open spec fn step<A: Fn(Operation<'_>) -> Float>(arith: A, c: Shelves, op: Mutation) -> Shelves {
    match op {
        Mutation::New { name, dim, metric } => match Metric::tagged(metric) {
            Some(m) => if c.contains_key(name) {
                c
            } else {
                c.insert(name, Contents::fresh(dim as nat, m))
            },
            None => c,
        },
        Mutation::Add { name, key, vec } => {
            if c.contains_key(name) && fitting(vec, c[name].dim) is Some {
                c.insert(
                    name,
                    c[name].with(
                        key,
                        prepared(arith, c[name].metric, fitting(vec, c[name].dim)->0),
                    ),
                )
            } else {
                c
            }
        },
        Mutation::Del { name, key } => if c.contains_key(name) {
            c.insert(name, c[name].without(key))
        } else {
            c
        },
    }
}

/// What mutations, one after the other, make of what the clients see.
pub open spec fn steps<A: Fn(Operation<'_>) -> Float>(
    arith: A,
    c: Shelves,
    ops: Seq<Mutation>,
) -> Shelves
    decreases ops.len(),
{
    if ops.len() == 0 {
        c
    } else {
        step(arith, steps(arith, c, ops.drop_last()), ops.last())
    }
}

/// What the blocks of a snapshot, one after the other, make of what the clients
/// see.
pub open spec fn block_steps<A: Fn(Operation<'_>) -> Float>(
    arith: A,
    c: Shelves,
    blocks: Seq<Block>,
) -> Shelves
    decreases blocks.len(),
{
    if blocks.len() == 0 {
        c
    } else {
        let mid = block_steps(arith, c, blocks.drop_last());
        steps(arith, mid, block_ops(mid, blocks.last()))
    }
}

/// Applying a mutation has one effect on what the clients see.
pub proof fn law_mutation_has_one_effect<
    A: Fn(Operation<'_>) -> Float,
    L: Fn(u64, u64, usize) -> u8,
>(
    arith: A,
    level_of: L,
    before: Map<Seq<u8>, Memory>,
    op: Mutation,
    after: Map<Seq<u8>, Memory>,
)
    requires
        float::deterministic(arith),
        sound(before),
        op_applied(arith, level_of, before, op, after),
    ensures
        contents(after) == step(arith, contents(before), op),
{
    let c = contents(before);
    match op {
        Mutation::New { name, dim, metric } => {
            if Metric::tagged(metric) is Some && !before.contains_key(name) {
                let m = Metric::tagged(metric)->0;
                assert(Memory::fresh(dim as nat, m).entries() =~= Map::empty());
                assert(contents(after) =~= c.insert(name, Contents::fresh(dim as nat, m)));
            }
        },
        Mutation::Add { name, key, vec } => {
            if before.contains_key(name) && fitting(vec, before[name].dim) is Some {
                let v = fitting(vec, before[name].dim)->0;
                let old = before[name];
                let m = choose|m: Memory| #[trigger]
                    index::added(arith, level_of, old, m, key, v) && after == before.insert(name, m);
                index::law_add_sets_the_entry(arith, level_of, old, m, key, v);
                let stored = choose|stored: Seq<Float>| #[trigger]
                    metric::gives_prepared(arith, old.metric, v, stored) && m.entries()
                        == old.entries().insert(key, stored);
                metric::law_deterministic_arithmetic_gives_deterministic_distances(
                    arith,
                    old.metric,
                    v,
                    v,
                );
                assert(prepared(arith, old.metric, v) == stored);
                assert(contents(after) =~= c.insert(name, c[name].with(key, stored)));
            }
        },
        Mutation::Del { name, key } => {
            if before.contains_key(name) {
                index::law_remove_drops_the_entry(before[name], key);
                assert(contents(after) =~= c.insert(name, c[name].without(key)));
            }
        },
    }
}

/// Applying mutations, one after the other, has one effect on what the clients
/// see.
pub proof fn law_mutations_have_one_effect<
    A: Fn(Operation<'_>) -> Float,
    L: Fn(u64, u64, usize) -> u8,
>(
    arith: A,
    level_of: L,
    before: Map<Seq<u8>, Memory>,
    ops: Seq<Mutation>,
    after: Map<Seq<u8>, Memory>,
)
    requires
        float::deterministic(arith),
        sound(before),
        ops_applied(arith, level_of, before, ops, after),
    ensures
        sound(after),
        contents(after) == steps(arith, contents(before), ops),
    decreases ops.len(),
{
    if ops.len() > 0 {
        let mid = choose|mid: Map<Seq<u8>, Memory>|
            ops_applied(arith, level_of, before, ops.drop_last(), mid) && #[trigger] op_applied(
                arith,
                level_of,
                mid,
                ops.last(),
                after,
            );
        law_mutations_have_one_effect(arith, level_of, before, ops.drop_last(), mid);
        law_mutation_has_one_effect(arith, level_of, mid, ops.last(), after);
    }
}

/// Applying the blocks of a snapshot has one effect on what the clients see.
pub proof fn law_snapshot_has_one_effect<
    A: Fn(Operation<'_>) -> Float,
    L: Fn(u64, u64, usize) -> u8,
>(
    arith: A,
    level_of: L,
    before: Map<Seq<u8>, Memory>,
    blocks: Seq<Block>,
    after: Map<Seq<u8>, Memory>,
)
    requires
        float::deterministic(arith),
        sound(before),
        blocks_applied(arith, level_of, before, blocks, after),
    ensures
        sound(after),
        contents(after) == block_steps(arith, contents(before), blocks),
    decreases blocks.len(),
{
    if blocks.len() > 0 {
        let mid = choose|mid: Map<Seq<u8>, Memory>|
            blocks_applied(arith, level_of, before, blocks.drop_last(), mid)
                && #[trigger] ops_applied(
                arith,
                level_of,
                mid,
                block_ops(contents(mid), blocks.last()),
                after,
            );
        law_snapshot_has_one_effect(arith, level_of, before, blocks.drop_last(), mid);
        law_mutations_have_one_effect(
            arith,
            level_of,
            mid,
            block_ops(contents(mid), blocks.last()),
            after,
        );
    }
}

/// Applying mutations comes out the same every time, down to the links of the
/// graphs.
pub proof fn law_mutations_are_reproducible<
    A: Fn(Operation<'_>) -> Float,
    L: Fn(u64, u64, usize) -> u8,
>(
    arith: A,
    level_of: L,
    before: Map<Seq<u8>, Memory>,
    ops: Seq<Mutation>,
    a: Map<Seq<u8>, Memory>,
    b: Map<Seq<u8>, Memory>,
)
    requires
        float::deterministic(arith),
        single_level(level_of),
        sound(before),
        ops_applied(arith, level_of, before, ops, a),
        ops_applied(arith, level_of, before, ops, b),
    ensures
        sound(a),
        a == b,
    decreases ops.len(),
{
    if ops.len() > 0 {
        let less = ops.drop_last();
        let op = ops.last();
        let p = choose|mid: Map<Seq<u8>, Memory>|
            ops_applied(arith, level_of, before, less, mid) && #[trigger] op_applied(
                arith,
                level_of,
                mid,
                op,
                a,
            );
        let q = choose|mid: Map<Seq<u8>, Memory>|
            ops_applied(arith, level_of, before, less, mid) && #[trigger] op_applied(
                arith,
                level_of,
                mid,
                op,
                b,
            );
        law_mutations_are_reproducible(arith, level_of, before, less, p, q);
        if let Mutation::Add { name, key, vec } = op {
            if p.contains_key(name) && fitting(vec, p[name].dim) is Some {
                let v = fitting(vec, p[name].dim)->0;
                let x = choose|m: Memory| #[trigger]
                    index::added(arith, level_of, p[name], m, key, v) && a == p.insert(name, m);
                let y = choose|m: Memory| #[trigger]
                    index::added(arith, level_of, p[name], m, key, v) && b == p.insert(name, m);
                law_add_is_reproducible(arith, level_of, p[name], key, v, x, y);
            }
        }
    }
}

proof fn lemma_blocks_agree<A: Fn(Operation<'_>) -> Float, L: Fn(u64, u64, usize) -> u8>(
    arith: A,
    level_of: L,
    before: Map<Seq<u8>, Memory>,
    blocks: Seq<Block>,
    a: Map<Seq<u8>, Memory>,
    b: Map<Seq<u8>, Memory>,
)
    requires
        float::deterministic(arith),
        single_level(level_of),
        sound(before),
        blocks_applied(arith, level_of, before, blocks, a),
        blocks_applied(arith, level_of, before, blocks, b),
    ensures
        sound(a),
        a == b,
    decreases blocks.len(),
{
    if blocks.len() > 0 {
        let less = blocks.drop_last();
        let last = blocks.last();
        let p = choose|mid: Map<Seq<u8>, Memory>|
            blocks_applied(arith, level_of, before, less, mid) && #[trigger] ops_applied(
                arith,
                level_of,
                mid,
                block_ops(contents(mid), last),
                a,
            );
        let q = choose|mid: Map<Seq<u8>, Memory>|
            blocks_applied(arith, level_of, before, less, mid) && #[trigger] ops_applied(
                arith,
                level_of,
                mid,
                block_ops(contents(mid), last),
                b,
            );
        lemma_blocks_agree(arith, level_of, before, less, p, q);
        law_mutations_are_reproducible(
            arith,
            level_of,
            p,
            block_ops(contents(p), last),
            a,
            b,
        );
    }
}

/// Recovery from the same files comes out the same every time, down to the links
/// of the graphs.
pub proof fn law_recovery_is_reproducible<
    A: Fn(Operation<'_>) -> Float,
    L: Fn(u64, u64, usize) -> u8,
>(
    arith: A,
    level_of: L,
    blocks: Seq<Block>,
    records: Seq<Seq<u8>>,
    a: Map<Seq<u8>, Memory>,
    b: Map<Seq<u8>, Memory>,
)
    requires
        float::deterministic(arith),
        single_level(level_of),
        recovered(arith, level_of, blocks, records, a),
        recovered(arith, level_of, blocks, records, b),
    ensures
        a == b,
{
    let ops = mutations(records);
    let p = choose|base: Map<Seq<u8>, Memory>| #[trigger]
        blocks_applied(arith, level_of, Map::empty(), blocks, base) && ops_applied(
            arith,
            level_of,
            base,
            ops,
            a,
        );
    let q = choose|base: Map<Seq<u8>, Memory>| #[trigger]
        blocks_applied(arith, level_of, Map::empty(), blocks, base) && ops_applied(
            arith,
            level_of,
            base,
            ops,
            b,
        );
    lemma_blocks_agree(arith, level_of, Map::empty(), blocks, p, q);
    law_mutations_are_reproducible(arith, level_of, p, ops, a, b);
}

/// The records that log the mutations.
pub open spec fn encodings(ops: Seq<Mutation>) -> Seq<Seq<u8>> {
    ops.map_values(|op: Mutation| op.encoded())
}

/// Whether every mutation can be written down and read back.
pub open spec fn loggable(ops: Seq<Mutation>) -> bool {
    forall|i: int|
        0 <= i < ops.len() ==> (#[trigger] ops[i]).fits() && codec::short(ops[i].encoded())
}

/// The records that log mutations say those mutations.
pub proof fn law_logged_mutations_read_back(ops: Seq<Mutation>)
    requires
        loggable(ops),
    ensures
        mutations(encodings(ops)) == ops,
    decreases ops.len(),
{
    let records = encodings(ops);
    if ops.len() > 0 {
        let less = ops.drop_last();
        assert forall|i: int| 0 <= i < less.len() implies (#[trigger] less[i]).fits()
            && codec::short(less[i].encoded()) by {
            assert(less[i] == ops[i]);
        }
        law_logged_mutations_read_back(less);
        assert(records.drop_last() =~= encodings(less));
        let op = ops.last();
        assert(ops[ops.len() - 1] == op);
        assert(records.last() == op.encoded());
        law_records_round_trip(op.encoded(), op);
        codec::lemma_stands_whole(op.encoded());
        assert(ops =~= less.push(op));
    }
}

/// Recovery has one effect on what the clients see.
pub proof fn law_recovery_has_one_effect<
    A: Fn(Operation<'_>) -> Float,
    L: Fn(u64, u64, usize) -> u8,
>(
    arith: A,
    level_of: L,
    blocks: Seq<Block>,
    records: Seq<Seq<u8>>,
    after: Map<Seq<u8>, Memory>,
)
    requires
        float::deterministic(arith),
        recovered(arith, level_of, blocks, records, after),
    ensures
        sound(after),
        contents(after) == steps(
            arith,
            block_steps(arith, Map::empty(), blocks),
            mutations(records),
        ),
{
    let base = choose|base: Map<Seq<u8>, Memory>| #[trigger]
        blocks_applied(arith, level_of, Map::empty(), blocks, base) && ops_applied(
            arith,
            level_of,
            base,
            mutations(records),
            after,
        );
    assert(contents(Map::empty()) =~= Map::empty());
    law_snapshot_has_one_effect(arith, level_of, Map::empty(), blocks, base);
    law_mutations_have_one_effect(arith, level_of, base, mutations(records), after);
}

/// What more records say comes behind what was said.
proof fn lemma_mutations_join(a: Seq<Seq<u8>>, b: Seq<Seq<u8>>)
    ensures
        mutations(a + b) == mutations(a) + mutations(b),
    decreases b.len(),
{
    if b.len() == 0 {
        assert(a + b =~= a);
        assert(mutations(a) + mutations(b) =~= mutations(a));
    } else {
        lemma_mutations_join(a, b.drop_last());
        assert((a + b).drop_last() =~= a + b.drop_last());
        assert(mutations(a + b) =~= mutations(a) + mutations(b));
    }
}

/// More mutations come on top of what the earlier ones made of a registry.
proof fn lemma_ops_join<A: Fn(Operation<'_>) -> Float, L: Fn(u64, u64, usize) -> u8>(
    arith: A,
    level_of: L,
    before: Map<Seq<u8>, Memory>,
    a: Seq<Mutation>,
    mid: Map<Seq<u8>, Memory>,
    b: Seq<Mutation>,
    after: Map<Seq<u8>, Memory>,
)
    requires
        ops_applied(arith, level_of, before, a, mid),
        ops_applied(arith, level_of, mid, b, after),
    ensures
        ops_applied(arith, level_of, before, a + b, after),
    decreases b.len(),
{
    if b.len() == 0 {
        assert(a + b =~= a);
    } else {
        let last = choose|last: Map<Seq<u8>, Memory>|
            ops_applied(arith, level_of, mid, b.drop_last(), last) && #[trigger] op_applied(
                arith,
                level_of,
                last,
                b.last(),
                after,
            );
        lemma_ops_join(arith, level_of, before, a, mid, b.drop_last(), last);
        lemma_ops_push(arith, level_of, before, a + b.drop_last(), last, b.last(), after);
        assert(a + b =~= (a + b.drop_last()).push(b.last()));
    }
}

/// A log that goes on behind its intact records says what it said before and then
/// what was logged. A last append that was torn says nothing.
pub proof fn law_continued_log_reads_back(
    log: Seq<u8>,
    ops: Seq<Mutation>,
    torn: Seq<u8>,
    n: int,
)
    requires
        loggable(ops),
        codec::short(torn),
        0 <= n < wal::framed(torn).len(),
    ensures
        wal::records(
            log.take(wal::intact(log) as int) + (wal::log_of(encodings(ops)) + wal::framed(
                torn,
            ).take(n)),
        ) == wal::records(log) + encodings(ops),
        mutations(wal::records(log) + encodings(ops)) == mutations(wal::records(log)) + ops,
{
    let more = encodings(ops);
    assert forall|i: int| 0 <= i < more.len() implies codec::short(#[trigger] more[i]) by {
        assert(codec::short(ops[i].encoded()));
    }
    let piece = wal::framed(torn).take(n);
    wal::law_cut_log_takes_records(log, more, piece);
    wal::law_torn_tail_is_ignored(seq![], torn, n);
    assert(wal::log_of(seq![]) + piece =~= piece);
    assert(wal::records(log) + more + seq![] =~= wal::records(log) + more);
    lemma_mutations_join(wal::records(log), more);
    law_logged_mutations_read_back(ops);
}

/// What mutations made of a registry that was recovered is what may be recovered
/// from the log that goes on with them, and the ids last for it.
pub proof fn law_logged_registry_is_recoverable<
    A: Fn(Operation<'_>) -> Float,
    L: Fn(u64, u64, usize) -> u8,
>(
    arith: A,
    level_of: L,
    blocks: Seq<Block>,
    log: Seq<u8>,
    opened: Map<Seq<u8>, Memory>,
    ops: Seq<Mutation>,
    torn: Seq<u8>,
    n: int,
    now: Map<Seq<u8>, Memory>,
)
    requires
        loggable(ops),
        codec::short(torn),
        0 <= n < wal::framed(torn).len(),
        recovered(arith, level_of, blocks, wal::records(log), opened),
        ops_applied(arith, level_of, opened, ops, now),
    ensures
        ({
            let all = wal::records(
                log.take(wal::intact(log) as int) + (wal::log_of(encodings(ops)) + wal::framed(
                    torn,
                ).take(n)),
            );
            recovered(arith, level_of, blocks, all, now) && enough_ids(blocks, all)
        }),
{
    let earlier = wal::records(log);
    let all = earlier + encodings(ops);
    law_continued_log_reads_back(log, ops, torn, n);
    let base = choose|base: Map<Seq<u8>, Memory>| #[trigger]
        blocks_applied(arith, level_of, Map::empty(), blocks, base) && ops_applied(
            arith,
            level_of,
            base,
            mutations(earlier),
            opened,
        );
    lemma_ops_join(arith, level_of, base, mutations(earlier), opened, ops, now);
    assert(recovered(arith, level_of, blocks, all, now));
    law_recovered_registry_found_ids(arith, level_of, blocks, all, now);
}

/// A crash loses nothing that was logged. The server was started from a snapshot
/// and a log, whatever an earlier crash had left of that log; the log was cut
/// behind its intact records, and mutations were logged, of which the last append
/// may have been torn. What is recovered then is what the mutations had made of
/// the registry. Where drawing a level has a single result, that holds down to
/// the links of the graphs.
pub proof fn law_recovery_restores_what_was_logged<
    A: Fn(Operation<'_>) -> Float,
    L: Fn(u64, u64, usize) -> u8,
>(
    arith: A,
    level_of: L,
    blocks: Seq<Block>,
    log: Seq<u8>,
    opened: Map<Seq<u8>, Memory>,
    ops: Seq<Mutation>,
    torn: Seq<u8>,
    n: int,
    now: Map<Seq<u8>, Memory>,
    after: Map<Seq<u8>, Memory>,
)
    requires
        float::deterministic(arith),
        loggable(ops),
        codec::short(torn),
        0 <= n < wal::framed(torn).len(),
        recovered(arith, level_of, blocks, wal::records(log), opened),
        ops_applied(arith, level_of, opened, ops, now),
        recovered(
            arith,
            level_of,
            blocks,
            wal::records(
                log.take(wal::intact(log) as int) + (wal::log_of(encodings(ops)) + wal::framed(
                    torn,
                ).take(n)),
            ),
            after,
        ),
    ensures
        contents(after) == contents(now),
        single_level(level_of) ==> after == now,
{
    let all = wal::records(log) + encodings(ops);
    law_continued_log_reads_back(log, ops, torn, n);
    law_logged_registry_is_recoverable(
        arith,
        level_of,
        blocks,
        log,
        opened,
        ops,
        torn,
        n,
        now,
    );
    law_recovery_has_one_effect(arith, level_of, blocks, all, now);
    law_recovery_has_one_effect(arith, level_of, blocks, all, after);
    if single_level(level_of) {
        law_recovery_is_reproducible(arith, level_of, blocks, all, now, after);
    }
}

/// Whether a mutation has something to do: the name to create is free, the vector
/// to add fits, the key to delete is there. Only such mutations are logged.
pub open spec fn effective(c: Shelves, op: Mutation) -> bool {
    match op {
        Mutation::New { name, metric, .. } => Metric::tagged(metric) is Some && !c.contains_key(
            name,
        ),
        Mutation::Add { name, vec, .. } => c.contains_key(name) && fitting(vec, c[name].dim) is Some,
        Mutation::Del { name, key } => c.contains_key(name) && c[name].entries.contains_key(key),
    }
}

/// Whether every mutation has something to do when its turn comes.
pub open spec fn all_effective<A: Fn(Operation<'_>) -> Float>(
    arith: A,
    c: Shelves,
    ops: Seq<Mutation>,
) -> bool {
    forall|i: int|
        0 <= i < ops.len() ==> effective(steps(arith, c, ops.take(i)), #[trigger] ops[i])
}

/// Where a key leads in one of the indices, if anywhere.
spec fn look(c: Shelves, name: Seq<u8>, key: Seq<u8>) -> Option<Seq<Float>> {
    if c.contains_key(name) && c[name].entries.contains_key(key) {
        Some(c[name].entries[key])
    } else {
        None
    }
}

/// Whether a mutation is about a key.
spec fn about(op: Mutation, n: Seq<u8>, k: Seq<u8>) -> bool {
    match op {
        Mutation::New { .. } => false,
        Mutation::Add { name, key, .. } => name == n && key == k,
        Mutation::Del { name, key } => name == n && key == k,
    }
}

/// Whether one of the mutations is about a key.
spec fn touched(ops: Seq<Mutation>, n: Seq<u8>, k: Seq<u8>) -> bool {
    exists|j: int| 0 <= j < ops.len() && about(#[trigger] ops[j], n, k)
}

/// Every index of `a` is one of `b`, of the same dimension and metric.
spec fn extends(a: Shelves, b: Shelves) -> bool {
    forall|name: Seq<u8>| #[trigger]
        a.contains_key(name) ==> b.contains_key(name) && b[name].dim == a[name].dim
            && b[name].metric == a[name].metric
}

proof fn lemma_extends<A: Fn(Operation<'_>) -> Float>(
    arith: A,
    c: Shelves,
    ops: Seq<Mutation>,
    i: int,
)
    requires
        0 <= i <= ops.len(),
    ensures
        extends(steps(arith, c, ops.take(i)), steps(arith, c, ops)),
    decreases ops.len(),
{
    if i == ops.len() {
        assert(ops.take(i) =~= ops);
    } else {
        let less = ops.drop_last();
        assert(less.take(i) =~= ops.take(i));
        lemma_extends(arith, c, less, i);
    }
}

/// Both hold the same indices, of the same dimensions and metrics.
pub open spec fn alike(a: Shelves, b: Shelves) -> bool {
    &&& a.dom() == b.dom()
    &&& forall|name: Seq<u8>| #[trigger]
        a.contains_key(name) ==> b[name].dim == a[name].dim && b[name].metric == a[name].metric
}

/// What has come of a second run of the first `i` mutations, over `again`.
spec fn rerun<A: Fn(Operation<'_>) -> Float>(
    arith: A,
    c: Shelves,
    ops: Seq<Mutation>,
    again: Shelves,
    i: int,
) -> bool {
    let once = steps(arith, c, ops.take(i));
    let twice = steps(arith, again, ops.take(i));
    &&& alike(again, twice)
    &&& forall|n: Seq<u8>, k: Seq<u8>| #[trigger]
        touched(ops.take(i), n, k) ==> once.contains_key(n)
    &&& forall|n: Seq<u8>, k: Seq<u8>| #[trigger]
        look(twice, n, k) == if touched(ops.take(i), n, k) {
            look(once, n, k)
        } else {
            look(again, n, k)
        }
}

proof fn lemma_rerun<A: Fn(Operation<'_>) -> Float>(
    arith: A,
    c: Shelves,
    ops: Seq<Mutation>,
    again: Shelves,
    i: int,
)
    requires
        all_effective(arith, c, ops),
        alike(steps(arith, c, ops), again),
        0 <= i <= ops.len(),
    ensures
        rerun(arith, c, ops, again, i),
    decreases i,
{
    let whole = steps(arith, c, ops);
    if i == 0 {
        assert(ops.take(0) =~= seq![]);
        assert forall|n: Seq<u8>, k: Seq<u8>| !#[trigger] touched(ops.take(0), n, k) by {}
    } else {
        lemma_rerun(arith, c, ops, again, i - 1);
        let less = ops.take(i - 1);
        let some = ops.take(i);
        let op = ops[i - 1];
        assert(some.drop_last() =~= less);
        assert(some.last() == op);
        let once0 = steps(arith, c, less);
        let once = steps(arith, c, some);
        let twice0 = steps(arith, again, less);
        let twice = steps(arith, again, some);
        assert(once == step(arith, once0, op));
        assert(twice == step(arith, twice0, op));
        assert(effective(once0, op));
        lemma_extends(arith, c, ops, i - 1);
        lemma_extends(arith, c, ops, i);
        assert forall|n: Seq<u8>, k: Seq<u8>| #[trigger]
            touched(some, n, k) == (touched(less, n, k) || about(op, n, k)) by {
            lemma_touched_push(less, op, n, k);
            assert(some =~= less.push(op));
        }
        match op {
            Mutation::New { name, dim, metric } => {
                assert(once.contains_key(name));
                assert(whole.contains_key(name));
                assert(again.dom().contains(name));
                assert(twice0.dom().contains(name));
                assert(twice == twice0);
                assert forall|n: Seq<u8>, k: Seq<u8>| #[trigger]
                    look(twice, n, k) == if touched(some, n, k) {
                        look(once, n, k)
                    } else {
                        look(again, n, k)
                    } by {
                    assert(look(twice0, n, k) == if touched(less, n, k) {
                        look(once0, n, k)
                    } else {
                        look(again, n, k)
                    });
                    assert(touched(some, n, k) == touched(less, n, k));
                    if touched(less, n, k) {
                        assert(once0.contains_key(n));
                        assert(n != name);
                    }
                }
            },
            Mutation::Add { name, key, vec } => {
                assert(whole.contains_key(name));
                assert(again.dom().contains(name));
                assert(twice0.dom().contains(name));
                assert(twice0[name].dim == once0[name].dim);
                assert(twice0[name].metric == once0[name].metric);
                lemma_change(arith, c, ops, again, i, once0, once, twice0, twice, op);
                            },
            Mutation::Del { name, key } => {
                assert(whole.contains_key(name));
                assert(again.dom().contains(name));
                assert(twice0.dom().contains(name));
                lemma_change(arith, c, ops, again, i, once0, once, twice0, twice, op);
                            },
        }
    }
}

/// One more mutation is about its own key.
proof fn lemma_touched_push(ops: Seq<Mutation>, op: Mutation, n: Seq<u8>, k: Seq<u8>)
    ensures
        touched(ops.push(op), n, k) == (touched(ops, n, k) || about(op, n, k)),
{
    let all = ops.push(op);
    if touched(ops, n, k) {
        let j = choose|j: int| 0 <= j < ops.len() && about(#[trigger] ops[j], n, k);
        assert(about(all[j], n, k));
    }
    if about(op, n, k) {
        assert(about(all[ops.len() as int], n, k));
    }
    if touched(all, n, k) {
        let j = choose|j: int| 0 <= j < all.len() && about(#[trigger] all[j], n, k);
        if j < ops.len() {
            assert(about(ops[j], n, k));
        }
    }
}

/// An addition or a deletion leaves the same at its key in both runs, and leaves
/// every other key as it was.
proof fn lemma_change<A: Fn(Operation<'_>) -> Float>(
    arith: A,
    c: Shelves,
    ops: Seq<Mutation>,
    again: Shelves,
    i: int,
    once0: Shelves,
    once: Shelves,
    twice0: Shelves,
    twice: Shelves,
    op: Mutation,
)
    requires
        !(op is New),
        0 < i <= ops.len(),
        op == ops[i - 1],
        once == step(arith, once0, op),
        twice == step(arith, twice0, op),
        once == steps(arith, c, ops.take(i)),
        once0 == steps(arith, c, ops.take(i - 1)),
        twice0 == steps(arith, again, ops.take(i - 1)),
        rerun(arith, c, ops, again, i - 1),
        op matches Mutation::Add { name, vec, .. } ==> {
            &&& once0.contains_key(name)
            &&& twice0.contains_key(name)
            &&& fitting(vec, once0[name].dim) is Some
            &&& twice0[name].dim == once0[name].dim
            &&& twice0[name].metric == once0[name].metric
        },
        op matches Mutation::Del { name, .. } ==> once0.contains_key(name) && twice0.contains_key(
            name,
        ),
    ensures
        forall|n: Seq<u8>, k: Seq<u8>| #[trigger]
            touched(ops.take(i), n, k) ==> once.contains_key(n),
        forall|n: Seq<u8>, k: Seq<u8>| #[trigger]
            look(twice, n, k) == if touched(ops.take(i), n, k) {
                look(once, n, k)
            } else {
                look(again, n, k)
            },
        alike(twice0, twice),
{
    let less = ops.take(i - 1);
    let some = ops.take(i);
    assert(some =~= less.push(op));
    assert(twice.dom() =~= twice0.dom());
    assert(once.dom() =~= once0.dom());
    assert forall|n: Seq<u8>, k: Seq<u8>| #[trigger] touched(some, n, k) implies once.contains_key(
        n,
    ) by {
        lemma_touched_push(less, op, n, k);
        if touched(less, n, k) {
            assert(once0.contains_key(n));
        }
    }
    assert forall|n: Seq<u8>, k: Seq<u8>| #[trigger]
        look(twice, n, k) == if touched(some, n, k) {
            look(once, n, k)
        } else {
            look(again, n, k)
        } by {
        lemma_touched_push(less, op, n, k);
        assert(look(twice0, n, k) == if touched(less, n, k) {
            look(once0, n, k)
        } else {
            look(again, n, k)
        });
        if !about(op, n, k) {
            lemma_elsewhere(arith, once0, op, n, k);
            lemma_elsewhere(arith, twice0, op, n, k);
        }
    }
}

/// A mutation leaves every key that it is not about as it was.
proof fn lemma_elsewhere<A: Fn(Operation<'_>) -> Float>(
    arith: A,
    c: Shelves,
    op: Mutation,
    n: Seq<u8>,
    k: Seq<u8>,
)
    requires
        !(op is New),
        !about(op, n, k),
    ensures
        look(step(arith, c, op), n, k) == look(c, n, k),
{
}

/// A log that is replayed on top of what it had already led to is harmless. Over
/// anything that holds the same indices with the same keys, every key that the log
/// speaks of leads to what the log had led to, and every other key stays.
pub proof fn law_redundant_log_is_harmless<
    A: Fn(Operation<'_>) -> Float,
    L: Fn(u64, u64, usize) -> u8,
>(
    arith: A,
    level_of: L,
    base: Map<Seq<u8>, Memory>,
    ops: Seq<Mutation>,
    now: Map<Seq<u8>, Memory>,
    again: Map<Seq<u8>, Memory>,
    after: Map<Seq<u8>, Memory>,
)
    requires
        float::deterministic(arith),
        sound(base),
        ops_applied(arith, level_of, base, ops, now),
        all_effective(arith, contents(base), ops),
        sound(again),
        alike(contents(now), contents(again)),
        forall|name: Seq<u8>| #[trigger]
            contents(now).contains_key(name) ==> contents(again)[name].entries.dom() == contents(
                now,
            )[name].entries.dom(),
        ops_applied(arith, level_of, again, ops, after),
    ensures
        alike(contents(now), contents(after)),
        forall|name: Seq<u8>| #[trigger]
            contents(now).contains_key(name) ==> contents(after)[name].entries.dom() == contents(
                now,
            )[name].entries.dom(),
        forall|name: Seq<u8>, key: Seq<u8>|
            contents(now).contains_key(name) && contents(now)[name].entries.contains_key(key) ==> {
                let held = #[trigger] contents(after)[name].entries[key];
                held == contents(now)[name].entries[key] || held == contents(
                    again,
                )[name].entries[key]
            },
{
    law_mutations_have_one_effect(arith, level_of, base, ops, now);
    law_mutations_have_one_effect(arith, level_of, again, ops, after);
    let c = contents(base);
    let whole = contents(now);
    let twice = contents(after);
    lemma_rerun(arith, c, ops, contents(again), ops.len() as int);
    assert(ops.take(ops.len() as int) =~= ops);
    assert forall|name: Seq<u8>| #[trigger] whole.contains_key(name) implies {
        &&& twice.contains_key(name)
        &&& twice[name].dim == whole[name].dim
        &&& twice[name].metric == whole[name].metric
        &&& twice[name].entries.dom() == whole[name].entries.dom()
    } by {
        assert(whole.dom().contains(name));
        assert(contents(again).contains_key(name));
        assert(twice.dom().contains(name));
        let a = twice[name].entries;
        let b = whole[name].entries;
        assert forall|key: Seq<u8>| a.contains_key(key) <==> b.contains_key(key) by {
            lemma_found(arith, c, ops, contents(again), name, key);
        }
        assert(a.dom() =~= b.dom());
    }
    assert(whole.dom() =~= twice.dom());
    assert forall|name: Seq<u8>, key: Seq<u8>|
        whole.contains_key(name) && whole[name].entries.contains_key(key) implies {
        let held = #[trigger] twice[name].entries[key];
        held == whole[name].entries[key] || held == contents(again)[name].entries[key]
    } by {
        assert(whole.dom().contains(name));
        lemma_found(arith, c, ops, contents(again), name, key);
    }
}

/// What a key leads to after a second run.
proof fn lemma_found<A: Fn(Operation<'_>) -> Float>(
    arith: A,
    c: Shelves,
    ops: Seq<Mutation>,
    again: Shelves,
    name: Seq<u8>,
    key: Seq<u8>,
)
    requires
        rerun(arith, c, ops, again, ops.len() as int),
        alike(steps(arith, c, ops), again),
        again.contains_key(name),
        again[name].entries.dom() == steps(arith, c, ops)[name].entries.dom(),
    ensures
        ({
            let whole = steps(arith, c, ops)[name].entries;
            let twice = steps(arith, again, ops)[name].entries;
            &&& twice.contains_key(key) <==> whole.contains_key(key)
            &&& whole.contains_key(key) ==> twice[key] == whole[key] || twice[key]
                == again[name].entries[key]
        }),
{
    assert(ops.take(ops.len() as int) =~= ops);
    let whole = steps(arith, c, ops);
    let twice = steps(arith, again, ops);
    assert(whole.dom().contains(name));
    assert(again.dom().contains(name));
    assert(twice.dom().contains(name));
    assert(look(twice, name, key) == if touched(ops, name, key) {
        look(whole, name, key)
    } else {
        look(again, name, key)
    });
    assert(again[name].entries.dom().contains(key) <==> whole[name].entries.dom().contains(key));
}

/// What a snapshot keeps of an index: everything, but the vectors go through the
/// preparation of the metric once more when they are read back.
pub open spec fn reread<A: Fn(Operation<'_>) -> Float>(arith: A, c: Contents) -> Contents {
    Contents {
        entries: c.entries.map_values(|v: Seq<Float>| prepared(arith, c.metric, v)),
        ..c
    }
}

/// What a snapshot keeps of every index.
pub open spec fn reread_all<A: Fn(Operation<'_>) -> Float>(arith: A, c: Shelves) -> Shelves {
    c.map_values(|one: Contents| reread(arith, one))
}

/// Whether a snapshot can hold an index: its dimension can be written down, and
/// its vectors are made of finite numbers.
pub open spec fn savable(c: Contents) -> bool {
    &&& c.dim < codec::RANGE
    &&& forall|key: Seq<u8>| #[trigger]
        c.entries.contains_key(key) ==> c.entries[key].len() > 0 && vector::all_finite(
            c.entries[key],
        )
}

/// What is recovered from a snapshot is what the registry held when it was
/// written, with the vectors as the metric prepares them. Under a metric that
/// does not normalise, that is what was held.
pub proof fn law_snapshot_keeps_the_registry<
    A: Fn(Operation<'_>) -> Float,
    L: Fn(u64, u64, usize) -> u8,
>(
    arith: A,
    level_of: L,
    names: Seq<Seq<u8>>,
    m: Map<Seq<u8>, Memory>,
    after: Map<Seq<u8>, Memory>,
)
    requires
        float::deterministic(arith),
        sound(m),
        names.no_duplicates(),
        names.to_set() == m.dom(),
        all_savable(m),
        blocks_applied(arith, level_of, Map::empty(), saved(names, m), after),
    ensures
        contents(after) == reread_all(arith, contents(m)),
        forall|name: Seq<u8>| #[trigger]
            m.contains_key(name) && m[name].metric != Metric::Cosine ==> contents(after)[name]
                == contents(m)[name],
{
    let nothing = Map::<Seq<u8>, Memory>::empty();
    law_snapshot_has_one_effect(arith, level_of, nothing, saved(names, m), after);
    assert(contents(nothing) =~= Map::empty());
    lemma_blocks_read_back(arith, names, m, names.len() as int);
    assert(names.take(names.len() as int) =~= names);
    assert(saved(names, m).take(names.len() as int) =~= saved(names, m));
    assert(reread_some(arith, names, m) =~= reread_all(arith, contents(m))) by {
        assert forall|name: Seq<u8>| names.contains(name) <==> m.contains_key(name) by {
            assert(names.to_set().contains(name) <==> m.dom().contains(name));
        }
    }
    assert forall|name: Seq<u8>| #[trigger]
        m.contains_key(name) && m[name].metric != Metric::Cosine implies contents(after)[name]
        == contents(m)[name] by {
        let c = contents(m)[name];
        assert forall|v: Seq<Float>| prepared(arith, c.metric, v) == v by {
            assert(metric::gives_prepared(arith, c.metric, v, v));
        }
        assert(reread(arith, c).entries =~= c.entries);
    }
}

/// What is recovered from the file of a snapshot and a cleared log is what the
/// registry held when the snapshot was taken, with the vectors as the metric
/// prepares them.
pub proof fn law_saved_registry_is_recovered<
    A: Fn(Operation<'_>) -> Float,
    L: Fn(u64, u64, usize) -> u8,
>(
    arith: A,
    level_of: L,
    names: Seq<Seq<u8>>,
    m: Map<Seq<u8>, Memory>,
    after: Map<Seq<u8>, Memory>,
)
    requires
        float::deterministic(arith),
        sound(m),
        names.no_duplicates(),
        names.to_set() == m.dom(),
        all_savable(m),
        snapshot::fits(saved(names, m)),
        recovered(
            arith,
            level_of,
            snapshot::parsed(snapshot::layout(saved(names, m)))->0,
            wal::records(seq![]),
            after,
        ),
    ensures
        contents(after) == reread_all(arith, contents(m)),
{
    let blocks = saved(names, m);
    snapshot::law_snapshots_round_trip(snapshot::layout(blocks), blocks);
    codec::lemma_stands_whole(snapshot::layout(blocks));
    assert(wal::records(seq![]) =~= seq![]);
    let base = choose|base: Map<Seq<u8>, Memory>| #[trigger]
        blocks_applied(arith, level_of, Map::empty(), blocks, base) && ops_applied(
            arith,
            level_of,
            base,
            mutations(seq![]),
            after,
        );
    law_snapshot_keeps_the_registry(arith, level_of, names, m, base);
}

/// The ids last for what is recovered from the file of a snapshot and a cleared
/// log.
pub proof fn law_saved_registry_finds_ids(names: Seq<Seq<u8>>, m: Map<Seq<u8>, Memory>)
    requires
        sound(m),
        names.no_duplicates(),
        names.to_set() == m.dom(),
        snapshot::fits(saved(names, m)),
    ensures
        enough_ids(
            snapshot::parsed(snapshot::layout(saved(names, m)))->0,
            wal::records(seq![]),
        ),
{
    let blocks = saved(names, m);
    snapshot::law_snapshots_round_trip(snapshot::layout(blocks), blocks);
    codec::lemma_stands_whole(snapshot::layout(blocks));
    assert(wal::records(seq![]) =~= seq![]);
    assert forall|i: int| 0 <= i < blocks.len() implies Metric::tagged(
        (#[trigger] blocks[i]).metric,
    ) is Some && blocks[i].entries.len() <= CAPACITY by {
        let memory = m[names[i]];
        assert(names.to_set().contains(names[i]));
        assert(m.contains_key(names[i]));
        assert(memory.wf());
        metric::law_metric_tags_round_trip(memory.metric, memory.metric.tag());
        lemma_no_more_live(memory.keys);
    }
    law_blocks_of_new_indices_find_ids(blocks);
}

/// There are no more live ids than ids.
proof fn lemma_no_more_live(keys: Seq<Option<Seq<u8>>>)
    ensures
        live_ids(keys).len() <= keys.len(),
    decreases keys.len(),
{
    if keys.len() > 0 {
        lemma_no_more_live(keys.drop_last());
    }
}

/// A crash between writing a snapshot and clearing the log is harmless: the log is
/// then replayed on top of the snapshot that it led to, and recovery gives the same
/// indices with the same keys. Each vector is the one that was held or what the
/// metric makes of it; under a metric that does not normalise, that is the same.
pub proof fn law_uncleared_log_is_harmless<
    A: Fn(Operation<'_>) -> Float,
    L: Fn(u64, u64, usize) -> u8,
>(
    arith: A,
    level_of: L,
    base: Map<Seq<u8>, Memory>,
    log: Seq<u8>,
    names: Seq<Seq<u8>>,
    now: Map<Seq<u8>, Memory>,
    after: Map<Seq<u8>, Memory>,
)
    requires
        float::deterministic(arith),
        sound(base),
        ops_applied(arith, level_of, base, mutations(wal::records(log)), now),
        all_effective(arith, contents(base), mutations(wal::records(log))),
        names.no_duplicates(),
        names.to_set() == now.dom(),
        all_savable(now),
        snapshot::fits(saved(names, now)),
        recovered(
            arith,
            level_of,
            snapshot::parsed(snapshot::layout(saved(names, now)))->0,
            wal::records(log),
            after,
        ),
    ensures
        alike(contents(now), contents(after)),
        forall|name: Seq<u8>| #[trigger]
            contents(now).contains_key(name) ==> contents(after)[name].entries.dom() == contents(
                now,
            )[name].entries.dom(),
        forall|name: Seq<u8>, key: Seq<u8>|
            contents(now).contains_key(name) && contents(now)[name].entries.contains_key(key) ==> {
                let held = contents(now)[name].entries[key];
                let found = #[trigger] contents(after)[name].entries[key];
                found == held || found == prepared(arith, contents(now)[name].metric, held)
            },
        forall|name: Seq<u8>| #[trigger]
            contents(now).contains_key(name) && contents(now)[name].metric != Metric::Cosine
                ==> contents(after)[name] == contents(now)[name],
{
    let blocks = saved(names, now);
    let ops = mutations(wal::records(log));
    snapshot::law_snapshots_round_trip(snapshot::layout(blocks), blocks);
    codec::lemma_stands_whole(snapshot::layout(blocks));
    let again = choose|again: Map<Seq<u8>, Memory>| #[trigger]
        blocks_applied(arith, level_of, Map::empty(), blocks, again) && ops_applied(
            arith,
            level_of,
            again,
            ops,
            after,
        );
    law_mutations_have_one_effect(arith, level_of, base, ops, now);
    law_snapshot_has_one_effect(arith, level_of, Map::empty(), blocks, again);
    law_snapshot_keeps_the_registry(arith, level_of, names, now, again);
    let whole = contents(now);
    let kept = contents(again);
    assert forall|name: Seq<u8>| #[trigger] whole.contains_key(name) implies {
        &&& kept[name].dim == whole[name].dim
        &&& kept[name].metric == whole[name].metric
        &&& kept[name].entries.dom() == whole[name].entries.dom()
    } by {
        assert(kept[name] == reread(arith, whole[name]));
        assert(kept[name].entries.dom() =~= whole[name].entries.dom());
    }
    assert(whole.dom() =~= kept.dom());
    law_redundant_log_is_harmless(arith, level_of, base, ops, now, again, after);
    let found = contents(after);
    assert forall|name: Seq<u8>, key: Seq<u8>|
        whole.contains_key(name) && whole[name].entries.contains_key(key) implies {
        let held = whole[name].entries[key];
        let got = #[trigger] found[name].entries[key];
        got == held || got == prepared(arith, whole[name].metric, held)
    } by {
        assert(kept[name] == reread(arith, whole[name]));
    }
    assert forall|name: Seq<u8>| #[trigger]
        whole.contains_key(name) && whole[name].metric != Metric::Cosine implies found[name]
        == whole[name] by {
        let metric = whole[name].metric;
        let a = found[name].entries;
        let b = whole[name].entries;
        assert(a.dom() == b.dom());
        assert forall|key: Seq<u8>| #[trigger] b.contains_key(key) implies a[key] == b[key] by {
            assert(metric::gives_prepared(arith, metric, b[key], b[key]));
            assert(prepared(arith, metric, b[key]) == b[key]);
            assert(found[name].entries[key] == a[key]);
        }
        assert(a =~= b);
        assert(found[name].dim == whole[name].dim);
    }
}

/// Whether preparing a vector of finite numbers gives finite numbers.
pub open spec fn stays_finite<A: Fn(Operation<'_>) -> Float>(arith: A) -> bool {
    forall|metric: Metric, v: Seq<Float>, w: Seq<Float>|
        vector::all_finite(v) && #[trigger] metric::gives_prepared(arith, metric, v, w)
            ==> vector::all_finite(w)
}

/// Whether a snapshot can hold every index.
pub open spec fn all_savable(m: Map<Seq<u8>, Memory>) -> bool {
    forall|name: Seq<u8>| #[trigger] m.contains_key(name) ==> savable(m[name].contents())
}

/// Where preparing a vector leaves it finite, what was saved or logged can always
/// be saved again.
pub proof fn law_mutations_stay_savable<
    A: Fn(Operation<'_>) -> Float,
    L: Fn(u64, u64, usize) -> u8,
>(
    arith: A,
    level_of: L,
    before: Map<Seq<u8>, Memory>,
    ops: Seq<Mutation>,
    after: Map<Seq<u8>, Memory>,
)
    requires
        stays_finite(arith),
        sound(before),
        all_savable(before),
        ops_applied(arith, level_of, before, ops, after),
    ensures
        sound(after),
        all_savable(after),
    decreases ops.len(),
{
    if ops.len() > 0 {
        let mid = choose|mid: Map<Seq<u8>, Memory>|
            ops_applied(arith, level_of, before, ops.drop_last(), mid) && #[trigger] op_applied(
                arith,
                level_of,
                mid,
                ops.last(),
                after,
            );
        law_mutations_stay_savable(arith, level_of, before, ops.drop_last(), mid);
        lemma_stays_savable(arith, level_of, mid, ops.last(), after);
    }
}

proof fn lemma_stays_savable<A: Fn(Operation<'_>) -> Float, L: Fn(u64, u64, usize) -> u8>(
    arith: A,
    level_of: L,
    before: Map<Seq<u8>, Memory>,
    op: Mutation,
    after: Map<Seq<u8>, Memory>,
)
    requires
        stays_finite(arith),
        sound(before),
        all_savable(before),
        op_applied(arith, level_of, before, op, after),
    ensures
        all_savable(after),
{
    match op {
        Mutation::New { name, dim, metric } => {
            if Metric::tagged(metric) is Some && !before.contains_key(name) {
                let m = Metric::tagged(metric)->0;
                let new = Memory::fresh(dim as nat, m);
                assert(new.contents().entries =~= Map::empty());
                assert(savable(new.contents()));
            }
        },
        Mutation::Add { name, key, vec } => {
            if before.contains_key(name) && fitting(vec, before[name].dim) is Some {
                let v = fitting(vec, before[name].dim)->0;
                let old = before[name];
                let m = choose|m: Memory| #[trigger]
                    index::added(arith, level_of, old, m, key, v) && after == before.insert(name, m);
                index::law_add_sets_the_entry(arith, level_of, old, m, key, v);
                let stored = choose|stored: Seq<Float>| #[trigger]
                    metric::gives_prepared(arith, old.metric, v, stored) && m.entries()
                        == old.entries().insert(key, stored);
                assert(savable(old.contents()));
                assert(vector::all_finite(v));
                assert(vector::all_finite(stored));
                assert(stored.len() == v.len());
                assert forall|k: Seq<u8>| #[trigger]
                    m.contents().entries.contains_key(k) implies m.contents().entries[k].len() > 0
                    && vector::all_finite(m.contents().entries[k]) by {
                    if k != key {
                        assert(old.contents().entries.contains_key(k));
                    }
                }
                assert(savable(m.contents()));
            }
        },
        Mutation::Del { name, key } => {
            if before.contains_key(name) {
                index::law_remove_drops_the_entry(before[name], key);
                let m = before[name].without(key).contents();
                assert(savable(before[name].contents()));
                assert forall|k: Seq<u8>| #[trigger] m.entries.contains_key(k) implies m.entries[k].len()
                    > 0 && vector::all_finite(m.entries[k]) by {
                    assert(before[name].contents().entries.contains_key(k));
                }
                assert(savable(m));
            }
        },
    }
}

/// Where preparing a vector leaves it finite, what is recovered can be saved.
pub proof fn law_recovery_is_savable<
    A: Fn(Operation<'_>) -> Float,
    L: Fn(u64, u64, usize) -> u8,
>(
    arith: A,
    level_of: L,
    blocks: Seq<Block>,
    records: Seq<Seq<u8>>,
    after: Map<Seq<u8>, Memory>,
)
    requires
        stays_finite(arith),
        recovered(arith, level_of, blocks, records, after),
    ensures
        all_savable(after),
{
    let base = choose|base: Map<Seq<u8>, Memory>| #[trigger]
        blocks_applied(arith, level_of, Map::empty(), blocks, base) && ops_applied(
            arith,
            level_of,
            base,
            mutations(records),
            after,
        );
    lemma_blocks_savable(arith, level_of, Map::empty(), blocks, base);
    law_mutations_stay_savable(arith, level_of, base, mutations(records), after);
}

proof fn lemma_blocks_savable<A: Fn(Operation<'_>) -> Float, L: Fn(u64, u64, usize) -> u8>(
    arith: A,
    level_of: L,
    before: Map<Seq<u8>, Memory>,
    blocks: Seq<Block>,
    after: Map<Seq<u8>, Memory>,
)
    requires
        stays_finite(arith),
        sound(before),
        all_savable(before),
        blocks_applied(arith, level_of, before, blocks, after),
    ensures
        sound(after),
        all_savable(after),
    decreases blocks.len(),
{
    if blocks.len() > 0 {
        let mid = choose|mid: Map<Seq<u8>, Memory>|
            blocks_applied(arith, level_of, before, blocks.drop_last(), mid)
                && #[trigger] ops_applied(
                arith,
                level_of,
                mid,
                block_ops(contents(mid), blocks.last()),
                after,
            );
        lemma_blocks_savable(arith, level_of, before, blocks.drop_last(), mid);
        law_mutations_stay_savable(
            arith,
            level_of,
            mid,
            block_ops(contents(mid), blocks.last()),
            after,
        );
    }
}

/// What a snapshot keeps of the indices with the given names.
spec fn reread_some<A: Fn(Operation<'_>) -> Float>(
    arith: A,
    names: Seq<Seq<u8>>,
    m: Map<Seq<u8>, Memory>,
) -> Shelves {
    Map::new(
        |name: Seq<u8>| names.contains(name),
        |name: Seq<u8>| reread(arith, m[name].contents()),
    )
}

proof fn lemma_blocks_read_back<A: Fn(Operation<'_>) -> Float>(
    arith: A,
    names: Seq<Seq<u8>>,
    m: Map<Seq<u8>, Memory>,
    i: int,
)
    requires
        float::deterministic(arith),
        sound(m),
        names.no_duplicates(),
        names.to_set() == m.dom(),
        all_savable(m),
        0 <= i <= names.len(),
    ensures
        block_steps(arith, Map::empty(), saved(names, m).take(i)) == reread_some(
            arith,
            names.take(i),
            m,
        ),
    decreases i,
{
    let blocks = saved(names, m);
    if i == 0 {
        assert(reread_some(arith, names.take(0), m) =~= Map::empty());
    } else {
        lemma_blocks_read_back(arith, names, m, i - 1);
        let name = names[i - 1];
        let memory = m[name];
        assert(blocks.take(i).drop_last() =~= blocks.take(i - 1));
        assert(blocks.take(i).last() == saved_block(name, memory));
        let fewer = names.take(i - 1);
        let more = names.take(i);
        let mid = reread_some(arith, fewer, m);
        assert(m.contains_key(name)) by {
            assert(names.contains(name));
            assert(names.to_set().contains(name));
        }
        assert(!mid.contains_key(name)) by {
            if fewer.contains(name) {
                let j = choose|j: int| 0 <= j < fewer.len() && fewer[j] == name;
                assert(names[j] == names[i - 1]);
            }
        }
        lemma_block_read_back(arith, mid, name, memory);
        assert forall|other: Seq<u8>| more.contains(other) <==> fewer.contains(other) || other
            == name by {
            assert(more =~= fewer.push(name));
            if fewer.contains(other) {
                let j = choose|j: int| 0 <= j < fewer.len() && fewer[j] == other;
                assert(more[j] == other);
            }
            assert(more[i - 1] == name);
        }
        assert(reread_some(arith, more, m) =~= mid.insert(name, reread(arith, memory.contents())));
    }
}

/// The block of an index, read back where its name is free, gives the index with
/// its vectors prepared once more.
proof fn lemma_block_read_back<A: Fn(Operation<'_>) -> Float>(
    arith: A,
    c: Shelves,
    name: Seq<u8>,
    memory: Memory,
)
    requires
        memory.wf(),
        savable(memory.contents()),
        !c.contains_key(name),
    ensures
        steps(arith, c, block_ops(c, saved_block(name, memory))) == c.insert(
            name,
            reread(arith, memory.contents()),
        ),
{
    let b = saved_block(name, memory);
    metric::law_metric_tags_round_trip(memory.metric, b.metric);
    let creation = Mutation::New { name, dim: b.dim, metric: b.metric };
    let ops = block_ops(c, b);
    assert(b.dim == memory.dim);
    assert(ops == seq![creation] + block_additions(b));
    let pairs = memory.pairs();
    lemma_additions(arith, c, name, memory, pairs.len() as int);
    assert(ops.take(pairs.len() as int + 1) =~= ops);
    assert(pairs.take(pairs.len() as int) =~= pairs);
    lemma_pairs(arith, memory);
    assert(Contents {
        dim: memory.dim,
        metric: memory.metric,
        entries: from_pairs(arith, memory.metric, pairs),
    } =~= reread(arith, memory.contents()));
}

/// The keys with their vectors prepared, where a later pair overrides an earlier
/// one.
spec fn from_pairs<A: Fn(Operation<'_>) -> Float>(
    arith: A,
    metric: Metric,
    pairs: Seq<(Seq<u8>, Seq<Float>)>,
) -> Map<Seq<u8>, Seq<Float>>
    decreases pairs.len(),
{
    if pairs.len() == 0 {
        Map::empty()
    } else {
        from_pairs(arith, metric, pairs.drop_last()).insert(
            pairs.last().0,
            prepared(arith, metric, pairs.last().1),
        )
    }
}

proof fn lemma_additions<A: Fn(Operation<'_>) -> Float>(
    arith: A,
    c: Shelves,
    name: Seq<u8>,
    memory: Memory,
    j: int,
)
    requires
        memory.wf(),
        savable(memory.contents()),
        !c.contains_key(name),
        0 <= j <= memory.pairs().len(),
    ensures
        steps(arith, c, block_ops(c, saved_block(name, memory)).take(j + 1)) == c.insert(
            name,
            Contents {
                dim: memory.dim,
                metric: memory.metric,
                entries: from_pairs(arith, memory.metric, memory.pairs().take(j)),
            },
        ),
    decreases j,
{
    let b = saved_block(name, memory);
    metric::law_metric_tags_round_trip(memory.metric, b.metric);
    let creation = Mutation::New { name, dim: b.dim, metric: b.metric };
    let ops = block_ops(c, b);
    let pairs = memory.pairs();
    assert(b.dim == memory.dim);
    assert(ops == seq![creation] + block_additions(b));
    let some = ops.take(j + 1);
    if j == 0 {
        assert(some.drop_last() =~= seq![]);
        assert(some.last() == creation);
        assert(steps(arith, c, some.drop_last()) == c);
        assert(from_pairs(arith, memory.metric, pairs.take(0)) =~= Map::empty());
    } else {
        lemma_additions(arith, c, name, memory, j - 1);
        let less = ops.take(j);
        assert(some.drop_last() =~= less);
        let (key, v) = pairs[j - 1];
        let op = Mutation::Add { name, key, vec: vector::packed(v) };
        assert(saved_entries(pairs)[j - 1] == (key, vector::packed(v)));
        assert(some.last() == op);
        let mid = steps(arith, c, less);
        lemma_pair(memory, j - 1);
        assert(memory.contents().entries.contains_key(key));
        vector::law_vectors_round_trip(v);
        assert(fitting(vector::packed(v), mid[name].dim) == Some(v));
        let part = pairs.take(j);
        assert(part.drop_last() =~= pairs.take(j - 1));
        assert(part.last() == (key, v));
        assert(steps(arith, c, some) =~= c.insert(
            name,
            Contents {
                dim: memory.dim,
                metric: memory.metric,
                entries: from_pairs(arith, memory.metric, part),
            },
        ));
    }
}

/// Every pair that is listed is a live key with its vector.
proof fn lemma_pair(memory: Memory, j: int)
    requires
        memory.wf(),
        0 <= j < memory.pairs().len(),
    ensures
        ({
            let (key, v) = memory.pairs()[j];
            &&& memory.entries().contains_key(key)
            &&& memory.entries()[key] == v
            &&& v.len() == memory.dim
        }),
{
    index::lemma_live_ids(memory.keys);
    let id = live_ids(memory.keys)[j];
    let (key, v) = memory.pairs()[j];
    index::lemma_only_one(memory, key, id as int);
}

/// The pairs that are listed are all live keys with their vectors.
proof fn lemma_pairs<A: Fn(Operation<'_>) -> Float>(arith: A, memory: Memory)
    requires
        memory.wf(),
    ensures
        from_pairs(arith, memory.metric, memory.pairs()) == memory.entries().map_values(
            |v: Seq<Float>| prepared(arith, memory.metric, v),
        ),
{
    let pairs = memory.pairs();
    let all = memory.entries();
    let made = from_pairs(arith, memory.metric, pairs);
    assert forall|j: int| 0 <= j < pairs.len() implies all.contains_key(
        (#[trigger] pairs[j]).0,
    ) && all[pairs[j].0] == pairs[j].1 by {
        lemma_pair(memory, j);
    }
    lemma_from_pairs(arith, memory.metric, pairs, all);
    assert forall|key: Seq<u8>| #[trigger] all.contains_key(key) implies made.contains_key(key) by {
        index::lemma_live_ids(memory.keys);
        let at = memory.keys.index_of(Some(key));
        assert(memory.keys.contains(Some(key)));
        assert(memory.keys[at] == Some(key));
        let id = at as u32;
        assert(live_ids(memory.keys).contains(id));
        let j = choose|j: int| 0 <= j < live_ids(memory.keys).len() && live_ids(memory.keys)[j] == id;
        assert(pairs[j].0 == key);
    }
    assert(made =~= all.map_values(|v: Seq<Float>| prepared(arith, memory.metric, v)));
}

proof fn lemma_from_pairs<A: Fn(Operation<'_>) -> Float>(
    arith: A,
    metric: Metric,
    pairs: Seq<(Seq<u8>, Seq<Float>)>,
    all: Map<Seq<u8>, Seq<Float>>,
)
    requires
        forall|j: int|
            0 <= j < pairs.len() ==> all.contains_key((#[trigger] pairs[j]).0) && all[pairs[j].0]
                == pairs[j].1,
    ensures
        forall|key: Seq<u8>| #[trigger]
            from_pairs(arith, metric, pairs).contains_key(key) ==> all.contains_key(key)
                && from_pairs(arith, metric, pairs)[key] == prepared(arith, metric, all[key]),
        forall|j: int|
            0 <= j < pairs.len() ==> from_pairs(arith, metric, pairs).contains_key(
                (#[trigger] pairs[j]).0,
            ),
    decreases pairs.len(),
{
    if pairs.len() > 0 {
        let less = pairs.drop_last();
        assert forall|j: int| 0 <= j < less.len() implies all.contains_key((#[trigger] less[j]).0)
            && all[less[j].0] == less[j].1 by {
            assert(less[j] == pairs[j]);
        }
        lemma_from_pairs(arith, metric, less, all);
        let last = pairs[pairs.len() - 1];
        assert(pairs.last() == last);
        let made = from_pairs(arith, metric, pairs);
        assert forall|key: Seq<u8>| #[trigger] made.contains_key(key) implies all.contains_key(key)
            && made[key] == prepared(arith, metric, all[key]) by {
            if key != last.0 {
                assert(from_pairs(arith, metric, less).contains_key(key));
            }
        }
        assert forall|j: int| 0 <= j < pairs.len() implies from_pairs(
            arith,
            metric,
            pairs,
        ).contains_key((#[trigger] pairs[j]).0) by {
            if j < less.len() {
                assert(less[j] == pairs[j]);
            }
        }
    }
}

/// A mutation that has nothing to do changes nothing that the clients see.
pub proof fn law_idle_mutations_change_nothing<
    A: Fn(Operation<'_>) -> Float,
    L: Fn(u64, u64, usize) -> u8,
>(
    arith: A,
    level_of: L,
    before: Map<Seq<u8>, Memory>,
    op: Mutation,
    after: Map<Seq<u8>, Memory>,
)
    requires
        float::deterministic(arith),
        sound(before),
        op_applied(arith, level_of, before, op, after),
        !effective(contents(before), op),
    ensures
        contents(after) == contents(before),
{
    law_mutation_has_one_effect(arith, level_of, before, op, after);
    let c = contents(before);
    if let Mutation::Del { name, key } = op {
        if c.contains_key(name) {
            assert(c[name].entries.remove(key) =~= c[name].entries);
            assert(c[name].without(key) == c[name]);
            assert(c.insert(name, c[name]) =~= c);
        }
    }
}

} // verus!
