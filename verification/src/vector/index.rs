//! A single named vector index.
//!
//! An [`Index`] maps client keys (arbitrary bytes) to dense internal ids, holds
//! the vectors in a [`VectorStore`], and answers nearest-neighbour queries
//! through an [`Hnsw`] graph built over those ids.
//!
//! [`Index::search`] is approximate (it walks the graph); [`Index::search_exact`]
//! is the exhaustive scan kept as the ground truth that the graph is measured
//! against.

use vstd::prelude::*;

use crate::bytemap::ByteMap;
use crate::codec;
use crate::vector::float;
use crate::vector::float::{Float, Operation};
use crate::vector::graph;
use crate::vector::graph::{Between, Candidate, Graph, Near};
use crate::vector::hnsw;
use crate::vector::hnsw::Hnsw;
use crate::vector::metric;
use crate::vector::metric::Metric;
use crate::vector::rng;
use crate::vector::store;
use crate::vector::store::VectorStore;

verus! {

/// Out-degree on the upper layers of the graph.
pub const HNSW_M: usize = 16;

/// Candidate-list size during construction of the graph.
pub const HNSW_EF_CONSTRUCTION: usize = 200;

/// Fixed seed so that a given insert order yields a reproducible graph.
pub const HNSW_SEED: u64 = 0x5eed_1234;

/// How many vectors an index can ever take: as many as there are ids.
pub const CAPACITY: u64 = 0x1_0000_0000;

/// A nearest-neighbour result: the client key and its distance to the query.
#[derive(Debug, Clone, PartialEq)]
pub struct Neighbor {
    /// The client-supplied key.
    pub key: Vec<u8>,
    /// The distance to the query under the index's metric; smaller is closer.
    pub distance: Float,
}

/// A nearest-neighbour result as what it says.
#[verifier::ext_equal]
pub struct Hit {
    pub key: Seq<u8>,
    pub distance: Float,
}

impl Neighbor {
    /// What the result says.
    pub open spec fn view(&self) -> Hit {
        Hit { key: self.key@, distance: self.distance }
    }
}

/// Results as what they say.
pub open spec fn hits(s: Seq<Neighbor>) -> Seq<Hit> {
    s.map_values(|n: Neighbor| n@)
}

/// What an index holds. A vector has an id, its place in the order in which
/// vectors were added.
#[verifier::ext_equal]
pub struct Memory {
    /// The dimension of every vector.
    pub dim: nat,
    /// How distances are measured.
    pub metric: Metric,
    /// The key of every id, or none once the key was deleted or overwritten.
    pub keys: Seq<Option<Seq<u8>>>,
    /// The vector of every id, as stored.
    pub vectors: Seq<Seq<Float>>,
    /// The graph over the ids.
    pub graph: Graph,
}

impl Memory {
    /// The live keys with their vectors.
    pub open spec fn entries(self) -> Map<Seq<u8>, Seq<Float>> {
        Map::new(
            |key: Seq<u8>| self.keys.contains(Some(key)),
            |key: Seq<u8>| self.vectors[self.keys.index_of(Some(key))],
        )
    }

    /// There is a key, a vector and a node for every id, the level of every node
    /// was drawn in turn from the generator with the fixed seed, no two ids have
    /// the same key, and every vector has the dimension of the index. In a small
    /// index every node is a neighbour of every other.
    pub open spec fn wf(self) -> bool {
        &&& self.keys.len() == self.vectors.len()
        &&& self.keys.len() == self.graph.nodes.len()
        &&& self.graph.wf()
        &&& self.graph.m == HNSW_M
        &&& self.graph.ef_construction == HNSW_EF_CONSTRUCTION
        &&& self.small() ==> graph::complete(self.graph)
        &&& self.graph.rng == rng::after(rng::seeded(HNSW_SEED), self.keys.len())
        &&& forall|i: int, j: int|
            0 <= i < j < self.keys.len() && #[trigger] self.keys[i] is Some ==> self.keys[i]
                != #[trigger] self.keys[j]
        &&& forall|i: int|
            0 <= i < self.vectors.len() ==> (#[trigger] self.vectors[i]).len() == self.dim
    }

    /// Whether a node could have all others as its neighbours on the lowest layer
    /// of the graph.
    pub open spec fn small(self) -> bool {
        self.keys.len() <= 2 * HNSW_M + 1
    }

    /// Which distances measuring a node against `query` may give.
    pub open spec fn distances_to<A: Fn(Operation<'_>) -> Float>(
        self,
        arith: A,
        query: Seq<Float>,
    ) -> Near {
        |id: u32, d: Float|
            metric::gives_distance(arith, self.metric, query, self.vectors[id as int], d)
    }

    /// Which distances measuring two nodes against each other may give.
    pub open spec fn distances<A: Fn(Operation<'_>) -> Float>(self, arith: A) -> Between {
        |a: u32, b: u32, d: Float|
            metric::gives_distance(
                arith,
                self.metric,
                self.vectors[a as int],
                self.vectors[b as int],
                d,
            )
    }

    /// The same without a key.
    pub open spec fn without(self, key: Seq<u8>) -> Memory {
        Memory { keys: cleared(self.keys, key), ..self }
    }

    /// The result for a node.
    pub open spec fn hit(self, c: Candidate) -> Hit {
        Hit { key: self.keys[c.id as int]->0, distance: c.dist }
    }

    /// The results for those nodes of `found` that have a key, in order.
    pub open spec fn live_hits(self, found: Seq<Candidate>) -> Seq<Hit>
        decreases found.len(),
    {
        if found.len() == 0 {
            seq![]
        } else {
            let rest = self.live_hits(found.drop_last());
            let c = found.last();
            if c.id < self.keys.len() && self.keys[c.id as int] is Some {
                rest.push(self.hit(c))
            } else {
                rest
            }
        }
    }

    /// Whether `all` lists the nodes that have a key, in the order of their ids,
    /// each with a distance that measuring it may give.
    pub open spec fn scanned(self, near: Near, all: Seq<Candidate>) -> bool {
        &&& graph::ids(all) == live_ids(self.keys)
        &&& forall|i: int| 0 <= i < all.len() ==> near((#[trigger] all[i]).id, all[i].dist)
    }
}

/// The keys with `key` taken out.
pub open spec fn cleared(keys: Seq<Option<Seq<u8>>>, key: Seq<u8>) -> Seq<Option<Seq<u8>>> {
    keys.map_values(
        |k: Option<Seq<u8>>|
            if k == Some(key) {
                None
            } else {
                k
            },
    )
}

/// The ids that have a key, in ascending order.
pub open spec fn live_ids(keys: Seq<Option<Seq<u8>>>) -> Seq<u32>
    decreases keys.len(),
{
    if keys.len() == 0 {
        seq![]
    } else {
        let rest = live_ids(keys.drop_last());
        if keys.last() is Some {
            rest.push((keys.len() - 1) as u32)
        } else {
            rest
        }
    }
}

/// The first `k` of a sequence, or all of it if there are fewer.
pub open spec fn first<T>(s: Seq<T>, k: nat) -> Seq<T> {
    s.take(graph::lower(k, s.len()) as int)
}

/// Whether adding `vec` under `key` may turn `before` into `after`: the vector is
/// stored as the metric wants it under a new id, which takes the key over, and
/// the graph has grown by a node for it.
pub open spec fn added<A: Fn(Operation<'_>) -> Float, L: Fn(u64, u64, usize) -> u8>(
    arith: A,
    level_of: L,
    before: Memory,
    after: Memory,
    key: Seq<u8>,
    vec: Seq<Float>,
) -> bool {
    exists|stored: Seq<Float>, level: nat| #[trigger]
        added_as(arith, level_of, before, after, key, vec, stored, level)
}

/// Whether adding `vec` under `key`, stored as `stored` with a node present on
/// the layers up to `level`, may turn `before` into `after`.
pub open spec fn added_as<A: Fn(Operation<'_>) -> Float, L: Fn(u64, u64, usize) -> u8>(
    arith: A,
    level_of: L,
    before: Memory,
    after: Memory,
    key: Seq<u8>,
    vec: Seq<Float>,
    stored: Seq<Float>,
    level: nat,
) -> bool {
    &&& metric::gives_prepared(arith, before.metric, vec, stored)
    &&& after.dim == before.dim
    &&& after.metric == before.metric
    &&& after.keys == cleared(before.keys, key).push(Some(key))
    &&& after.vectors == before.vectors.push(stored)
    &&& after.graph.rng == rng::scramble(before.graph.rng)
    &&& hnsw::drawn(level_of, rng::unit_of(before.graph.rng), before.graph.m, level)
    &&& graph::inserted(
        before.graph,
        after.graph,
        before.keys.len() as u32,
        level,
        after.distances(arith),
    )
}

/// Whether a search for `query` may return `out`: nothing if nothing is asked
/// for, else the first `k` that have a key among what a search of the graph with
/// breadth `ef` returns.
pub open spec fn searched<A: Fn(Operation<'_>) -> Float>(
    arith: A,
    memory: Memory,
    query: Seq<Float>,
    k: nat,
    ef: nat,
    out: Seq<Hit>,
) -> bool {
    if k == 0 {
        out.len() == 0
    } else {
        exists|q: Seq<Float>, found: Seq<Candidate>| #[trigger]
            searched_as(arith, memory, query, k, ef, out, q, found)
    }
}

/// Whether a search for `query`, prepared as `q`, may return `out` when the
/// search of the graph returns `found`.
pub open spec fn searched_as<A: Fn(Operation<'_>) -> Float>(
    arith: A,
    memory: Memory,
    query: Seq<Float>,
    k: nat,
    ef: nat,
    out: Seq<Hit>,
    q: Seq<Float>,
    found: Seq<Candidate>,
) -> bool {
    &&& metric::gives_prepared(arith, memory.metric, query, q)
    &&& graph::graph_search(memory.graph, memory.distances_to(arith, q), k, ef, found)
    &&& out == first(memory.live_hits(found), k)
}

/// Whether an exhaustive search for `query` may return `out`: nothing if nothing
/// is asked for, else the first `k` of all that have a key, closest first, and
/// those at equal distance in the order of their ids.
pub open spec fn searched_exactly<A: Fn(Operation<'_>) -> Float>(
    arith: A,
    memory: Memory,
    query: Seq<Float>,
    k: nat,
    out: Seq<Hit>,
) -> bool {
    if k == 0 {
        out.len() == 0
    } else {
        exists|q: Seq<Float>, all: Seq<Candidate>, sorted: Seq<Candidate>| #[trigger]
            searched_exactly_as(arith, memory, query, k, out, q, all, sorted)
    }
}

/// Whether an exhaustive search for `query`, prepared as `q`, may return `out`
/// when the distances are those in `all`, or sorted those in `sorted`.
pub open spec fn searched_exactly_as<A: Fn(Operation<'_>) -> Float>(
    arith: A,
    memory: Memory,
    query: Seq<Float>,
    k: nat,
    out: Seq<Hit>,
    q: Seq<Float>,
    all: Seq<Candidate>,
    sorted: Seq<Candidate>,
) -> bool {
    &&& metric::gives_prepared(arith, memory.metric, query, q)
    &&& memory.scanned(memory.distances_to(arith, q), all)
    &&& graph::stably_sorted(all, sorted)
    &&& out == first(sorted, k).map_values(|c: Candidate| memory.hit(c))
}

/// A named collection of equal-dimension vectors that supports search.
pub struct Index {
    /// The dimension every vector in this index must have.
    dim: usize,
    /// How distances are measured.
    metric: Metric,
    /// The vectors, addressed by internal id.
    store: VectorStore,
    /// The navigable small-world graph over the internal ids.
    hnsw: Hnsw,
    /// Internal id to client key, or `None` once a key has been deleted. A
    /// tombstoned node stays in the graph for connectivity but is filtered out
    /// of results.
    keys: Vec<Option<Vec<u8>>>,
    /// Client key to internal id, for the live keys only.
    key_to_id: ByteMap<u32>,
}

/// A key as what it says.
pub open spec fn key_view(key: Option<Vec<u8>>) -> Option<Seq<u8>> {
    match key {
        Some(k) => Some(k@),
        None => None,
    }
}

impl Index {
    /// What the index holds.
    pub closed spec fn view(&self) -> Memory {
        Memory {
            dim: self.dim as nat,
            metric: self.metric,
            keys: self.key_views(),
            vectors: self.store@,
            graph: self.hnsw@,
        }
    }

    closed spec fn key_views(&self) -> Seq<Option<Seq<u8>>> {
        self.keys@.map_values(|k: Option<Vec<u8>>| key_view(k))
    }

    /// What the index holds is in order, and every live key leads to its id.
    pub closed spec fn wf(&self) -> bool {
        &&& self@.wf()
        &&& self.store.wf()
        &&& self.store.dim() == self.dim
        &&& self.hnsw.wf()
        &&& self.key_to_id.wf()
        &&& forall|key: Seq<u8>| #[trigger]
            self.key_to_id@.contains_key(key) <==> self.key_views().contains(Some(key))
        &&& forall|key: Seq<u8>| #[trigger]
            self.key_to_id@.contains_key(key) ==> self.key_to_id@[key] < self.key_views().len()
                && self.key_views()[self.key_to_id@[key] as int] == Some(key)
    }

    /// What the index holds is in order.
    pub proof fn lemma_wf(&self)
        requires
            self.wf(),
        ensures
            self@.wf(),
    {
    }

    /// Creates an empty index over `dim`-dimensional vectors.
    pub fn new(dim: usize, metric: Metric) -> (r: Index)
        ensures
            r.wf(),
            r@ == Memory::fresh(dim as nat, metric),
    {
        let r = Index {
            dim,
            metric,
            store: VectorStore::new(dim),
            hnsw: Hnsw::new(HNSW_M, HNSW_EF_CONSTRUCTION, HNSW_SEED),
            keys: Vec::new(),
            key_to_id: ByteMap::new(),
        };
        assert(r.key_views() =~= Seq::empty());
        assert(r@ =~= Memory::fresh(dim as nat, metric));
        proof {
            reveal(graph::complete);
            r.hnsw.lemma_wf();
        }
        r
    }

    /// The required vector dimension.
    pub fn dim(&self) -> (r: usize)
        ensures
            r == self@.dim,
    {
        self.dim
    }

    /// The distance metric.
    pub fn metric(&self) -> (r: Metric)
        ensures
            r == self@.metric,
    {
        self.metric
    }

    /// How many live keys the index holds.
    pub fn len(&self) -> (r: usize)
        requires
            self.wf(),
        ensures
            r == self@.entries().len(),
    {
        assert(self@.entries().dom() =~= self.key_to_id@.dom());
        self.key_to_id.len()
    }

    /// How many more vectors the index can take.
    pub fn ids_left(&self) -> (r: u64)
        requires
            self.wf(),
        ensures
            r == CAPACITY - self@.keys.len(),
    {
        assert(self@.keys.len() == self.keys@.len());
        CAPACITY - self.keys.len() as u64
    }

    /// Whether every id has been given away, so that no vector can be added.
    pub fn is_full(&self) -> (r: bool)
        requires
            self.wf(),
        ensures
            r == (self@.keys.len() >= CAPACITY),
    {
        self.ids_left() == 0
    }

    /// The live `(key, vector)` pairs, for snapshotting, in the order of their
    /// ids. Vectors are returned as stored, which for a normalising metric means
    /// already normalised.
    pub fn entries(&self) -> (r: Vec<(&[u8], &[Float])>)
        requires
            self.wf(),
        ensures
            pair_views(r@) == self@.pairs(),
    {
        let mut out: Vec<(&[u8], &[Float])> = Vec::new();
        let mut i: usize = 0;
        let ghost keys = self@.keys;
        assert(pair_views(out@) =~= self@.listed(live_ids(keys.take(0))));
        while i < self.keys.len()
            invariant
                self.wf(),
                keys == self@.keys,
                i <= keys.len(),
                keys.len() == self.keys@.len(),
                keys.len() <= CAPACITY,
                pair_views(out@) == self@.listed(live_ids(keys.take(i as int))),
            decreases keys.len() - i,
        {
            proof {
                let part = keys.take(i + 1);
                assert(part.drop_last() =~= keys.take(i as int));
                assert(part.last() == keys[i as int]);
                lemma_listed_push(self@, live_ids(keys.take(i as int)), i as u32);
            }
            let ghost before = out@;
            if let Some(key) = &self.keys[i] {
                out.push((key.as_slice(), self.store.get(i as u32)));
                assert(pair_views(out@) =~= pair_views(before).push((key@, self@.vectors[i as int])));
            }
            i += 1;
        }
        assert(keys.take(i as int) =~= keys);
        out
    }

    /// Takes the key `key` from the id that has it, if any. Returns whether one
    /// had it.
    fn release(&mut self, key: &[u8]) -> (r: bool)
        requires
            old(self).wf(),
        ensures
            final(self).wf(),
            final(self)@ == old(self)@.without(key@),
            r == old(self)@.entries().contains_key(key@),
            final(self).store == old(self).store,
            final(self).hnsw == old(self).hnsw,
            final(self).dim == old(self).dim,
            final(self).metric == old(self).metric,
            !final(self).key_to_id@.contains_key(key@),
    {
        let ghost before = self.key_views();
        match self.key_to_id.remove(key) {
            Some(id) => {
                self.keys.set(id as usize, None);
                proof {
                    assert(before[id as int] == Some(key@));
                    assert(self.key_views() =~= cleared(before, key@)) by {
                        assert forall|i: int| 0 <= i < before.len() implies self.key_views()[i]
                            == cleared(before, key@)[i] by {
                            if i < id {
                                assert(before[i] is Some ==> before[i] != before[id as int]);
                            } else if i > id {
                                assert(before[id as int] != before[i]);
                            }
                        }
                    }
                    lemma_cleared(before, key@);
                    assert(self@ =~= old(self)@.without(key@));
                    lemma_without_wf(old(self)@, key@);
                }
                true
            },
            None => {
                proof {
                    lemma_cleared(before, key@);
                    assert(cleared(before, key@) =~= before) by {
                        assert forall|i: int| 0 <= i < before.len() implies before[i] != Some(
                            key@,
                        ) by {
                            if before[i] == Some(key@) {
                                assert(before.contains(Some(key@)));
                                assert(old(self).key_to_id@.contains_key(key@));
                            }
                        }
                    }
                    assert(self@ =~= old(self)@.without(key@));
                }
                false
            },
        }
    }

    /// Removes `key`, returning `true` if it was present.
    pub fn remove(&mut self, key: &[u8]) -> (r: bool)
        requires
            old(self).wf(),
        ensures
            final(self).wf(),
            final(self)@ == old(self)@.without(key@),
            r == old(self)@.entries().contains_key(key@),
    {
        self.release(key)
    }

    /// Inserts or overwrites `key` with `vec`, returning `true` if the key is
    /// new.
    ///
    /// Overwriting tombstones the previous node and inserts a fresh one, rather
    /// than mutating a vector in place, so the graph's neighbour distances stay
    /// consistent with the data.
    pub fn add<A: Fn(Operation<'_>) -> Float, L: Fn(u64, u64, usize) -> u8>(
        &mut self,
        key: Vec<u8>,
        vec: Vec<Float>,
        arith: &A,
        level_of: &L,
    ) -> (is_new: bool)
        requires
            old(self).wf(),
            old(self)@.dim > 0,
            vec@.len() == old(self)@.dim,
            old(self)@.keys.len() < CAPACITY,
            float::computes(*arith),
            hnsw::levels(*level_of),
        ensures
            final(self).wf(),
            is_new == !old(self)@.entries().contains_key(key@),
            added(*arith, *level_of, old(self)@, final(self)@, key@, vec@),
    {
        let ghost given = vec@;
        let stored = metric::prepare(self.metric, vec, arith);
        let taken = self.release(key.as_slice());
        let id: u32 = self.store.push(stored.as_slice());
        let ghost views = self.key_views();
        self.keys.push(Some(codec::copied(key.as_slice())));
        assert(self.key_views() =~= views.push(Some(key@)));
        self.key_to_id.insert(key, id);

        let metric = self.metric;
        let store = &self.store;
        let dist = |x: u32, y: u32| -> (d: Float)
            requires
                x <= id,
                y <= id,
            ensures
                measures(arith, metric, store, x, y, d),
            {
                metric.distance(store.get(x), store.get(y), arith)
            };
        let ghost between = hnsw::measured_pairs(dist);
        self.hnsw.insert(id, level_of, dist);
        proof {
            assert(graph::within(between, self@.distances(*arith)));
            let level = choose|level: nat| #[trigger]
                hnsw::drawn(*level_of, rng::unit_of(old(self)@.graph.rng), old(self)@.graph.m, level)
                    && graph::inserted(old(self)@.graph, self@.graph, id, level, between);
            graph::lemma_inserted_more(
                old(self)@.graph,
                self@.graph,
                id,
                level,
                between,
                self@.distances(*arith),
            );
            assert(added_as(
                *arith,
                *level_of,
                old(self)@,
                self@,
                key@,
                given,
                stored@,
                level,
            ));
            self.hnsw.lemma_wf();
            lemma_added_wf(*arith, *level_of, old(self)@, self@, key@, given, stored@, level);
            lemma_key_pushed(views, key@);
        }
        !taken
    }

    /// Returns the `k` nearest neighbours to `query` via the graph, closest
    /// first. `ef` is the search breadth (clamped up to at least `k`); larger
    /// values trade speed for recall.
    pub fn search<A: Fn(Operation<'_>) -> Float>(
        &self,
        query: Vec<Float>,
        k: usize,
        ef: usize,
        arith: &A,
    ) -> (out: Vec<Neighbor>)
        requires
            self.wf(),
            query@.len() == self@.dim,
            float::computes(*arith),
        ensures
            searched(*arith, self@, query@, k as nat, ef as nat, hits(out@)),
    {
        if k == 0 {
            return Vec::new();
        }
        let ghost given = query@;
        let q = metric::prepare(self.metric, query, arith);
        let metric = self.metric;
        let store = &self.store;
        let qs = q.as_slice();
        let dist = |id: u32| -> (d: Float)
            requires
                id < store@.len(),
            ensures
                measures_to(arith, metric, store, qs, id, d),
            { metric.distance(qs, store.get(id), arith) };
        let ghost near = hnsw::measured(dist);
        let found = self.hnsw.search(dist, k, ef);
        let ghost all = hnsw::candidates(found@);
        proof {
            graph::lemma_graph_search_more(
                self@.graph,
                near,
                self@.distances_to(*arith, q@),
                k as nat,
                ef as nat,
                all,
            );
        }
        let mut out: Vec<Neighbor> = Vec::new();
        let mut i: usize = 0;
        assert(hits(out@) =~= self@.live_hits(all.take(0)));
        while i < found.len() && out.len() < k
            invariant
                i <= found@.len(),
                all == hnsw::candidates(found@),
                out@.len() <= k,
                hits(out@) == self@.live_hits(all.take(i as int)),
            decreases found@.len() - i,
        {
            let (id, distance) = found[i];
            proof {
                let part = all.take(i + 1);
                assert(part.drop_last() =~= all.take(i as int));
                assert(part.last() == Candidate { id, dist: distance });
            }
            if (id as usize) < self.keys.len() {
                if let Some(key) = &self.keys[id as usize] {
                    let ghost before = out@;
                    let n = Neighbor { key: codec::copied(key.as_slice()), distance };
                    out.push(n);
                    assert(hits(out@) =~= hits(before).push(n@));
                }
            }
            i += 1;
        }
        proof {
            assert(all.take(all.len() as int) =~= all);
            lemma_live_hits_of_start(self@, all, i as int);
            assert(hits(out@) =~= first(self@.live_hits(all), k as nat));
            assert(searched_as(
                *arith,
                self@,
                given,
                k as nat,
                ef as nat,
                hits(out@),
                q@,
                all,
            ));
        }
        out
    }

    /// The exhaustive nearest-neighbour scan: ground truth for the graph.
    pub fn search_exact<A: Fn(Operation<'_>) -> Float>(
        &self,
        query: Vec<Float>,
        k: usize,
        arith: &A,
    ) -> (out: Vec<Neighbor>)
        requires
            self.wf(),
            query@.len() == self@.dim,
            float::computes(*arith),
        ensures
            searched_exactly(*arith, self@, query@, k as nat, hits(out@)),
    {
        if k == 0 {
            return Vec::new();
        }
        let ghost given = query@;
        let q = metric::prepare(self.metric, query, arith);
        let ghost near = self@.distances_to(*arith, q@);
        let ghost keys = self@.keys;
        let mut all: Vec<Candidate> = Vec::new();
        let mut i: usize = 0;
        assert(graph::ids(all@) =~= live_ids(keys.take(0)));
        while i < self.keys.len()
            invariant
                self.wf(),
                keys == self@.keys,
                near == self@.distances_to(*arith, q@),
                q@.len() == self@.dim,
                float::computes(*arith),
                i <= keys.len(),
                keys.len() == self.keys@.len(),
                keys.len() <= CAPACITY,
                graph::ids(all@) == live_ids(keys.take(i as int)),
                forall|j: int| 0 <= j < all@.len() ==> near((#[trigger] all@[j]).id, all@[j].dist),
            decreases keys.len() - i,
        {
            proof {
                let part = keys.take(i + 1);
                assert(part.drop_last() =~= keys.take(i as int));
                assert(part.last() == keys[i as int]);
            }
            if self.keys[i].is_some() {
                let ghost before = all@;
                let id: u32 = i as u32;
                let dist = self.metric.distance(q.as_slice(), self.store.get(id), arith);
                all.push(Candidate { dist, id });
                assert(graph::ids(all@) =~= graph::ids(before).push(id));
            }
            i += 1;
        }
        assert(keys.take(i as int) =~= keys);
        let sorted = hnsw::sort_candidates(&all);
        proof {
            lemma_scan_is_live(self@, near, all@, sorted@);
        }
        let mut out: Vec<Neighbor> = Vec::new();
        let mut j: usize = 0;
        while j < sorted.len() && j < k
            invariant
                self.wf(),
                keys == self@.keys,
                keys.len() == self.keys@.len(),
                j <= sorted@.len(),
                j <= k,
                forall|n: int|
                    0 <= n < sorted@.len() ==> (#[trigger] sorted@[n]).id < keys.len()
                        && keys[sorted@[n].id as int] is Some,
                out@.len() == j,
                forall|n: int|
                    0 <= n < j ==> (#[trigger] out@[n])@ == self@.hit(sorted@[n]),
            decreases sorted@.len() - j,
        {
            let c = sorted[j];
            if let Some(key) = &self.keys[c.id as usize] {
                out.push(Neighbor { key: codec::copied(key.as_slice()), distance: c.dist });
            }
            j += 1;
        }
        proof {
            let picked = first(sorted@, k as nat);
            assert(hits(out@) =~= picked.map_values(|c: Candidate| self@.hit(c)));
            assert(searched_exactly_as(
                *arith,
                self@,
                given,
                k as nat,
                hits(out@),
                q@,
                all@,
                sorted@,
            ));
        }
        out
    }
}

/// Whether measuring a stored vector against a query may give `d`.
spec fn measures_to<A: Fn(Operation<'_>) -> Float>(
    arith: &A,
    metric: Metric,
    store: &VectorStore,
    query: &[Float],
    id: u32,
    d: Float,
) -> bool {
    metric::gives_distance(*arith, metric, query@, store@[id as int], d)
}

/// The results for the first nodes found are the first results.
proof fn lemma_live_hits_of_start(memory: Memory, found: Seq<Candidate>, i: int)
    requires
        0 <= i <= found.len(),
    ensures
        memory.live_hits(found.take(i)).len() <= memory.live_hits(found).len(),
        memory.live_hits(found).take(memory.live_hits(found.take(i)).len() as int)
            == memory.live_hits(found.take(i)),
    decreases found.len(),
{
    let all = memory.live_hits(found);
    if i == found.len() {
        assert(found.take(i) =~= found);
        assert(all.take(all.len() as int) =~= all);
    } else {
        let less = found.drop_last();
        assert(less.take(i) =~= found.take(i));
        lemma_live_hits_of_start(memory, less, i);
        let n = memory.live_hits(found.take(i)).len() as int;
        assert(all.take(n) =~= memory.live_hits(less).take(n));
    }
}

/// Every id in the list of the live ones is one, each once and in order.
pub proof fn lemma_live_ids(keys: Seq<Option<Seq<u8>>>)
    requires
        keys.len() <= CAPACITY,
    ensures
        forall|i: int|
            0 <= i < live_ids(keys).len() ==> (#[trigger] live_ids(keys)[i]) < keys.len()
                && keys[live_ids(keys)[i] as int] is Some,
        forall|i: int, j: int|
            0 <= i < j < live_ids(keys).len() ==> #[trigger] live_ids(keys)[i]
                < #[trigger] live_ids(keys)[j],
        forall|id: u32|
            id < keys.len() && (#[trigger] keys[id as int]) is Some ==> live_ids(keys).contains(id),
    decreases keys.len(),
{
    if keys.len() > 0 {
        let less = keys.drop_last();
        let rest = live_ids(less);
        lemma_live_ids(less);
        let all = live_ids(keys);
        assert forall|i: int| 0 <= i < all.len() implies (#[trigger] all[i]) < keys.len()
            && keys[all[i] as int] is Some by {
            if i < rest.len() {
                assert(all[i] == rest[i]);
                assert(less[rest[i] as int] is Some);
            }
        }
        assert forall|i: int, j: int| 0 <= i < j < all.len() implies #[trigger] all[i]
            < #[trigger] all[j] by {
            assert(all[i] == rest[i]);
            if j < rest.len() {
                assert(all[j] == rest[j]);
            }
        }
        assert forall|id: u32|
            id < keys.len() && (#[trigger] keys[id as int]) is Some implies all.contains(id) by {
            if id < less.len() {
                assert(less[id as int] is Some);
                let i = choose|i: int| 0 <= i < rest.len() && rest[i] == id;
                assert(all[i] == id);
            } else {
                assert(all[rest.len() as int] == id);
            }
        }
    }
}

/// What a scan sorts are nodes that have a key.
proof fn lemma_scan_is_live(
    memory: Memory,
    near: Near,
    all: Seq<Candidate>,
    sorted: Seq<Candidate>,
)
    requires
        memory.wf(),
        memory.scanned(near, all),
        graph::stably_sorted(all, sorted),
    ensures
        forall|n: int|
            0 <= n < sorted.len() ==> (#[trigger] sorted[n]).id < memory.keys.len()
                && memory.keys[sorted[n].id as int] is Some,
{
    lemma_live_ids(memory.keys);
    let from = choose|from: Seq<int>| #[trigger] graph::sorted_by(all, sorted, from);
    assert forall|n: int| 0 <= n < sorted.len() implies (#[trigger] sorted[n]).id
        < memory.keys.len() && memory.keys[sorted[n].id as int] is Some by {
        assert(0 <= from[n] < all.len());
        assert(graph::ids(all)[from[n]] == sorted[n].id);
        assert(live_ids(memory.keys)[from[n]] == sorted[n].id);
    }
}

/// Whether measuring two stored vectors against each other may give `d`.
spec fn measures<A: Fn(Operation<'_>) -> Float>(
    arith: &A,
    metric: Metric,
    store: &VectorStore,
    x: u32,
    y: u32,
    d: Float,
) -> bool {
    metric::gives_distance(*arith, metric, store@[x as int], store@[y as int], d)
}

/// Pairs of a key and a vector as what they say.
pub open spec fn pair_views(s: Seq<(&[u8], &[Float])>) -> Seq<(Seq<u8>, Seq<Float>)> {
    s.map_values(|p: (&[u8], &[Float])| (p.0@, p.1@))
}

/// The key and the vector of each of the ids.
proof fn lemma_listed_push(memory: Memory, ids: Seq<u32>, id: u32)
    ensures
        memory.listed(ids.push(id)) == memory.listed(ids).push(
            (memory.keys[id as int]->0, memory.vectors[id as int]),
        ),
{
    assert(memory.listed(ids.push(id)) =~= memory.listed(ids).push(
        (memory.keys[id as int]->0, memory.vectors[id as int]),
    ));
}

/// Taking a key out of a list of keys leaves the others where they are.
proof fn lemma_cleared(keys: Seq<Option<Seq<u8>>>, key: Seq<u8>)
    ensures
        cleared(keys, key).len() == keys.len(),
        !cleared(keys, key).contains(Some(key)),
        forall|other: Seq<u8>|
            other != key ==> (#[trigger] cleared(keys, key).contains(Some(other))
                <==> keys.contains(Some(other))),
        forall|i: int|
            0 <= i < keys.len() && keys[i] != Some(key) ==> #[trigger] cleared(keys, key)[i]
                == keys[i],
{
    let after = cleared(keys, key);
    assert forall|other: Seq<u8>| other != key implies (#[trigger] after.contains(Some(other))
        <==> keys.contains(Some(other))) by {
        if after.contains(Some(other)) {
            let i = choose|i: int| 0 <= i < after.len() && after[i] == Some(other);
            assert(keys[i] == Some(other));
        }
        if keys.contains(Some(other)) {
            let i = choose|i: int| 0 <= i < keys.len() && keys[i] == Some(other);
            assert(after[i] == Some(other));
        }
    }
}

/// Appending a key adds it and no other.
proof fn lemma_key_pushed(keys: Seq<Option<Seq<u8>>>, key: Seq<u8>)
    ensures
        forall|other: Seq<u8>| #[trigger]
            keys.push(Some(key)).contains(Some(other)) <==> keys.contains(Some(other)) || other
                == key,
{
    let after = keys.push(Some(key));
    assert forall|other: Seq<u8>| #[trigger] after.contains(Some(other)) <==> keys.contains(
        Some(other),
    ) || other == key by {
        if keys.contains(Some(other)) {
            let i = choose|i: int| 0 <= i < keys.len() && keys[i] == Some(other);
            assert(after[i] == Some(other));
        }
        assert(after[keys.len() as int] == Some(key));
    }
}

proof fn lemma_without_wf(memory: Memory, key: Seq<u8>)
    requires
        memory.wf(),
    ensures
        memory.without(key).wf(),
{
    lemma_cleared(memory.keys, key);
    let after = memory.without(key);
    assert forall|i: int, j: int|
        0 <= i < j < after.keys.len() && #[trigger] after.keys[i] is Some implies after.keys[i]
        != #[trigger] after.keys[j] by {
        assert(memory.keys[i] is Some);
        assert(memory.keys[i] != memory.keys[j]);
    }
}

proof fn lemma_added_wf<A: Fn(Operation<'_>) -> Float, L: Fn(u64, u64, usize) -> u8>(
    arith: A,
    level_of: L,
    before: Memory,
    after: Memory,
    key: Seq<u8>,
    vec: Seq<Float>,
    stored: Seq<Float>,
    level: nat,
)
    requires
        before.wf(),
        added_as(arith, level_of, before, after, key, vec, stored, level),
        stored.len() == before.dim,
        before.keys.len() < CAPACITY,
        after.graph.wf(),
    ensures
        after.wf(),
{
    assert(after.small() ==> graph::complete(after.graph)) by {
        lemma_added_complete(arith, level_of, before, after, key, vec, stored, level);
    }
    lemma_without_wf(before, key);
    lemma_cleared(before.keys, key);
    let less = cleared(before.keys, key);
    assert forall|i: int, j: int|
        0 <= i < j < after.keys.len() && #[trigger] after.keys[i] is Some implies after.keys[i]
        != #[trigger] after.keys[j] by {
        assert(before.without(key).keys[i] == after.keys[i]);
        if j == less.len() {
            if after.keys[i] == Some(key) {
                assert(less.contains(Some(key)));
            }
        } else {
            assert(before.without(key).keys[j] == after.keys[j]);
        }
    }
}

/// A new index is in order.
pub proof fn lemma_fresh_wf(dim: nat, metric: Metric)
    ensures
        Memory::fresh(dim, metric).wf(),
{
    reveal(graph::complete);
    let g = Memory::fresh(dim, metric).graph;
    assert forall|x: int, layer: int| #[trigger] g.tidy(x, layer) by {}
}

/// Adding to a small index leaves every node a neighbour of every other.
proof fn lemma_added_complete<A: Fn(Operation<'_>) -> Float, L: Fn(u64, u64, usize) -> u8>(
    arith: A,
    level_of: L,
    before: Memory,
    after: Memory,
    key: Seq<u8>,
    vec: Seq<Float>,
    stored: Seq<Float>,
    level: nat,
)
    requires
        before.wf(),
        added_as(arith, level_of, before, after, key, vec, stored, level),
        before.keys.len() < CAPACITY,
    ensures
        after.small() ==> graph::complete(after.graph),
{
    if after.small() {
        assert(after.keys.len() == before.keys.len() + 1);
        graph::law_insertion_keeps_small_layers_complete(
            before.graph,
            after.graph,
            before.keys.len() as u32,
            level,
            after.distances(arith),
        );
    }
}

impl Memory {
    /// The key and the vector of each of the ids.
    pub open spec fn listed(self, ids: Seq<u32>) -> Seq<(Seq<u8>, Seq<Float>)> {
        ids.map_values(|id: u32| (self.keys[id as int]->0, self.vectors[id as int]))
    }

    /// The live keys with their vectors, in the order of their ids.
    pub open spec fn pairs(self) -> Seq<(Seq<u8>, Seq<Float>)> {
        self.listed(live_ids(self.keys))
    }

    /// What an index holds when it is new.
    pub open spec fn fresh(dim: nat, metric: Metric) -> Memory {
        Memory {
            dim,
            metric,
            keys: seq![],
            vectors: seq![],
            graph: Graph {
                m: HNSW_M as nat,
                ef_construction: HNSW_EF_CONSTRUCTION as nat,
                rng: rng::seeded(HNSW_SEED),
                entry: None,
                max_level: 0,
                nodes: seq![],
            },
        }
    }
}

/// After a vector has been added under a key, the key leads to it, as the metric
/// wants it stored, and every other key leads to what it led to before.
pub proof fn law_add_sets_the_entry<
    A: Fn(Operation<'_>) -> Float,
    L: Fn(u64, u64, usize) -> u8,
>(arith: A, level_of: L, before: Memory, after: Memory, key: Seq<u8>, vec: Seq<Float>)
    requires
        before.wf(),
        added(arith, level_of, before, after, key, vec),
    ensures
        exists|stored: Seq<Float>| #[trigger]
            metric::gives_prepared(arith, before.metric, vec, stored) && after.entries()
                == before.entries().insert(key, stored),
        after.dim == before.dim,
        after.metric == before.metric,
        after.keys.len() == before.keys.len() + 1,
{
    let (stored, level) = choose|stored: Seq<Float>, level: nat| #[trigger]
        added_as(arith, level_of, before, after, key, vec, stored, level);
    let less = cleared(before.keys, key);
    lemma_cleared(before.keys, key);
    lemma_key_pushed(less, key);
    assert forall|other: Seq<u8>| #[trigger] after.entries().contains_key(
        other,
    ) implies after.entries()[other] == before.entries().insert(key, stored)[other] by {
        let i = after.keys.index_of(Some(other));
        assert(after.keys.contains(Some(other)));
        assert(after.keys[i] == Some(other));
        if other == key {
            if i < less.len() {
                assert(less[i] == Some(key));
                assert(less.contains(Some(key)));
            }
        } else {
            assert(less[i] == Some(other));
            assert(before.keys[i] == Some(other));
            lemma_only_one(before, other, i);
        }
    }
    assert(after.entries() =~= before.entries().insert(key, stored));
}

/// After a key has been removed it leads nowhere, and every other key leads to
/// what it led to before.
pub proof fn law_remove_drops_the_entry(memory: Memory, key: Seq<u8>)
    requires
        memory.wf(),
    ensures
        memory.without(key).entries() == memory.entries().remove(key),
{
    let after = memory.without(key);
    lemma_cleared(memory.keys, key);
    assert forall|other: Seq<u8>| #[trigger] after.entries().contains_key(
        other,
    ) implies after.entries()[other] == memory.entries()[other] by {
        let i = after.keys.index_of(Some(other));
        assert(after.keys.contains(Some(other)));
        assert(after.keys[i] == Some(other));
        assert(memory.keys[i] == Some(other));
        lemma_only_one(memory, other, i);
    }
    assert(after.entries() =~= memory.entries().remove(key));
}

/// The id of a key is the only one that has it.
pub proof fn lemma_only_one(memory: Memory, key: Seq<u8>, i: int)
    requires
        memory.wf(),
        0 <= i < memory.keys.len(),
        memory.keys[i] == Some(key),
    ensures
        memory.keys.contains(Some(key)),
        memory.keys.index_of(Some(key)) == i,
{
    let j = memory.keys.index_of(Some(key));
    assert(memory.keys.contains(Some(key)));
    assert(memory.keys[j] == Some(key));
    if i < j {
        assert(memory.keys[i] != memory.keys[j]);
    } else if j < i {
        assert(memory.keys[j] != memory.keys[i]);
    }
}

/// The keys of results.
pub open spec fn hit_keys(s: Seq<Hit>) -> Seq<Seq<u8>> {
    s.map_values(|h: Hit| h.key)
}

/// Whether `out` holds live keys, each once, closest first, each with a distance
/// that measuring its vector against `q` may give.
pub open spec fn well_found<A: Fn(Operation<'_>) -> Float>(
    arith: A,
    memory: Memory,
    q: Seq<Float>,
    out: Seq<Hit>,
) -> bool {
    &&& hit_keys(out).no_duplicates()
    &&& forall|i: int, j: int|
        0 <= i <= j < out.len() ==> (#[trigger] out[i]).distance.rank() <= (
        #[trigger] out[j]).distance.rank()
    &&& forall|i: int|
        0 <= i < out.len() ==> memory.entries().contains_key((#[trigger] out[i]).key)
            && metric::gives_distance(
            arith,
            memory.metric,
            q,
            memory.entries()[out[i].key],
            out[i].distance,
        )
}

/// Whether `out` holds the `k` live keys closest to `q`, or all if there are
/// fewer: no key that was left out is closer than one that was not.
pub open spec fn nearest<A: Fn(Operation<'_>) -> Float>(
    arith: A,
    memory: Memory,
    q: Seq<Float>,
    k: nat,
    out: Seq<Hit>,
) -> bool {
    &&& well_found(arith, memory, q, out)
    &&& out.len() == graph::lower(k, memory.entries().len())
    &&& forall|key: Seq<u8>| #[trigger]
        memory.entries().contains_key(key) && !hit_keys(out).contains(key) ==> left_out(
            arith,
            memory,
            q,
            key,
            out,
        )
}

/// Whether measuring a key may give a distance that is no smaller than that of
/// any of the results.
pub open spec fn left_out<A: Fn(Operation<'_>) -> Float>(
    arith: A,
    memory: Memory,
    q: Seq<Float>,
    key: Seq<u8>,
    out: Seq<Hit>,
) -> bool {
    exists|d: Float| #[trigger]
        metric::gives_distance(arith, memory.metric, q, memory.entries()[key], d) && forall|i: int|
            0 <= i < out.len() ==> (#[trigger] out[i]).distance.rank() <= d.rank()
}

/// A search returns at most `k` live keys, each once, closest first, with the
/// distances of their vectors from the query. In particular it returns no key
/// that was deleted, and for a key that was overwritten only the new vector
/// counts.
pub proof fn law_search_returns_live_keys<A: Fn(Operation<'_>) -> Float>(
    arith: A,
    memory: Memory,
    query: Seq<Float>,
    k: nat,
    ef: nat,
    out: Seq<Hit>,
)
    requires
        memory.wf(),
        searched(arith, memory, query, k, ef, out),
    ensures
        out.len() <= k,
        k > 0 ==> exists|q: Seq<Float>| #[trigger]
            metric::gives_prepared(arith, memory.metric, query, q) && well_found(
                arith,
                memory,
                q,
                out,
            ),
{
    if k > 0 {
        let (q, found) = choose|q: Seq<Float>, found: Seq<Candidate>| #[trigger]
            searched_as(arith, memory, query, k, ef, out, q, found);
        graph::law_graph_search_returns_nodes(
            memory.graph,
            memory.distances_to(arith, q),
            k,
            ef,
            found,
        );
        let from = live_places(memory, found);
        lemma_live_places(memory, found);
        lemma_well_found(arith, memory, q, found, from.take(out.len() as int), out);
    }
}

/// The exhaustive scan returns the `k` live keys that are closest to the query.
pub proof fn law_exact_search_is_the_ground_truth<A: Fn(Operation<'_>) -> Float>(
    arith: A,
    memory: Memory,
    query: Seq<Float>,
    k: nat,
    out: Seq<Hit>,
)
    requires
        memory.wf(),
        searched_exactly(arith, memory, query, k, out),
        k > 0,
    ensures
        exists|q: Seq<Float>| #[trigger]
            metric::gives_prepared(arith, memory.metric, query, q) && nearest(
                arith,
                memory,
                q,
                k,
                out,
            ),
{
    let (q, all, sorted) = choose|q: Seq<Float>, all: Seq<Candidate>, sorted: Seq<Candidate>|
     #[trigger]
        searched_exactly_as(arith, memory, query, k, out, q, all, sorted);
    let near = memory.distances_to(arith, q);
    let places = choose|places: Seq<int>| #[trigger] graph::sorted_by(all, sorted, places);
    lemma_scan_is_live(memory, near, all, sorted);
    lemma_live_ids(memory.keys);
    assert(graph::ids(sorted).no_duplicates()) by {
        assert forall|i: int, j: int|
            0 <= i < sorted.len() && 0 <= j < sorted.len() && i != j implies graph::ids(sorted)[i]
            != graph::ids(sorted)[j] by {
            assert(places[i] != places[j]);
            assert(graph::ids(all)[places[i]] != graph::ids(all)[places[j]]);
        }
    }
    assert forall|i: int| 0 <= i < sorted.len() implies near(
        (#[trigger] sorted[i]).id,
        sorted[i].dist,
    ) by {
        assert(0 <= places[i] < all.len());
        assert(sorted[i] == all[places[i]]);
    }
    assert forall|id: u32|
        id < memory.keys.len() && memory.keys[id as int] is Some implies #[trigger] graph::ids(
        sorted,
    ).contains(id) by {
        assert(graph::ids(all).contains(id));
        let at = choose|at: int| 0 <= at < all.len() && graph::ids(all)[at] == id;
        lemma_hit_somewhere(places, all.len(), at);
        let i = choose|i: int| 0 <= i < places.len() && places[i] == at;
        assert(sorted[i] == all[places[i]]);
        assert(graph::ids(sorted)[i] == id);
    }
    lemma_live_all(memory, sorted);
    assert(out =~= first(memory.live_hits(sorted), k));
    lemma_nearest(arith, memory, q, k, sorted, out);
}

/// A search that is as wide as the index is large returns the `k` live keys that
/// are closest to the query, if the index is small or the lowest layer of its
/// graph is connected.
pub proof fn law_wide_search_is_exact<A: Fn(Operation<'_>) -> Float>(
    arith: A,
    memory: Memory,
    query: Seq<Float>,
    k: nat,
    ef: nat,
    out: Seq<Hit>,
)
    requires
        memory.wf(),
        searched(arith, memory, query, k, ef, out),
        k > 0,
        graph::upper(ef, k) >= memory.keys.len(),
        memory.small() || graph::connected(memory.graph),
    ensures
        exists|q: Seq<Float>| #[trigger]
            metric::gives_prepared(arith, memory.metric, query, q) && nearest(
                arith,
                memory,
                q,
                k,
                out,
            ),
{
    let (q, found) = choose|q: Seq<Float>, found: Seq<Candidate>| #[trigger]
        searched_as(arith, memory, query, k, ef, out, q, found);
    let near = memory.distances_to(arith, q);
    if memory.small() {
        graph::law_complete_layer_is_connected(memory.graph);
    }
    graph::law_graph_search_returns_nodes(memory.graph, near, k, ef, found);
    assert forall|id: u32|
        id < memory.keys.len() && memory.keys[id as int] is Some implies #[trigger] graph::ids(
        found,
    ).contains(id) by {
        graph::law_wide_graph_search_is_exhaustive(memory.graph, near, k, ef, found, id);
    }
    lemma_nearest(arith, memory, q, k, found, out);
}

/// The nodes of `found` that have no key.
spec fn dead_among(memory: Memory, found: Seq<Candidate>) -> Seq<u32>
    decreases found.len(),
{
    if found.len() == 0 {
        seq![]
    } else {
        let rest = dead_among(memory, found.drop_last());
        let c = found.last();
        if c.id < memory.keys.len() && memory.keys[c.id as int] is Some {
            rest
        } else {
            rest.push(c.id)
        }
    }
}

proof fn lemma_dead_among(memory: Memory, found: Seq<Candidate>)
    requires
        graph::ids(found).no_duplicates(),
        forall|i: int| 0 <= i < found.len() ==> (#[trigger] found[i]).id < memory.keys.len(),
    ensures
        dead_among(memory, found).len() + memory.live_hits(found).len() == found.len(),
        dead_among(memory, found).no_duplicates(),
        forall|i: int|
            0 <= i < dead_among(memory, found).len() ==> {
                let id = #[trigger] dead_among(memory, found)[i];
                graph::ids(found).contains(id) && id < memory.keys.len()
                    && memory.keys[id as int] is None
            },
    decreases found.len(),
{
    if found.len() > 0 {
        let less = found.drop_last();
        let few = graph::ids(less);
        let all = graph::ids(found);
        assert forall|i: int, j: int|
            0 <= i < few.len() && 0 <= j < few.len() && i != j implies few[i] != few[j] by {
            assert(few[i] == all[i] && few[j] == all[j]);
        }
        assert forall|i: int| 0 <= i < less.len() implies (#[trigger] less[i]).id
            < memory.keys.len() by {
            assert(less[i] == found[i]);
        }
        lemma_dead_among(memory, less);
        let rest = dead_among(memory, less);
        let dead = dead_among(memory, found);
        let last = found.last().id;
        assert(all[found.len() - 1] == last);
        assert(found[found.len() - 1] == found.last());
        assert forall|i: int| 0 <= i < rest.len() implies all.contains(#[trigger] rest[i])
            && rest[i] != last by {
            let k = choose|k: int| 0 <= k < few.len() && few[k] == rest[i];
            assert(all[k] == few[k]);
        }
        assert forall|i: int| 0 <= i < dead.len() implies {
            let id = #[trigger] dead[i];
            all.contains(id) && id < memory.keys.len() && memory.keys[id as int] is None
        } by {
            if i < rest.len() {
                assert(dead[i] == rest[i]);
            }
        }
    }
}

/// There are as many live keys as ids that have a key.
pub proof fn lemma_live_count(memory: Memory)
    requires
        memory.wf(),
    ensures
        memory.entries().len() == live_ids(memory.keys).len(),
        memory.entries().dom().finite(),
{
    let ids = live_ids(memory.keys);
    lemma_live_ids(memory.keys);
    let names = ids.map_values(|id: u32| memory.keys[id as int]->0);
    assert forall|i: int, j: int|
        0 <= i < names.len() && 0 <= j < names.len() && i != j implies names[i] != names[j] by {
        assert(memory.keys[ids[i] as int] is Some && memory.keys[ids[j] as int] is Some);
        assert(ids[i] != ids[j]) by {
            if i < j {
                assert(ids[i] < ids[j]);
            } else {
                assert(ids[j] < ids[i]);
            }
        }
        lemma_only_one(memory, names[i], ids[i] as int);
        lemma_only_one(memory, names[j], ids[j] as int);
    }
    names.unique_seq_to_set();
    assert forall|key: Seq<u8>| memory.entries().contains_key(key) <==> names.contains(key) by {
        if memory.entries().contains_key(key) {
            let at = memory.keys.index_of(Some(key));
            assert(memory.keys.contains(Some(key)));
            assert(memory.keys[at as u32 as int] is Some);
            assert(ids.contains(at as u32));
            let i = choose|i: int| 0 <= i < ids.len() && ids[i] == at as u32;
            assert(names[i] == key);
        }
        if names.contains(key) {
            let i = choose|i: int| 0 <= i < names.len() && names[i] == key;
            assert(memory.keys[ids[i] as int] is Some);
            assert(memory.keys[ids[i] as int] == Some(key));
            assert(memory.keys.contains(Some(key)));
        }
    }
    assert(memory.entries().dom() =~= names.to_set());
}

/// A search returns as many results as were asked for, or else every live key that
/// it was wide enough to come by: it looks at as many vectors as it is wide, or at
/// all if there are fewer, and passes over none but those that were deleted or
/// overwritten. That is so if the index is small or the lowest layer of its graph
/// is connected.
pub proof fn law_search_passes_over_the_dead_only<A: Fn(Operation<'_>) -> Float>(
    arith: A,
    memory: Memory,
    query: Seq<Float>,
    k: nat,
    ef: nat,
    out: Seq<Hit>,
)
    requires
        memory.wf(),
        searched(arith, memory, query, k, ef, out),
        memory.small() || graph::connected(memory.graph),
    ensures
        out.len() == k || {
            let dead = memory.keys.len() - memory.entries().len();
            let width = if ef <= k {
                k
            } else {
                ef
            };
            out.len() >= width - dead || out.len() >= memory.keys.len() - dead
        },
{
    if k > 0 {
        let (q, found) = choose|q: Seq<Float>, found: Seq<Candidate>| #[trigger]
            searched_as(arith, memory, query, k, ef, out, q, found);
        let near = memory.distances_to(arith, q);
        if memory.small() {
            graph::law_complete_layer_is_connected(memory.graph);
        }
        let n = memory.keys.len();
        graph::law_graph_search_returns_nodes(memory.graph, near, k, ef, found);
        graph::law_connected_graph_search_is_full(memory.graph, near, k, ef, found);
        lemma_dead_among(memory, found);
        lemma_live_count(memory);
        lemma_live_ids(memory.keys);
        let dead = dead_among(memory, found);
        let live = live_ids(memory.keys);
        let all = live + dead;
        assert forall|i: int| 0 <= i < all.len() implies #[trigger] all[i] < n by {
            if i < live.len() {
                assert(live[i] < n);
            } else {
                assert(dead[i - live.len()] < n);
            }
        }
        assert forall|i: int, j: int|
            0 <= i < all.len() && 0 <= j < all.len() && i != j implies all[i] != all[j] by {
            if i < live.len() && j < live.len() {
                if i < j {
                    assert(live[i] < live[j]);
                } else {
                    assert(live[j] < live[i]);
                }
            } else if i >= live.len() && j >= live.len() {
                assert(dead[i - live.len()] != dead[j - live.len()]);
            } else if i < live.len() {
                assert(memory.keys[live[i] as int] is Some);
                assert(memory.keys[dead[j - live.len()] as int] is None);
            } else {
                assert(memory.keys[live[j] as int] is Some);
                assert(memory.keys[dead[i - live.len()] as int] is None);
            }
        }
        graph::lemma_distinct_below(all, n);
    }
}

/// Whether no two live keys are equally far from `q`.
pub open spec fn told_apart<A: Fn(Operation<'_>) -> Float>(
    arith: A,
    memory: Memory,
    q: Seq<Float>,
) -> bool {
    forall|a: Seq<u8>, b: Seq<u8>, x: Float, y: Float|
        a != b && memory.entries().contains_key(a) && memory.entries().contains_key(b)
            && #[trigger] metric::gives_distance(
            arith,
            memory.metric,
            q,
            memory.entries()[a],
            x,
        ) && #[trigger] metric::gives_distance(arith, memory.metric, q, memory.entries()[b], y)
            ==> x.rank() != y.rank()
}

/// A search that is as wide as the index is large returns what the exhaustive scan
/// returns, if the index is small or the lowest layer of its graph is connected,
/// and no two live keys are equally far from the query.
pub proof fn law_wide_search_agrees_with_the_scan<A: Fn(Operation<'_>) -> Float>(
    arith: A,
    memory: Memory,
    query: Seq<Float>,
    k: nat,
    ef: nat,
    out: Seq<Hit>,
    exact: Seq<Hit>,
)
    requires
        float::deterministic(arith),
        memory.wf(),
        forall|q: Seq<Float>| #[trigger]
            metric::gives_prepared(arith, memory.metric, query, q) ==> told_apart(
                arith,
                memory,
                q,
            ),
        graph::upper(ef, k) >= memory.keys.len(),
        memory.small() || graph::connected(memory.graph),
        searched(arith, memory, query, k, ef, out),
        searched_exactly(arith, memory, query, k, exact),
    ensures
        out == exact,
{
    if k > 0 {
        law_wide_search_is_exact(arith, memory, query, k, ef, out);
        law_exact_search_is_the_ground_truth(arith, memory, query, k, exact);
        metric::law_deterministic_arithmetic_gives_deterministic_distances(
            arith,
            memory.metric,
            query,
            query,
        );
        let q = choose|q: Seq<Float>| #[trigger]
            metric::gives_prepared(arith, memory.metric, query, q) && nearest(
                arith,
                memory,
                q,
                k,
                out,
            );
        let r = choose|q: Seq<Float>| #[trigger]
            metric::gives_prepared(arith, memory.metric, query, q) && nearest(
                arith,
                memory,
                q,
                k,
                exact,
            );
        assert(q == r);
        lemma_nearest_agree(arith, memory, q, k, out, exact, out.len() as int);
        assert(out.take(out.len() as int) =~= out);
        assert(exact.take(exact.len() as int) =~= exact);
    } else {
        assert(out =~= exact);
    }
}

/// Where no two keys are equally far, the nearest ones are found in one order.
proof fn lemma_nearest_agree<A: Fn(Operation<'_>) -> Float>(
    arith: A,
    memory: Memory,
    q: Seq<Float>,
    k: nat,
    a: Seq<Hit>,
    b: Seq<Hit>,
    n: int,
)
    requires
        float::deterministic(arith),
        told_apart(arith, memory, q),
        nearest(arith, memory, q, k, a),
        nearest(arith, memory, q, k, b),
        0 <= n <= a.len(),
    ensures
        a.take(n) == b.take(n),
    decreases n,
{
    if n == 0 {
        assert(a.take(0) =~= b.take(0));
    } else {
        let i = n - 1;
        lemma_nearest_agree(arith, memory, q, k, a, b, i);
        let x = a[i];
        let y = b[i];
        if x.key != y.key {
            if x.distance.rank() < y.distance.rank() {
                lemma_not_passed_over(arith, memory, q, k, a, b, i);
            } else {
                assert(b.take(i) == a.take(i));
                lemma_not_passed_over(arith, memory, q, k, b, a, i);
            }
        }
        metric::law_deterministic_arithmetic_gives_deterministic_distances(
            arith,
            memory.metric,
            q,
            memory.entries()[x.key],
        );
        assert(x.distance == y.distance);
        assert(a.take(n) =~= a.take(i).push(x));
        assert(b.take(n) =~= b.take(i).push(y));
    }
}

/// The next result of one search cannot be closer than that of the other.
proof fn lemma_not_passed_over<A: Fn(Operation<'_>) -> Float>(
    arith: A,
    memory: Memory,
    q: Seq<Float>,
    k: nat,
    a: Seq<Hit>,
    b: Seq<Hit>,
    i: int,
)
    requires
        float::deterministic(arith),
        told_apart(arith, memory, q),
        nearest(arith, memory, q, k, a),
        nearest(arith, memory, q, k, b),
        0 <= i < a.len(),
        a.take(i) == b.take(i),
        a[i].key != b[i].key,
    ensures
        a[i].distance.rank() > b[i].distance.rank(),
{
    let x = a[i];
    let y = b[i];
    metric::law_deterministic_arithmetic_gives_deterministic_distances(
        arith,
        memory.metric,
        q,
        memory.entries()[x.key],
    );
    assert(x.distance.rank() != y.distance.rank());
    if hit_keys(b).contains(x.key) {
        let j = choose|j: int| 0 <= j < hit_keys(b).len() && hit_keys(b)[j] == x.key;
        assert(b[j].key == x.key);
        if j < i {
            assert(a.take(i)[j] == b.take(i)[j]);
            assert(hit_keys(a)[j] == hit_keys(a)[i]);
        } else {
            assert(b[j].distance == x.distance);
            assert(b[i].distance.rank() <= b[j].distance.rank());
        }
    } else {
        assert(left_out(arith, memory, q, x.key, b));
        let d = choose|d: Float| #[trigger]
            metric::gives_distance(arith, memory.metric, q, memory.entries()[x.key], d) && forall|
                j: int,
            |
                0 <= j < b.len() ==> (#[trigger] b[j]).distance.rank() <= d.rank();
        assert(d == x.distance);
    }
}

/// The places in `found` of the nodes that have a key.
spec fn live_places(memory: Memory, found: Seq<Candidate>) -> Seq<int>
    decreases found.len(),
{
    if found.len() == 0 {
        seq![]
    } else {
        let rest = live_places(memory, found.drop_last());
        let c = found.last();
        if c.id < memory.keys.len() && memory.keys[c.id as int] is Some {
            rest.push(found.len() - 1)
        } else {
            rest
        }
    }
}

/// Whether a place in `found` has a node with a key.
spec fn live_at(memory: Memory, found: Seq<Candidate>, i: int) -> bool {
    &&& 0 <= i < found.len()
    &&& found[i].id < memory.keys.len()
    &&& memory.keys[found[i].id as int] is Some
}

proof fn lemma_live_places(memory: Memory, found: Seq<Candidate>)
    ensures
        memory.live_hits(found).len() == live_places(memory, found).len(),
        forall|i: int|
            0 <= i < live_places(memory, found).len() ==> live_at(
                memory,
                found,
                #[trigger] live_places(memory, found)[i],
            ) && memory.live_hits(found)[i] == memory.hit(found[live_places(memory, found)[i]]),
        forall|i: int, j: int|
            0 <= i < j < live_places(memory, found).len() ==> #[trigger] live_places(
                memory,
                found,
            )[i] < #[trigger] live_places(memory, found)[j],
        forall|p: int| #[trigger]
            live_at(memory, found, p) ==> live_places(memory, found).contains(p),
    decreases found.len(),
{
    if found.len() > 0 {
        let less = found.drop_last();
        lemma_live_places(memory, less);
        let rest = live_places(memory, less);
        let all = live_places(memory, found);
        assert forall|i: int| 0 <= i < all.len() implies live_at(memory, found, #[trigger] all[i])
            && memory.live_hits(found)[i] == memory.hit(found[all[i]]) by {
            if i < rest.len() {
                assert(all[i] == rest[i]);
                assert(live_at(memory, less, rest[i]));
                assert(memory.live_hits(found)[i] == memory.live_hits(less)[i]);
            }
        }
        assert forall|i: int, j: int| 0 <= i < j < all.len() implies #[trigger] all[i]
            < #[trigger] all[j] by {
            assert(all[i] == rest[i]);
            assert(live_at(memory, less, rest[i]));
            if j < rest.len() {
                assert(all[j] == rest[j]);
            }
        }
        assert forall|p: int| #[trigger] live_at(memory, found, p) implies all.contains(p) by {
            if p < less.len() {
                assert(live_at(memory, less, p));
                let i = choose|i: int| 0 <= i < rest.len() && rest[i] == p;
                assert(all[i] == p);
            } else {
                assert(all[rest.len() as int] == p);
            }
        }
    }
}

/// Results taken at ascending places from nodes in ascending order are well found.
proof fn lemma_well_found<A: Fn(Operation<'_>) -> Float>(
    arith: A,
    memory: Memory,
    q: Seq<Float>,
    found: Seq<Candidate>,
    from: Seq<int>,
    out: Seq<Hit>,
)
    requires
        memory.wf(),
        graph::ids(found).no_duplicates(),
        graph::ascending(found),
        forall|i: int|
            0 <= i < found.len() ==> memory.distances_to(arith, q)(
                (#[trigger] found[i]).id,
                found[i].dist,
            ),
        from.len() == out.len(),
        forall|i: int|
            0 <= i < from.len() ==> live_at(memory, found, #[trigger] from[i]) && out[i]
                == memory.hit(found[from[i]]),
        forall|i: int, j: int| 0 <= i < j < from.len() ==> #[trigger] from[i] < #[trigger] from[j],
    ensures
        well_found(arith, memory, q, out),
{
    assert forall|i: int| 0 <= i < out.len() implies memory.entries().contains_key(
        (#[trigger] out[i]).key,
    ) && metric::gives_distance(
        arith,
        memory.metric,
        q,
        memory.entries()[out[i].key],
        out[i].distance,
    ) by {
        let c = found[from[i]];
        assert(live_at(memory, found, from[i]));
        lemma_only_one(memory, out[i].key, c.id as int);
        assert(memory.distances_to(arith, q)(c.id, c.dist));
    }
    assert forall|i: int, j: int| 0 <= i <= j < out.len() implies (
    #[trigger] out[i]).distance.rank() <= (#[trigger] out[j]).distance.rank() by {
        assert(live_at(memory, found, from[i]) && live_at(memory, found, from[j]));
        if i < j {
            assert(from[i] < from[j]);
        }
        assert(found[from[i]].dist.rank() <= found[from[j]].dist.rank());
    }
    assert forall|i: int, j: int|
        0 <= i < out.len() && 0 <= j < out.len() && i != j implies hit_keys(out)[i] != hit_keys(
        out,
    )[j] by {
        let a = found[from[i]];
        let b = found[from[j]];
        assert(live_at(memory, found, from[i]) && live_at(memory, found, from[j]));
        assert(from[i] != from[j]) by {
            if i < j {
                assert(from[i] < from[j]);
            } else {
                assert(from[j] < from[i]);
            }
        }
        assert(graph::ids(found)[from[i]] != graph::ids(found)[from[j]]);
        lemma_only_one(memory, memory.keys[a.id as int]->0, a.id as int);
        lemma_only_one(memory, memory.keys[b.id as int]->0, b.id as int);
    }
}

/// Where every node has a key, the results are those of all nodes.
proof fn lemma_live_all(memory: Memory, found: Seq<Candidate>)
    requires
        forall|n: int|
            0 <= n < found.len() ==> (#[trigger] found[n]).id < memory.keys.len()
                && memory.keys[found[n].id as int] is Some,
    ensures
        memory.live_hits(found) == found.map_values(|c: Candidate| memory.hit(c)),
    decreases found.len(),
{
    let f = |c: Candidate| memory.hit(c);
    if found.len() == 0 {
        assert(memory.live_hits(found) =~= found.map_values(f));
    } else {
        let less = found.drop_last();
        assert forall|n: int| 0 <= n < less.len() implies (#[trigger] less[n]).id
            < memory.keys.len() && memory.keys[less[n].id as int] is Some by {
            assert(less[n] == found[n]);
        }
        lemma_live_all(memory, less);
        assert(found.last() == found[found.len() - 1]);
        assert(memory.live_hits(found) =~= found.map_values(f));
    }
}

/// As many distinct numbers below `n` as `n` are all of them.
pub proof fn lemma_hit_somewhere(places: Seq<int>, n: nat, at: int)
    requires
        places.no_duplicates(),
        places.len() == n,
        forall|i: int| 0 <= i < places.len() ==> 0 <= #[trigger] places[i] < n,
        0 <= at < n,
    ensures
        places.contains(at),
{
    let whole = vstd::set_lib::set_int_range(0, n as int);
    vstd::set_lib::lemma_int_range(0, n as int);
    let set = places.to_set();
    places.unique_seq_to_set();
    assert forall|x: int| set.contains(x) implies whole.contains(x) by {
        let i = choose|i: int| 0 <= i < places.len() && places[i] == x;
        assert(0 <= places[i] < n);
    }
    vstd::set_lib::lemma_subset_equality(set, whole);
    assert(set.contains(at));
}

/// The first `k` results of nodes in ascending order that hold every live key are
/// the nearest.
proof fn lemma_nearest<A: Fn(Operation<'_>) -> Float>(
    arith: A,
    memory: Memory,
    q: Seq<Float>,
    k: nat,
    found: Seq<Candidate>,
    out: Seq<Hit>,
)
    requires
        memory.wf(),
        graph::ids(found).no_duplicates(),
        graph::ascending(found),
        forall|i: int|
            0 <= i < found.len() ==> memory.distances_to(arith, q)(
                (#[trigger] found[i]).id,
                found[i].dist,
            ),
        forall|id: u32|
            id < memory.keys.len() && memory.keys[id as int] is Some ==> #[trigger] graph::ids(
                found,
            ).contains(id),
        out == first(memory.live_hits(found), k),
    ensures
        nearest(arith, memory, q, k, out),
{
    let from = live_places(memory, found);
    lemma_live_places(memory, found);
    let taken = from.take(out.len() as int);
    lemma_well_found(arith, memory, q, found, taken, out);
    let whole = memory.live_hits(found);
    lemma_well_found(arith, memory, q, found, from, whole);
    assert(memory.entries().dom() =~= hit_keys(whole).to_set()) by {
        assert forall|key: Seq<u8>| memory.entries().contains_key(key) implies hit_keys(
            whole,
        ).contains(key) by {
            lemma_live_key_found(memory, found, key);
        }
        assert forall|key: Seq<u8>| hit_keys(whole).contains(key) implies memory.entries(
        ).contains_key(key) by {
            let i = choose|i: int| 0 <= i < whole.len() && hit_keys(whole)[i] == key;
            assert(memory.entries().contains_key(whole[i].key));
        }
    }
    hit_keys(whole).unique_seq_to_set();
    assert forall|key: Seq<u8>| #[trigger]
        memory.entries().contains_key(key) && !hit_keys(out).contains(key) implies left_out(
        arith,
        memory,
        q,
        key,
        out,
    ) by {
        lemma_live_key_found(memory, found, key);
        let i = choose|i: int| 0 <= i < whole.len() && hit_keys(whole)[i] == key;
        if i < out.len() {
            assert(hit_keys(out)[i] == key);
        }
        assert(metric::gives_distance(
            arith,
            memory.metric,
            q,
            memory.entries()[whole[i].key],
            whole[i].distance,
        ));
        assert forall|j: int| 0 <= j < out.len() implies (#[trigger] out[j]).distance.rank()
            <= whole[i].distance.rank() by {
            assert(out[j] == whole[j]);
        }
    }
}

/// A live key is among the results if its node was found.
proof fn lemma_live_key_found(memory: Memory, found: Seq<Candidate>, key: Seq<u8>)
    requires
        memory.wf(),
        memory.entries().contains_key(key),
        forall|id: u32|
            id < memory.keys.len() && memory.keys[id as int] is Some ==> #[trigger] graph::ids(
                found,
            ).contains(id),
    ensures
        hit_keys(memory.live_hits(found)).contains(key),
{
    let at = memory.keys.index_of(Some(key));
    assert(memory.keys.contains(Some(key)));
    assert(memory.keys[at] == Some(key));
    assert(graph::ids(found).contains(at as u32));
    let p = choose|p: int| 0 <= p < found.len() && graph::ids(found)[p] == at as u32;
    assert(found[p].id == at);
    lemma_live_places(memory, found);
    assert(live_at(memory, found, p));
    let from = live_places(memory, found);
    let i = choose|i: int| 0 <= i < from.len() && from[i] == p;
    assert(memory.live_hits(found)[i] == memory.hit(found[from[i]]));
    assert(hit_keys(memory.live_hits(found))[i] == key);
}

/// The live keys are listed each once, with the vectors that they lead to.
pub proof fn law_listing_holds_every_entry_once(memory: Memory)
    requires
        memory.wf(),
    ensures
        memory.pairs().len() == memory.entries().len(),
        forall|i: int|
            0 <= i < memory.pairs().len() ==> memory.entries().contains_key(
                (#[trigger] memory.pairs()[i]).0,
            ) && memory.entries()[memory.pairs()[i].0] == memory.pairs()[i].1,
        forall|i: int, j: int|
            0 <= i < j < memory.pairs().len() ==> (#[trigger] memory.pairs()[i]).0 != (
            #[trigger] memory.pairs()[j]).0,
{
    let ids = live_ids(memory.keys);
    lemma_live_count(memory);
    lemma_live_ids(memory.keys);
    assert forall|i: int| 0 <= i < ids.len() implies memory.entries().contains_key(
        (#[trigger] memory.pairs()[i]).0,
    ) && memory.entries()[memory.pairs()[i].0] == memory.pairs()[i].1 by {
        assert(memory.keys[ids[i] as int] is Some);
        lemma_only_one(memory, memory.pairs()[i].0, ids[i] as int);
    }
    assert forall|i: int, j: int| 0 <= i < j < ids.len() implies (#[trigger] memory.pairs()[i]).0
        != (#[trigger] memory.pairs()[j]).0 by {
        assert(ids[i] < ids[j]);
        assert(memory.keys[ids[i] as int] is Some && memory.keys[ids[j] as int] is Some);
        assert(memory.keys[ids[i] as int] != memory.keys[ids[j] as int]);
    }
}

/// The live keys are listed in the order in which they were added: a key that is
/// added comes last, wherever it was before, and the others stay in order.
pub proof fn law_listing_goes_by_age<
    A: Fn(Operation<'_>) -> Float,
    L: Fn(u64, u64, usize) -> u8,
>(arith: A, level_of: L, before: Memory, after: Memory, key: Seq<u8>, vec: Seq<Float>)
    requires
        before.wf(),
        before.keys.len() < CAPACITY,
        added(arith, level_of, before, after, key, vec),
    ensures
        after.pairs().len() == before.without(key).pairs().len() + 1,
        after.pairs().drop_last() == before.without(key).pairs(),
        after.pairs().last().0 == key,
{
    let (stored, level) = choose|stored: Seq<Float>, level: nat| #[trigger]
        added_as(arith, level_of, before, after, key, vec, stored, level);
    let less = cleared(before.keys, key);
    assert(after.keys.drop_last() =~= less);
    let ids = live_ids(less);
    assert(live_ids(after.keys) == ids.push(less.len() as u32));
    lemma_live_ids(less);
    assert forall|i: int| 0 <= i < ids.len() implies after.pairs()[i] == before.without(
        key,
    ).pairs()[i] by {
        assert(ids[i] < less.len());
        assert(after.keys[ids[i] as int] == less[ids[i] as int]);
    }
    assert(after.pairs().drop_last() =~= before.without(key).pairs());
}

/// Of live keys at equal distance, the exhaustive scan lists the one that was added
/// earlier first.
pub proof fn law_exact_search_breaks_ties_by_age<A: Fn(Operation<'_>) -> Float>(
    arith: A,
    memory: Memory,
    query: Seq<Float>,
    k: nat,
    out: Seq<Hit>,
    i: int,
    j: int,
)
    requires
        memory.wf(),
        searched_exactly(arith, memory, query, k, out),
        0 <= i < j < out.len(),
        out[i].distance == out[j].distance,
    ensures
        memory.keys.index_of(Some(out[i].key)) < memory.keys.index_of(Some(out[j].key)),
{
    let (q, all, sorted) = choose|q: Seq<Float>, all: Seq<Candidate>, sorted: Seq<Candidate>|
     #[trigger]
        searched_exactly_as(arith, memory, query, k, out, q, all, sorted);
    let places = choose|places: Seq<int>| #[trigger] graph::sorted_by(all, sorted, places);
    lemma_scan_is_live(memory, memory.distances_to(arith, q), all, sorted);
    lemma_live_ids(memory.keys);
    let a = sorted[i];
    let b = sorted[j];
    assert(out[i] == memory.hit(a) && out[j] == memory.hit(b));
    assert(places[i] < places[j]);
    assert(0 <= places[i] < all.len() && 0 <= places[j] < all.len());
    assert(a == all[places[i]] && b == all[places[j]]);
    let ids = live_ids(memory.keys);
    assert(graph::ids(all)[places[i]] == ids[places[i]]);
    assert(graph::ids(all)[places[j]] == ids[places[j]]);
    lemma_only_one(memory, out[i].key, a.id as int);
    lemma_only_one(memory, out[j].key, b.id as int);
}

/// Every index is built with the same parameters, and has drawn one level from the
/// same seed for every vector that it ever took.
pub proof fn law_indices_are_built_alike(memory: Memory)
    requires
        memory.wf(),
    ensures
        memory.graph.m == 16,
        memory.graph.ef_construction == 200,
        memory.graph.rng == rng::after(rng::seeded(0x5eed_1234), memory.keys.len()),
        memory.graph.nodes.len() == memory.keys.len(),
        memory.vectors.len() == memory.keys.len(),
{
}

/// Which distances measuring two of the vectors against each other may give.
pub open spec fn distances_of<A: Fn(Operation<'_>) -> Float>(
    arith: A,
    metric: Metric,
    vectors: Seq<Seq<Float>>,
) -> Between {
    |a: u32, b: u32, d: Float|
        metric::gives_distance(arith, metric, vectors[a as int], vectors[b as int], d)
}

/// The graph of an index grows by one node for a vector that is added, linked by the
/// distances of the stored vectors under the metric of the index, up to a level that
/// was drawn for it.
pub proof fn law_graph_grows_by_the_metric<
    A: Fn(Operation<'_>) -> Float,
    L: Fn(u64, u64, usize) -> u8,
>(arith: A, level_of: L, before: Memory, after: Memory, key: Seq<u8>, vec: Seq<Float>)
    requires
        before.wf(),
        before.keys.len() < CAPACITY,
        added(arith, level_of, before, after, key, vec),
    ensures
        after.vectors.len() == before.vectors.len() + 1,
        after.vectors.drop_last() == before.vectors,
        metric::gives_prepared(arith, before.metric, vec, after.vectors.last()),
        exists|level: nat|
            hnsw::drawn(
                level_of,
                rng::unit_of(rng::after(rng::seeded(0x5eed_1234), before.keys.len())),
                16,
                level,
            ) && #[trigger] graph::inserted(
                before.graph,
                after.graph,
                before.keys.len() as u32,
                level,
                distances_of(arith, before.metric, after.vectors),
            ),
{
    let (stored, level) = choose|stored: Seq<Float>, level: nat| #[trigger]
        added_as(arith, level_of, before, after, key, vec, stored, level);
    assert(after.vectors.drop_last() =~= before.vectors);
    let between = distances_of(arith, before.metric, after.vectors);
    assert(after.distances(arith) =~= between);
    assert(graph::inserted(
        before.graph,
        after.graph,
        before.keys.len() as u32,
        level,
        between,
    ));
}

} // verus!
