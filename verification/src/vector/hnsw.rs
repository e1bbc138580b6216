//! A hand-rolled Hierarchical Navigable Small World graph.
//!
//! This follows Malkov & Yashunin, "Efficient and robust approximate nearest
//! neighbor search using Hierarchical Navigable Small World graphs" (2018):
//! the greedy search of a layer, the neighbour-selection heuristic with kept
//! pruned connections, and the insert routine.
//!
//! The graph stores only topology: node levels and per-layer adjacency. It never
//! sees a vector: every distance arrives through a caller-supplied closure, so
//! the vector data can live wherever the index keeps it without this module
//! changing. What a search and an insertion may come to is said in
//! [`crate::vector::graph`], over the distances that the closure may give.

use std::collections::HashSet;

use vstd::prelude::*;

use crate::vector::float::Float;
use crate::vector::graph::{
    apart, ascending, built, descends, entered, explored, explores, from_node, graph_search, greedy, heuristic,
    ids, inserted, lemma_put, looked, looks, put, put_all, started, swept, under_way, Sweep,
    law_layer_search_returns_reachable_nodes, law_selection_is_full, layer_built, layer_of, layer_search,
    layers_of, lemma_descends_more, lemma_descends_reaches, lemma_layer_search_more,
    lemma_reachable_reaches, linked, links, lower, marked, reachable, relinked, selected, selection, shadowed, sorted_by,
    stably_sorted, starts, walk, Adjacency, Between, Candidate, Graph, Near, Nodes,
};
use crate::vector::rng::{scramble, seeded, unit_of, Fraction, Rng};

verus! {

broadcast use vstd::std_specs::hash::group_hash_axioms;

/// One node's per-layer adjacency. `layers[l]` is the neighbour list at layer
/// `l`, for `l` in `0..=node_level`.
struct NodeLinks {
    layers: Vec<Vec<u32>>,
}

/// A Hierarchical Navigable Small World graph over dense node ids `0..n`.
pub struct Hnsw {
    /// Target out-degree on layers above 0.
    m: usize,
    /// Out-degree on layer 0 (denser, conventionally `2 * m`).
    m0: usize,
    /// Candidate-list size used while inserting.
    ef_construction: usize,
    rng: Rng,
    entry: Option<u32>,
    max_level: usize,
    nodes: Vec<NodeLinks>,
}

/// The distances that calling `dist` on a node may give.
pub open spec fn measured<F: Fn(u32) -> Float>(dist: F) -> Near {
    |id: u32, d: Float| call_ensures(dist, (id,), d)
}

/// The distances that calling `dist_nodes` on a pair of nodes may give.
pub open spec fn measured_pairs<F: Fn(u32, u32) -> Float>(dist_nodes: F) -> Between {
    |a: u32, b: u32, d: Float| call_ensures(dist_nodes, (a, b), d)
}

/// Whether calling `level_of` on a draw may give `level` as a node's level.
pub open spec fn drawn<L: Fn(u64, u64, usize) -> u8>(
    level_of: L,
    unit: Fraction,
    m: nat,
    level: nat,
) -> bool {
    exists|r: u8| level == r && #[trigger] call_ensures(
        level_of,
        (unit.numerator, unit.denominator, m as usize),
        r,
    )
}

/// Whether `level_of` turns every draw into a level.
pub open spec fn levels<L: Fn(u64, u64, usize) -> u8>(level_of: L) -> bool {
    forall|a: u64, b: u64, m: usize| #[trigger] call_requires(level_of, (a, b, m))
}

impl Hnsw {
    /// The graph.
    pub closed spec fn view(&self) -> Graph {
        Graph {
            m: self.m as nat,
            ef_construction: self.ef_construction as nat,
            rng: self.rng@,
            entry: self.entry,
            max_level: self.max_level as nat,
            nodes: self.nodes(),
        }
    }

    closed spec fn nodes(&self) -> Nodes {
        Seq::new(
            self.nodes@.len(),
            |i: int| Seq::new(self.nodes@[i].layers@.len(), |l: int| self.nodes@[i].layers@[l]@),
        )
    }

    /// The graph is in order, and so is what governs its growth.
    pub closed spec fn wf(&self) -> bool {
        &&& self@.wf()
        &&& self.rng.wf()
        &&& self.m0 == 2 * self.m
        &&& self.max_level <= u8::MAX
    }

    /// The graph is in order.
    pub proof fn lemma_wf(&self)
        requires
            self.wf(),
        ensures
            self@.wf(),
    {
    }

    /// Creates an empty graph with degree `m` and construction breadth
    /// `ef_construction`, seeded deterministically by `seed`.
    pub fn new(m: usize, ef_construction: usize, seed: u64) -> (r: Hnsw)
        requires
            2 * m <= usize::MAX,
        ensures
            r.wf(),
            r@.m == m,
            r@.ef_construction == ef_construction,
            r@.rng == seeded(seed),
            r@.entry is None,
            r@.max_level == 0,
            r@.nodes == Nodes::empty(),
    {
        let r = Hnsw {
            m,
            m0: m * 2,
            ef_construction,
            rng: Rng::new(seed),
            entry: None,
            max_level: 0,
            nodes: Vec::new(),
        };
        assert(r@.nodes =~= Nodes::empty());
        r
    }

    /// The neighbours of `id` at `layer`, or an empty slice if `id` does not
    /// reach that layer.
    fn neighbors(&self, id: u32, layer: usize) -> (r: &[u32])
        requires
            id < self.nodes().len(),
        ensures
            r@ == links(self.nodes(), id as int, layer as int),
    {
        let node = &self.nodes[id as usize];
        if layer < node.layers.len() {
            node.layers[layer].as_slice()
        } else {
            &[]
        }
    }

    /// Draws a node level from the exponential distribution: `level_of` turns a
    /// uniform fraction and the degree into a level.
    fn random_level<L: Fn(u64, u64, usize) -> u8>(&mut self, level_of: &L) -> (level: usize)
        requires
            old(self).wf(),
            levels(*level_of),
        ensures
            final(self).wf(),
            final(self)@ == (Graph { rng: scramble(old(self)@.rng), ..old(self)@ }),
            level <= u8::MAX,
            drawn(*level_of, unit_of(old(self)@.rng), old(self)@.m, level as nat),
    {
        let u = self.rng.unit();
        assert(self.nodes() =~= old(self).nodes());
        proof {
            lemma_same_shape(old(self)@, self@);
        }
        let level: u8 = level_of(u.numerator, u.denominator, self.m);
        level as usize
    }

    /// Greedy best-first search confined to one layer. Returns the up to `ef`
    /// closest nodes found, ascending by distance. `dist` gives the distance from
    /// the query to a node id.
    fn search_layer<F: Fn(u32) -> Float>(
        &self,
        dist: &F,
        entry: &[u32],
        ef: usize,
        layer: usize,
    ) -> (out: Vec<Candidate>)
        requires
            self@.all_tidy(),
            entry@.no_duplicates(),
            forall|i: int| 0 <= i < entry@.len() ==> #[trigger] entry@[i] < self.nodes().len(),
            forall|id: u32| id < self.nodes().len() ==> #[trigger] call_requires(*dist, (id,)),
        ensures
            layer_search(
                layer_of(self.nodes(), layer as int),
                entry@,
                ef as nat,
                measured(*dist),
                out@,
            ),
    {
        let ghost adj = layer_of(self.nodes(), layer as int);
        let ghost near = measured(*dist);
        let ghost n = self.nodes().len();
        let ghost mut seen: Map<u32, Float> = Map::empty();
        let ghost mut done: Set<u32> = Set::empty();
        let mut visited: HashSet<u32> = HashSet::new();
        // Frontier, explored nearest-first.
        let mut frontier: Vec<Candidate> = Vec::new();
        // Results, closest first, so the farthest is cheap to drop.
        let mut found: Vec<Candidate> = Vec::new();

        let ghost mut dists: Seq<Float> = seq![];
        let mut i: usize = 0;
        assert(entry@.take(0) =~= seq![]);
        while i < entry.len()
            invariant
                i <= entry.len(),
                entered(near, entry@.take(i as int), dists),
                frontier@ == put_all(entry@.take(i as int), dists),
                found@ == frontier@,
                n == self.nodes().len(),
                near == measured(*dist),
                entry@.no_duplicates(),
                forall|i: int| 0 <= i < entry@.len() ==> #[trigger] entry@[i] < self.nodes().len(),
                forall|id: u32| id < self.nodes().len() ==> #[trigger] call_requires(*dist, (id,)),
                visited@ == seen.dom(),
                seen.dom().finite(),
                forall|id: u32| #[trigger]
                    seen.contains_key(id) <==> exists|j: int| 0 <= j < i && #[trigger] entry@[j] == id,
                sound(adj, entry@, near, n, seen),
                listed(seen, found@),
                listed(seen, frontier@),
                ascending(found@),
                ascending(frontier@),
                ids(found@).no_duplicates(),
                forall|id: u32| #[trigger] seen.contains_key(id) ==> holds(found@, id),
                forall|id: u32| #[trigger] seen.contains_key(id) ==> holds(frontier@, id),
            decreases entry.len() - i,
        {
            let e: u32 = entry[i];
            let d = dist(e);
            let c = Candidate { dist: d, id: e };
            assert(!seen.contains_key(e));
            proof {
                assert(walk(adj, entry@, seq![e]));
                assert(seq![e].last() == e);
                assert(reachable(adj, entry@, e));
            }
            let ghost before = seen;
            let ghost found0 = found@;
            let ghost frontier0 = frontier@;
            visited.insert(e);
            let p = insert_sorted(&mut frontier, c);
            let q = insert_sorted(&mut found, c);
            proof {
                seen = seen.insert(e, d);
                lemma_insert(before, frontier0, c, p as int);
                lemma_insert(before, found0, c, q as int);
                lemma_insert_distinct(found0, c, q as int);
                lemma_entered(near, entry@, i as int, dists, d);
                dists = dists.push(d);
            }
            i += 1;
        }
        let ghost all = found@;
        found.truncate(ef);
        proof {
            reveal(consistent);
            if ef <= all.len() {
                lemma_truncated(seen, all, ef as int);
                assert(found@ == all.take(ef as int));
            } else {
                lemma_all_kept(seen, all);
            }
            assert(pending(done, found@, frontier@));
        }
        let ghost mut trace: Seq<Sweep> = seq![
            Sweep { frontier: frontier@, found: found@, seen: seen.dom() },
        ];
        proof {
            assert(entry@.take(i as int) =~= entry@);
            assert(found@ =~= all.take(lower(ef as nat, entry@.len()) as int)) by {
                lemma_put_all_len(entry@, dists);
            }
            assert(seen.dom() =~= entry@.to_set());
            lemma_traced_start(adj, entry@, ef as nat, near, dists, trace[0]);
        }

        loop
            invariant_except_break
                traced(adj, entry@, ef as nat, near, trace, frontier@, found@, seen.dom()),
            invariant
                self@.all_tidy(),
                n == self.nodes().len(),
                adj == layer_of(self.nodes(), layer as int),
                near == measured(*dist),
                forall|id: u32| id < self.nodes().len() ==> #[trigger] call_requires(*dist, (id,)),
                visited@ == seen.dom(),
                seen.dom().finite(),
                forall|i: int| 0 <= i < entry@.len() ==> seen.contains_key(#[trigger] entry@[i]),
                sound(adj, entry@, near, n, seen),
                consistent(seen, found@, frontier@, ef as int),
                pending(done, found@, frontier@),
                expanded(adj, seen, done),
            ensures
                forall|i: int| 0 <= i < found@.len() ==> done.contains((#[trigger] found@[i]).id),
                greedy(adj, entry@, ef as nat, near, found@),
            decreases n - seen.dom().len(), frontier@.len(),
        {
            proof {
                lemma_bounded(seen.dom(), n);
            }
            if frontier.len() == 0 {
                proof {
                    lemma_traced_end(
                        adj,
                        entry@,
                        ef as nat,
                        near,
                        trace,
                        frontier@,
                        found@,
                        seen.dom(),
                    );
                }
                break;
            }
            let ghost frontier0 = frontier@;
            let ghost found0 = found@;
            let ghost seen0 = seen;
            let c = frontier.remove(0);
            proof {
                lemma_take_first(seen, found@, frontier0, done, ef as int);
                assert(frontier@ == frontier0.drop_first());
            }
            if found.len() > 0 && found[found.len() - 1].dist.less(c.dist) {
                proof {
                    lemma_stop(seen, found@, frontier0, done, ef as int);
                    lemma_traced_end(
                        adj,
                        entry@,
                        ef as nat,
                        near,
                        trace,
                        frontier0,
                        found@,
                        seen.dom(),
                    );
                }
                break;
            }
            let around = self.neighbors(c.id, layer);
            assert(around@ == adj(c.id));
            let ghost start = Sweep { frontier: frontier0, found: found0, seen: seen0.dom() };
            let ghost mut steps: Seq<Sweep> = seq![start.popped()];
            proof {
                lemma_looking_start(near, ef as nat, start.popped());
                assert(around@.take(0) =~= seq![]);
            }
            let mut j: usize = 0;
            while j < around.len()
                invariant
                    self@.all_tidy(),
                    n == self.nodes().len(),
                    adj == layer_of(self.nodes(), layer as int),
                    near == measured(*dist),
                    forall|id: u32|
                        id < self.nodes().len() ==> #[trigger] call_requires(*dist, (id,)),
                    j <= around.len(),
                    around@ == adj(c.id),
                    seen.contains_key(c.id),
                    visited@ == seen.dom(),
                    seen.dom().finite(),
                    forall|i: int|
                        0 <= i < entry@.len() ==> seen.contains_key(#[trigger] entry@[i]),
                    sound(adj, entry@, near, n, seen),
                    consistent(seen, found@, frontier@, ef as int),
                    pending(done.insert(c.id), found@, frontier@),
                    expanded(adj, seen, done),
                    forall|k: int| 0 <= k < j ==> seen.contains_key(#[trigger] around@[k]),
                    looking(
                        near,
                        ef as nat,
                        start.popped(),
                        around@.take(j as int),
                        steps,
                        frontier@,
                        found@,
                        seen.dom(),
                    ),
                    seen0.dom().len() <= seen.dom().len(),
                    seen0.dom().len() == seen.dom().len() ==> frontier@.len() < frontier0.len(),
                decreases around.len() - j,
            {
                let e: u32 = around[j];
                assert(e < n) by {
                    assert(self@.tidy(c.id as int, layer as int));
                    assert(links(self.nodes(), c.id as int, layer as int)[j as int] == e);
                    assert(self@.reaches(e, layer as int));
                }
                let ghost frontier1 = frontier@;
                let ghost found1 = found@;
                let ghost seen1 = seen.dom();
                if visited.insert(e) {
                    let d = dist(e);
                    proof {
                        lemma_step(adj, entry@, c.id, e);
                    }
                    offer(
                        &mut found,
                        &mut frontier,
                        Candidate { dist: d, id: e },
                        ef,
                        Ghost(seen),
                        Ghost(done.insert(c.id)),
                    );
                    proof {
                        seen = seen.insert(e, d);
                        assert(near(e, d));
                    }
                }
                proof {
                    let now = Sweep { frontier: frontier@, found: found@, seen: seen.dom() };
                    lemma_looking_step(
                        near,
                        ef as nat,
                        start.popped(),
                        around@.take(j as int),
                        steps,
                        Sweep { frontier: frontier1, found: found1, seen: seen1 },
                        e,
                        now,
                    );
                    steps = steps.push(now);
                    assert(around@.take(j as int).push(e) =~= around@.take(j + 1));
                }
                j += 1;
            }
            proof {
                assert(around@.take(j as int) =~= around@);
                let now = Sweep { frontier: frontier@, found: found@, seen: seen.dom() };
                lemma_traced_step(adj, entry@, ef as nat, near, trace, start, steps, now);
                trace = trace.push(now);
                done = done.insert(c.id);
                lemma_bounded(seen.dom(), n);
            }
        }

        proof {
            reveal(consistent);
            lemma_count(seen, found@, ef as nat);
            assert forall|i: int, x: u32|
                0 <= i < found@.len() && #[trigger] adj(found@[i].id).contains(x) implies seen.contains_key(
            x) by {
                assert(done.contains(found@[i].id));
            }
            assert forall|id: u32| holds(found@, id) <==> #[trigger] ids(found@).contains(id) by {
                lemma_holds(found@, id);
            }
            assert(explored(adj, entry@, ef as nat, near, seen, found@));
        }
        found
    }

    fn set_neighbors(&mut self, id: u32, layer: usize, neighbors: Vec<u32>)
        requires
            id < old(self).nodes().len(),
            layer < old(self).nodes()[id as int].len(),
        ensures
            final(self)@ == (Graph {
                nodes: with_links(old(self)@.nodes, id, layer as int, neighbors@),
                ..old(self)@
            }),
            final(self).m0 == old(self).m0,
    {
        self.nodes[id as usize].layers[layer] = neighbors;
        assert(self.nodes() =~~= with_links(old(self).nodes(), id, layer as int, neighbors@));
    }

    fn push_neighbor(&mut self, id: u32, layer: usize, neighbor: u32)
        requires
            id < old(self).nodes().len(),
            layer < old(self).nodes()[id as int].len(),
        ensures
            final(self)@ == (Graph {
                nodes: with_links(
                    old(self)@.nodes,
                    id,
                    layer as int,
                    links(old(self)@.nodes, id as int, layer as int).push(neighbor),
                ),
                ..old(self)@
            }),
            final(self).m0 == old(self).m0,
    {
        self.nodes[id as usize].layers[layer].push(neighbor);
        assert(self.nodes() =~~= with_links(
            old(self).nodes(),
            id,
            layer as int,
            links(old(self).nodes(), id as int, layer as int).push(neighbor),
        ));
    }

    /// Adds `id` to the neighbours of `nbr`, and re-runs the heuristic on them if
    /// they are then over-full.
    fn link_back<F: Fn(u32, u32) -> Float>(
        &mut self,
        nbr: u32,
        layer: usize,
        id: u32,
        m_layer: usize,
        dist_nodes: &F,
    )
        requires
            nbr < old(self).nodes().len(),
            id < old(self).nodes().len(),
            layer < old(self).nodes()[nbr as int].len(),
            forall|k: int|
                0 <= k < links(old(self)@.nodes, nbr as int, layer as int).len() ==> (
                #[trigger] links(old(self)@.nodes, nbr as int, layer as int)[k])
                    < old(self).nodes().len(),
            links(old(self)@.nodes, nbr as int, layer as int).len() <= m_layer,
            forall|x: u32, y: u32|
                x < old(self).nodes().len() && y < old(self).nodes().len()
                    ==> #[trigger] call_requires(*dist_nodes, (x, y)),
        ensures
            final(self).m0 == old(self).m0,
            exists|list: Seq<u32>|
                final(self)@ == (Graph {
                    nodes: with_links(old(self)@.nodes, nbr, layer as int, list),
                    ..old(self)@
                }) && #[trigger] relinked(
                    links(old(self)@.nodes, nbr as int, layer as int),
                    list,
                    nbr,
                    id,
                    m_layer as nat,
                    measured_pairs(*dist_nodes),
                ),
    {
        let ghost between = measured_pairs(*dist_nodes);
        let ghost list0 = links(self@.nodes, nbr as int, layer as int);
        self.push_neighbor(nbr, layer, id);
        let ghost mid = self@;
        let around = self.neighbors(nbr, layer);
        assert(around@ == list0.push(id));
        if around.len() > m_layer {
            let mut cands: Vec<Candidate> = Vec::new();
            let mut k: usize = 0;
            while k < around.len()
                invariant
                    k <= around.len(),
                    cands@.len() == k,
                    between == measured_pairs(*dist_nodes),
                    nbr < mid.nodes.len(),
                    forall|x: u32, y: u32|
                        x < mid.nodes.len() && y < mid.nodes.len() ==> #[trigger] call_requires(
                            *dist_nodes,
                            (x, y),
                        ),
                    forall|i: int| 0 <= i < around@.len() ==> #[trigger] around@[i] < mid.nodes.len(),
                    forall|i: int|
                        0 <= i < k ==> (#[trigger] cands@[i]).id == around@[i] && between(
                            nbr,
                            cands@[i].id,
                            cands@[i].dist,
                        ),
                decreases around.len() - k,
            {
                let x: u32 = around[k];
                let d = dist_nodes(nbr, x);
                cands.push(Candidate { dist: d, id: x });
                k += 1;
            }
            assert(ids(cands@) =~= list0.push(id));
            let pruned = select_neighbors(&cands, m_layer, dist_nodes);
            let ghost list = pruned@;
            self.set_neighbors(nbr, layer, pruned);
            proof {
                assert(relinked(list0, list, nbr, id, m_layer as nat, between));
                assert(self@.nodes =~~= with_links(old(self)@.nodes, nbr, layer as int, list));
            }
        } else {
            proof {
                assert(relinked(list0, list0.push(id), nbr, id, m_layer as nat, between));
            }
        }
    }

    /// Links `id` at `layer` with the chosen nodes, both ways.
    fn link_layer<F: Fn(u32, u32) -> Float>(
        &mut self,
        id: u32,
        layer: usize,
        chosen: &Vec<u32>,
        m_layer: usize,
        dist_nodes: &F,
    )
        requires
            old(self)@.all_tidy(),
            old(self)@.degree(layer as int) == m_layer,
            old(self)@.reaches(id, layer as int),
            links(old(self)@.nodes, id as int, layer as int).len() == 0,
            forall|x: int, k: int|
                0 <= k < links(old(self)@.nodes, x, layer as int).len() ==> #[trigger] links(
                    old(self)@.nodes,
                    x,
                    layer as int,
                )[k] != id,
            chosen@.no_duplicates(),
            chosen@.len() <= m_layer,
            forall|k: int|
                0 <= k < chosen@.len() ==> old(self)@.reaches(#[trigger] chosen@[k], layer as int)
                    && chosen@[k] != id,
            forall|x: u32, y: u32|
                x < old(self)@.nodes.len() && y < old(self)@.nodes.len()
                    ==> #[trigger] call_requires(*dist_nodes, (x, y)),
        ensures
            final(self).m0 == old(self).m0,
            final(self)@ == (Graph { nodes: final(self)@.nodes, ..old(self)@ }),
            same_levels(old(self)@.nodes, final(self)@.nodes),
            forall|x: int, l: int|
                l != layer ==> #[trigger] links(final(self)@.nodes, x, l) == links(
                    old(self)@.nodes,
                    x,
                    l,
                ),
            linked(
                old(self)@.nodes,
                final(self)@.nodes,
                id,
                layer as int,
                m_layer as nat,
                chosen@,
                measured_pairs(*dist_nodes),
            ),
            final(self)@.all_tidy(),
    {
        let ghost start = self@;
        let ghost between = measured_pairs(*dist_nodes);
        let ghost l = layer as int;
        assert(links(self@.nodes, id as int, l) =~= chosen@.take(0));
        let mut t: usize = 0;
        while t < chosen.len()
            invariant
                t <= chosen.len(),
                start == old(self)@,
                l == layer,
                between == measured_pairs(*dist_nodes),
                start.all_tidy(),
                start.degree(l) == m_layer,
                start.reaches(id, l),
                forall|x: int, k: int|
                    0 <= k < links(start.nodes, x, l).len() ==> #[trigger] links(start.nodes, x, l)[k]
                        != id,
                chosen@.no_duplicates(),
                chosen@.len() <= m_layer,
                forall|k: int|
                    0 <= k < chosen@.len() ==> start.reaches(#[trigger] chosen@[k], l) && chosen@[k]
                        != id,
                forall|x: u32, y: u32|
                    x < start.nodes.len() && y < start.nodes.len() ==> #[trigger] call_requires(
                        *dist_nodes,
                        (x, y),
                    ),
                self.m0 == old(self).m0,
                self@ == (Graph { nodes: self@.nodes, ..start }),
                same_levels(start.nodes, self@.nodes),
                forall|x: int, o: int|
                    o != l ==> #[trigger] links(self@.nodes, x, o) == links(start.nodes, x, o),
                linked(start.nodes, self@.nodes, id, l, m_layer as nat, chosen@.take(t as int), between),
                self@.all_tidy(),
            decreases chosen.len() - t,
        {
            let ghost pre = self@;
            let nbr: u32 = chosen[t];
            proof {
                assert(start.reaches(nbr, l));
                assert(pre.tidy(nbr as int, l));
                assert(pre.tidy(id as int, l));
                assert(chosen@.take(t + 1) =~= chosen@.take(t as int).push(nbr));
                assert(!chosen@.take(t as int).contains(nbr));
                assert(links(pre.nodes, nbr as int, l) == links(start.nodes, nbr as int, l));
            }
            self.push_neighbor(id, layer, nbr);
            let ghost mid = self@;
            assert(links(mid.nodes, nbr as int, l) == links(start.nodes, nbr as int, l));
            self.link_back(nbr, layer, id, m_layer, dist_nodes);
            proof {
                let list = choose|list: Seq<u32>|
                    self@ == (Graph { nodes: with_links(mid.nodes, nbr, l, list), ..mid })
                        && #[trigger] relinked(
                        links(mid.nodes, nbr as int, l),
                        list,
                        nbr,
                        id,
                        m_layer as nat,
                        between,
                    );
                lemma_link_step(
                    start,
                    pre,
                    self@,
                    id,
                    l,
                    chosen@,
                    t as int,
                    between,
                    list,
                );
            }
            t += 1;
        }
        assert(chosen@.take(t as int) =~= chosen@);
    }

    /// Follows the single nearest neighbour from layer `top` down to just above
    /// layer `bottom`, starting at `from`, and returns where that leads.
    fn descend<F: Fn(u32) -> Float>(
        &self,
        dist: &F,
        from: u32,
        top: usize,
        bottom: usize,
    ) -> (to: u32)
        requires
            self@.all_tidy(),
            bottom <= top,
            self@.reaches(from, top as int),
            forall|id: u32| id < self@.nodes.len() ==> #[trigger] call_requires(*dist, (id,)),
        ensures
            descends(
                layers_of(self@.nodes),
                measured(*dist),
                from,
                top as nat,
                bottom as nat,
                to,
            ),
            self@.reaches(to, bottom as int),
    {
        let ghost adjs = layers_of(self@.nodes);
        let ghost near = measured(*dist);
        let mut at: u32 = from;
        let mut layer: usize = top;
        while layer > bottom
            invariant
                self@.all_tidy(),
                bottom <= layer <= top,
                adjs == layers_of(self@.nodes),
                near == measured(*dist),
                forall|id: u32| id < self@.nodes.len() ==> #[trigger] call_requires(*dist, (id,)),
                self@.reaches(at, layer as int),
                forall|to: u32|
                    descends(adjs, near, at, layer as nat, bottom as nat, to) ==> #[trigger] descends(
                        adjs,
                        near,
                        from,
                        top as nat,
                        bottom as nat,
                        to,
                    ),
            decreases layer,
        {
            let mut start: Vec<u32> = Vec::new();
            start.push(at);
            assert(start@ =~= seq![at]);
            let w = self.search_layer(dist, start.as_slice(), 1, layer);
            proof {
                let adj = layer_of(self@.nodes, layer as int);
                law_layer_search_returns_reachable_nodes(adj, seq![at], 1, near, w@);
                lemma_reachable_reaches(self@, layer as int, seq![at], w@[0].id);
                assert(adjs(layer as int) == adj);
                assert forall|to: u32|
                    descends(
                        adjs,
                        near,
                        w@[0].id,
                        (layer - 1) as nat,
                        bottom as nat,
                        to,
                    ) implies #[trigger] descends(
                    adjs,
                    near,
                    from,
                    top as nat,
                    bottom as nat,
                    to,
                ) by {
                    assert(layer_search(adjs(layer as int), seq![at], 1, near, w@));
                    assert(descends(adjs, near, at, layer as nat, bottom as nat, to));
                }
            }
            at = w[0].id;
            layer -= 1;
        }
        assert(descends(adjs, near, at, layer as nat, bottom as nat, at));
        at
    }

    /// Returns up to `max(ef, k)` nearest node ids to a query, ascending by
    /// distance, as `(id, distance)` pairs. `dist` gives the query-to-node
    /// distance. The caller takes the first `k` it still considers live.
    pub fn search<F: Fn(u32) -> Float>(&self, dist: F, k: usize, ef: usize) -> (out: Vec<(u32, Float)>)
        requires
            self.wf(),
            forall|id: u32| id < self@.nodes.len() ==> #[trigger] call_requires(dist, (id,)),
        ensures
            graph_search(self@, measured(dist), k as nat, ef as nat, candidates(out@)),
    {
        if k == 0 {
            return Vec::new();
        }
        let entry = match self.entry {
            Some(e) => e,
            None => return Vec::new(),
        };
        let first = self.descend(&dist, entry, self.max_level, 0);
        let breadth: usize = if ef >= k { ef } else { k };
        let mut start: Vec<u32> = Vec::new();
        start.push(first);
        assert(start@ =~= seq![first]);
        let w = self.search_layer(&dist, start.as_slice(), breadth, 0);
        let mut out: Vec<(u32, Float)> = Vec::new();
        let mut i: usize = 0;
        while i < w.len()
            invariant
                i <= w.len(),
                out@.len() == i,
                forall|j: int|
                    0 <= j < i ==> (#[trigger] out@[j]).0 == w@[j].id && out@[j].1 == w@[j].dist,
            decreases w.len() - i,
        {
            out.push((w[i].id, w[i].dist));
            i += 1;
        }
        assert(candidates(out@) =~= w@);
        out
    }

    /// Finds neighbours for `id` at `layer`, starting at `ep`, and links them.
    /// Returns what the search of the layer found.
    fn connect<Q: Fn(u32) -> Float, F: Fn(u32, u32) -> Float>(
        &mut self,
        id: u32,
        layer: usize,
        ep: &[u32],
        dist_q: &Q,
        dist_nodes: &F,
    ) -> (w: Vec<Candidate>)
        requires
            old(self)@.all_tidy(),
            old(self).m0 == 2 * old(self).m,
            old(self)@.reaches(id, layer as int),
            links(old(self)@.nodes, id as int, layer as int).len() == 0,
            unlinked(old(self)@.nodes, id, layer as int),
            ep@.no_duplicates(),
            present(old(self)@, ep@, id, layer as int),
            forall|x: u32| x < old(self)@.nodes.len() ==> #[trigger] call_requires(*dist_q, (x,)),
            forall|x: u32, y: u32|
                x < old(self)@.nodes.len() && y < old(self)@.nodes.len()
                    ==> #[trigger] call_requires(*dist_nodes, (x, y)),
        ensures
            final(self).m0 == old(self).m0,
            final(self)@ == (Graph { nodes: final(self)@.nodes, ..old(self)@ }),
            same_levels(old(self)@.nodes, final(self)@.nodes),
            final(self)@.all_tidy(),
            forall|x: int, l: int|
                l != layer ==> #[trigger] links(final(self)@.nodes, x, l) == links(
                    old(self)@.nodes,
                    x,
                    l,
                ),
            layer_search(
                layer_of(old(self)@.nodes, layer as int),
                ep@,
                old(self)@.ef_construction,
                measured(*dist_q),
                w@,
            ),
            layer_built(
                old(self)@,
                final(self)@.nodes,
                id,
                layer as int,
                measured_pairs(*dist_nodes),
                w@,
            ),
            ids(w@).no_duplicates(),
            present(old(self)@, ids(w@), id, layer as int),
    {
        let ghost pre = self@;
        let ghost l = layer as int;
        let ghost between = measured_pairs(*dist_nodes);
        let m_layer: usize = if layer == 0 {
            self.m0
        } else {
            self.m
        };
        let w = self.search_layer(dist_q, ep, self.ef_construction, layer);
        proof {
            law_layer_search_returns_reachable_nodes(
                layer_of(pre.nodes, l),
                ep@,
                pre.ef_construction,
                measured(*dist_q),
                w@,
            );
            assert forall|k: int| 0 <= k < ids(w@).len() implies pre.reaches(
                #[trigger] ids(w@)[k],
                l,
            ) && ids(w@)[k] != id by {
                assert(reachable(layer_of(pre.nodes, l), ep@, w@[k].id));
                lemma_reachable_reaches(pre, l, ep@, w@[k].id);
                lemma_reachable_other(pre.nodes, l, ep@, w@[k].id, id);
            }
            assert forall|i: int, j: int| 0 <= i < w@.len() && 0 <= j < w@.len() implies call_requires(
                *dist_nodes,
                ((#[trigger] w@[i]).id, (#[trigger] w@[j]).id),
            ) by {
                assert(pre.reaches(ids(w@)[i], l) && pre.reaches(ids(w@)[j], l));
            }
        }
        let chosen = select_neighbors(&w, m_layer, dist_nodes);
        proof {
            law_selection_is_full(w@, m_layer as nat, between, chosen@);
            assert forall|k: int| 0 <= k < chosen@.len() implies pre.reaches(
                #[trigger] chosen@[k],
                l,
            ) && chosen@[k] != id by {
                assert(ids(w@).contains(chosen@[k]));
            }
        }
        self.link_layer(id, layer, &chosen, m_layer, dist_nodes);
        proof {
            assert(selected(w@, pre.degree(l), between, chosen@));
        }
        w
    }

    /// Inserts node `id` (which must equal the current node count) into the
    /// graph. `level_of` turns a random draw into the node's level. `dist_nodes`
    /// gives the distance between any two node ids; the new node's vector must
    /// already be reachable through it.
    pub fn insert<L: Fn(u64, u64, usize) -> u8, F: Fn(u32, u32) -> Float>(
        &mut self,
        id: u32,
        level_of: &L,
        dist_nodes: F,
    )
        requires
            old(self).wf(),
            id == old(self)@.nodes.len(),
            levels(*level_of),
            forall|x: u32, y: u32| x <= id && y <= id ==> #[trigger] call_requires(dist_nodes, (x, y)),
        ensures
            final(self).wf(),
            final(self)@.rng == scramble(old(self)@.rng),
            exists|level: nat| #[trigger]
                drawn(*level_of, unit_of(old(self)@.rng), old(self)@.m, level) && inserted(
                    old(self)@,
                    final(self)@,
                    id,
                    level,
                    measured_pairs(dist_nodes),
                ),
    {
        let ghost before = self@;
        let ghost between = measured_pairs(dist_nodes);
        let ghost near = from_node(between, id);
        let level: usize = self.random_level(level_of);
        let mut layers: Vec<Vec<u32>> = Vec::new();
        let mut fill: usize = 0;
        while fill < level + 1
            invariant
                level <= u8::MAX,
                fill <= level + 1,
                layers@.len() == fill,
                forall|l: int| 0 <= l < fill ==> (#[trigger] layers@[l])@ == Seq::<u32>::empty(),
            decreases level + 1 - fill,
        {
            layers.push(Vec::new());
            fill += 1;
        }
        self.nodes.push(NodeLinks { layers });
        let ghost base = self@;
        proof {
            lemma_appended(before, base, level as nat);
        }

        let entry = match self.entry {
            None => {
                self.entry = Some(id);
                self.max_level = level;
                proof {
                    assert(self.nodes() == base.nodes);
                    lemma_first_node(base, self@);
                }
                return;
            },
            Some(e) => e,
        };

        let dist_q = |x: u32| -> (d: Float)
            requires
                accepts_pair(&dist_nodes, id, x),
            ensures
                answers_pair(&dist_nodes, id, x, d),
            { dist_nodes(id, x) };
        let cur_max: usize = self.max_level;
        let top: usize = if level <= cur_max { level } else { cur_max };

        // Descend from the top down to just above the new node's level, greedily
        // following the single nearest neighbour each layer.
        assert(base.reaches(entry, cur_max as int));
        let first: u32 = self.descend(&dist_q, entry, cur_max, top);
        proof {
            assert(layers_of(base.nodes) =~= layers_of(before.nodes));
            lemma_descends_more(
                layers_of(before.nodes),
                measured(dist_q),
                near,
                entry,
                cur_max as nat,
                top as nat,
                first,
            );
            lemma_descends_reaches(before, near, entry, cur_max as nat, top as nat, first);
        }

        // From the new node's level down to 0, find neighbours and link.
        let mut ep: Vec<u32> = Vec::new();
        ep.push(first);
        let ghost mut found: Map<int, Seq<Candidate>> = Map::empty();
        let mut rest: usize = top + 1;
        proof {
            reveal(underway);
            reveal(searched);
            reveal(built_down_to);
            assert(ep@ =~= starts(first, found, top as int, rest - 1));
            assert(same_levels(base.nodes, self@.nodes));
        }
        while rest > 0
            invariant
                rest <= top + 1,
                top <= level <= u8::MAX,
                id == before.nodes.len(),
                between == measured_pairs(dist_nodes),
                near == from_node(between, id),
                forall|x: u32, y: u32|
                    x <= id && y <= id ==> #[trigger] call_requires(dist_nodes, (x, y)),
                forall|x: u32|
                    call_requires(dist_nodes, (id, x)) ==> #[trigger] call_requires(dist_q, (x,)),
                forall|x: u32, d: Float| #[trigger]
                    call_ensures(dist_q, (x,), d) ==> call_ensures(dist_nodes, (id, x), d),
                self.m0 == 2 * self.m,
                underway(
                    before,
                    base,
                    self@,
                    id,
                    level as nat,
                    top as int,
                    rest as int,
                    between,
                    first,
                    found,
                    ep@,
                ),
            decreases rest,
        {
            let layer: usize = rest - 1;
            let ghost pre = self@;
            proof {
                lemma_underway_ready(
                    before,
                    base,
                    pre,
                    id,
                    level as nat,
                    top as int,
                    rest as int,
                    between,
                    first,
                    found,
                    ep@,
                );
            }
            let w = self.connect(id, layer, ep.as_slice(), &dist_q, &dist_nodes);
            proof {
                lemma_layer_search_more(
                    layer_of(pre.nodes, layer as int),
                    ep@,
                    pre.ef_construction,
                    measured(dist_q),
                    near,
                    w@,
                );
                lemma_underway_step(
                    before,
                    base,
                    pre,
                    self@,
                    id,
                    level as nat,
                    top as int,
                    rest as int,
                    between,
                    first,
                    found,
                    ep@,
                    w@,
                );
                found = found.insert(layer as int, w@);
            }
            ep = node_ids(&w);
            rest = layer;
        }
        let ghost ending = self@;
        if level > cur_max {
            self.max_level = level;
            self.entry = Some(id);
        }
        proof {
            reveal(underway);
            reveal(searched);
            reveal(built_down_to);
            assert(self.nodes() == ending.nodes);
            assert(built(before, ending, id, top as int, between, first, found));
            lemma_inserted(before, base, ending, self@, id, level as nat, between, first, found);
        }
    }
}

spec fn accepts_pair<F: Fn(u32, u32) -> Float>(f: &F, x: u32, y: u32) -> bool {
    call_requires(*f, (x, y))
}

spec fn answers_pair<F: Fn(u32, u32) -> Float>(f: &F, x: u32, y: u32, d: Float) -> bool {
    call_ensures(*f, (x, y), d)
}

/// The nodes of candidates, in order.
fn node_ids(w: &Vec<Candidate>) -> (r: Vec<u32>)
    ensures
        r@ == ids(w@),
{
    let mut r: Vec<u32> = Vec::new();
    let mut i: usize = 0;
    while i < w.len()
        invariant
            i <= w.len(),
            r@ == ids(w@).take(i as int),
        decreases w.len() - i,
    {
        r.push(w[i].id);
        i += 1;
        assert(r@ =~= ids(w@).take(i as int));
    }
    assert(ids(w@).take(i as int) =~= ids(w@));
    r
}

/// `after` is `before` with one more node, without neighbours, on the layers up
/// to `level`.
spec fn appended(before: Nodes, after: Nodes, level: nat) -> bool {
    &&& after.len() == before.len() + 1
    &&& forall|x: int| 0 <= x < before.len() ==> #[trigger] after[x] == before[x]
    &&& after[before.len() as int].len() == level + 1
    &&& forall|l: int| 0 <= l <= level ==> #[trigger] after[before.len() as int][l] == Seq::<u32>::empty()
}

/// Search results as candidates.
pub open spec fn candidates(out: Seq<(u32, Float)>) -> Seq<Candidate> {
    out.map_values(|p: (u32, Float)| Candidate { dist: p.1, id: p.0 })
}

proof fn lemma_appended(before: Graph, after: Graph, level: nat)
    requires
        before.wf(),
        after == (Graph { nodes: after.nodes, rng: after.rng, ..before }),
        appended(before.nodes, after.nodes, level),
    ensures
        after.all_tidy(),
        forall|x: int, l: int| #[trigger] links(after.nodes, x, l) == links(before.nodes, x, l),
{
    assert forall|x: int, l: int| #[trigger] links(after.nodes, x, l) == links(before.nodes, x, l) by {
        if x == before.nodes.len() {
            assert(links(after.nodes, x, l) =~= seq![]);
        }
    }
    assert forall|x: int, l: int| #[trigger] after.tidy(x, l) by {
        assert(before.tidy(x, l));
        let list = links(after.nodes, x, l);
        assert(list == links(before.nodes, x, l));
        assert forall|k: int| 0 <= k < list.len() implies after.reaches(#[trigger] list[k], l)
            && list[k] != x by {
            assert(before.reaches(list[k], l));
        }
    }
}

proof fn lemma_same_layer(before: Nodes, base: Nodes, now: Nodes, level: nat, l: int)
    requires
        appended(before, base, level),
        forall|x: int| #[trigger] links(now, x, l) == links(base, x, l),
    ensures
        forall|x: int| #[trigger] links(now, x, l) == links(before, x, l),
{
    assert forall|x: int| #[trigger] links(now, x, l) == links(before, x, l) by {
        assert(links(now, x, l) == links(base, x, l));
        if x == before.len() {
            assert(links(base, x, l) =~= seq![]);
        }
    }
}

/// No neighbour list of a layer holds `id`.
spec fn unlinked(nodes: Nodes, id: u32, layer: int) -> bool {
    forall|x: int, k: int|
        0 <= k < links(nodes, x, layer).len() ==> #[trigger] links(nodes, x, layer)[k] != id
}

/// The nodes listed are present on a layer, and `id` is not among them.
spec fn present(g: Graph, list: Seq<u32>, id: u32, layer: int) -> bool {
    forall|k: int| 0 <= k < list.len() ==> g.reaches(#[trigger] list[k], layer) && list[k] != id
}

proof fn lemma_reachable_other(nodes: Nodes, layer: int, entry: Seq<u32>, to: u32, id: u32)
    requires
        reachable(layer_of(nodes, layer), entry, to),
        unlinked(nodes, id, layer),
        forall|k: int| 0 <= k < entry.len() ==> #[trigger] entry[k] != id,
    ensures
        to != id,
{
    let adj = layer_of(nodes, layer);
    let path = choose|path: Seq<u32>| #[trigger] walk(adj, entry, path) && path.last() == to;
    if path.len() == 1 {
        let k = choose|k: int| 0 <= k < entry.len() && entry[k] == path[0];
        assert(entry[k] != id);
    } else {
        let prev = path[path.len() - 2];
        assert(adj(prev).contains(path[path.len() - 1]));
        let list = links(nodes, prev as int, layer);
        assert(adj(prev) == list);
        let k = choose|k: int| 0 <= k < list.len() && list[k] == to;
        assert(links(nodes, prev as int, layer)[k] != id);
    }
}

/// A layer that an insertion has not come to yet.
proof fn lemma_layer_untouched(
    before: Graph,
    base: Graph,
    now: Graph,
    id: u32,
    level: nat,
    l: int,
)
    requires
        before.wf(),
        id == before.nodes.len(),
        0 <= l <= level,
        appended(before.nodes, base.nodes, level),
        same_levels(base.nodes, now.nodes),
        forall|x: int| #[trigger] links(now.nodes, x, l) == links(base.nodes, x, l),
    ensures
        forall|x: int| #[trigger] links(now.nodes, x, l) == links(before.nodes, x, l),
        now.reaches(id, l),
        links(now.nodes, id as int, l).len() == 0,
        unlinked(now.nodes, id, l),
        forall|x: u32| #[trigger] before.reaches(x, l) ==> now.reaches(x, l),
{
    lemma_same_layer(before.nodes, base.nodes, now.nodes, level, l);
    assert(base.nodes[id as int].len() == now.nodes[id as int].len());
    assert(links(now.nodes, id as int, l) == links(before.nodes, id as int, l));
    assert forall|x: int, k: int| 0 <= k < links(now.nodes, x, l).len() implies #[trigger] links(
        now.nodes,
        x,
        l,
    )[k] != id by {
        assert(before.tidy(x, l));
        assert(links(now.nodes, x, l) == links(before.nodes, x, l));
        assert(before.reaches(links(before.nodes, x, l)[k], l));
    }
    assert forall|x: u32| #[trigger] before.reaches(x, l) implies now.reaches(x, l) by {
        assert(base.nodes[x as int] == before.nodes[x as int]);
        assert(base.nodes[x as int].len() == now.nodes[x as int].len());
    }
}

proof fn lemma_layer_built_from(
    before: Graph,
    pre: Graph,
    now: Nodes,
    id: u32,
    l: int,
    between: Between,
    w: Seq<Candidate>,
)
    requires
        pre.m == before.m,
        layer_built(pre, now, id, l, between, w),
        forall|x: int| #[trigger] links(pre.nodes, x, l) == links(before.nodes, x, l),
    ensures
        layer_built(before, now, id, l, between, w),
{
    let chosen = choose|chosen: Seq<u32>| #[trigger]
        selected(w, pre.degree(l), between, chosen) && linked(
            pre.nodes,
            now,
            id,
            l,
            pre.degree(l),
            chosen,
            between,
        );
    assert(selected(w, before.degree(l), between, chosen));
    assert(linked(before.nodes, now, id, l, before.degree(l), chosen, between));
}

/// An insertion of `id` has linked it on the layers from `top` down to `rest`, and
/// goes on below at the nodes `ep`. `base` is the graph with `id` without links,
/// `now` the graph as it is.
#[verifier::opaque]
spec fn underway(
    before: Graph,
    base: Graph,
    now: Graph,
    id: u32,
    level: nat,
    top: int,
    rest: int,
    between: Between,
    first: u32,
    found: Map<int, Seq<Candidate>>,
    ep: Seq<u32>,
) -> bool {
    &&& before.wf()
    &&& before.entry is Some
    &&& id == before.nodes.len()
    &&& top == lower(level, before.max_level)
    &&& base == (Graph { nodes: base.nodes, rng: base.rng, ..before })
    &&& appended(before.nodes, base.nodes, level)
    &&& now == (Graph { nodes: now.nodes, ..base })
    &&& same_levels(base.nodes, now.nodes)
    &&& now.all_tidy()
    &&& forall|x: int, l: int|
        l < rest || l > top ==> #[trigger] links(now.nodes, x, l) == links(base.nodes, x, l)
    &&& rest > 0 ==> ep == starts(first, found, top, rest - 1)
    &&& ep.no_duplicates()
    &&& rest > 0 ==> present(before, ep, id, rest - 1)
    &&& descends(
        layers_of(before.nodes),
        from_node(between, id),
        before.entry->0,
        before.max_level,
        top as nat,
        first,
    )
    &&& searched(before, id, top, rest, between, first, found)
    &&& built_down_to(before, now.nodes, id, top, rest, between, found)
}

#[verifier::opaque]
spec fn searched(
    before: Graph,
    id: u32,
    top: int,
    rest: int,
    between: Between,
    first: u32,
    found: Map<int, Seq<Candidate>>,
) -> bool {
    forall|l: int|
        rest <= l <= top ==> layer_search(
            layer_of(before.nodes, l),
            starts(first, found, top, l),
            before.ef_construction,
            from_node(between, id),
            #[trigger] found[l],
        )
}

#[verifier::opaque]
spec fn built_down_to(
    before: Graph,
    now: Nodes,
    id: u32,
    top: int,
    rest: int,
    between: Between,
    found: Map<int, Seq<Candidate>>,
) -> bool {
    forall|l: int|
        rest <= l <= top ==> layer_built(before, now, id, l, between, #[trigger] found[l])
}

proof fn lemma_searched_step(
    before: Graph,
    id: u32,
    top: int,
    rest: int,
    between: Between,
    first: u32,
    found: Map<int, Seq<Candidate>>,
    ep: Seq<u32>,
    w: Seq<Candidate>,
)
    requires
        0 < rest <= top + 1,
        searched(before, id, top, rest, between, first, found),
        ep == starts(first, found, top, rest - 1),
        layer_search(
            layer_of(before.nodes, rest - 1),
            ep,
            before.ef_construction,
            from_node(between, id),
            w,
        ),
    ensures
        searched(before, id, top, rest - 1, between, first, found.insert(rest - 1, w)),
{
    reveal(searched);
    let l = rest - 1;
    let more = found.insert(l, w);
    assert forall|o: int| l <= o <= top implies layer_search(
        layer_of(before.nodes, o),
        starts(first, more, top, o),
        before.ef_construction,
        from_node(between, id),
        #[trigger] more[o],
    ) by {
        if o > l {
            assert(more[o] == found[o]);
            assert(starts(first, more, top, o) == starts(first, found, top, o));
        } else {
            assert(starts(first, more, top, o) == ep);
        }
    }
}

proof fn lemma_built_step(
    before: Graph,
    pre: Graph,
    post: Nodes,
    id: u32,
    top: int,
    rest: int,
    between: Between,
    found: Map<int, Seq<Candidate>>,
    w: Seq<Candidate>,
)
    requires
        0 < rest <= top + 1,
        pre.m == before.m,
        built_down_to(before, pre.nodes, id, top, rest, between, found),
        forall|x: int, l: int|
            l != rest - 1 ==> #[trigger] links(post, x, l) == links(pre.nodes, x, l),
        forall|x: int| #[trigger]
            links(pre.nodes, x, rest - 1) == links(before.nodes, x, rest - 1),
        layer_built(pre, post, id, rest - 1, between, w),
    ensures
        built_down_to(before, post, id, top, rest - 1, between, found.insert(rest - 1, w)),
{
    reveal(built_down_to);
    let l = rest - 1;
    let more = found.insert(l, w);
    lemma_layer_built_from(before, pre, post, id, l, between, w);
    assert forall|o: int| l <= o <= top implies layer_built(
        before,
        post,
        id,
        o,
        between,
        #[trigger] more[o],
    ) by {
        if o > l {
            assert(more[o] == found[o]);
            lemma_layer_built_still(before, pre.nodes, post, id, o, between, found[o]);
        }
    }
}

proof fn lemma_underway_ready(
    before: Graph,
    base: Graph,
    now: Graph,
    id: u32,
    level: nat,
    top: int,
    rest: int,
    between: Between,
    first: u32,
    found: Map<int, Seq<Candidate>>,
    ep: Seq<u32>,
)
    requires
        0 < rest <= top + 1,
        underway(before, base, now, id, level, top, rest, between, first, found, ep),
    ensures
        now.all_tidy(),
        now.nodes.len() == id + 1,
        now.reaches(id, rest - 1),
        links(now.nodes, id as int, rest - 1).len() == 0,
        unlinked(now.nodes, id, rest - 1),
        ep.no_duplicates(),
        present(now, ep, id, rest - 1),
{
    reveal(underway);
    lemma_layer_untouched(before, base, now, id, level, rest - 1);
    assert forall|k: int| 0 <= k < ep.len() implies now.reaches(#[trigger] ep[k], rest - 1) && ep[k]
        != id by {
        assert(before.reaches(ep[k], rest - 1));
    }
}

proof fn lemma_underway_step(
    before: Graph,
    base: Graph,
    pre: Graph,
    post: Graph,
    id: u32,
    level: nat,
    top: int,
    rest: int,
    between: Between,
    first: u32,
    found: Map<int, Seq<Candidate>>,
    ep: Seq<u32>,
    w: Seq<Candidate>,
)
    requires
        0 < rest <= top + 1,
        underway(before, base, pre, id, level, top, rest, between, first, found, ep),
        post == (Graph { nodes: post.nodes, ..pre }),
        same_levels(pre.nodes, post.nodes),
        post.all_tidy(),
        forall|x: int, l: int|
            l != rest - 1 ==> #[trigger] links(post.nodes, x, l) == links(pre.nodes, x, l),
        layer_search(
            layer_of(pre.nodes, rest - 1),
            ep,
            pre.ef_construction,
            from_node(between, id),
            w,
        ),
        layer_built(pre, post.nodes, id, rest - 1, between, w),
        ids(w).no_duplicates(),
        present(pre, ids(w), id, rest - 1),
    ensures
        underway(
            before,
            base,
            post,
            id,
            level,
            top,
            rest - 1,
            between,
            first,
            found.insert(rest - 1, w),
            ids(w),
        ),
{
    reveal(underway);
    let l = rest - 1;
    let more = found.insert(l, w);
    lemma_layer_untouched(before, base, pre, id, level, l);
    assert(layer_of(pre.nodes, l) =~= layer_of(before.nodes, l));
    lemma_searched_step(before, id, top, rest, between, first, found, ep, w);
    lemma_built_step(before, pre, post.nodes, id, top, rest, between, found, w);
    assert forall|k: int| 0 <= k < ids(w).len() && l > 0 implies before.reaches(
        #[trigger] ids(w)[k],
        l - 1,
    ) && ids(w)[k] != id by {
        let x = ids(w)[k];
        assert(pre.reaches(x, l));
        assert(base.nodes[x as int] == before.nodes[x as int]);
        assert(base.nodes[x as int].len() == pre.nodes[x as int].len());
    }
    assert forall|x: int| 0 <= x < base.nodes.len() implies (#[trigger] base.nodes[x]).len()
        == post.nodes[x].len() by {
        assert(base.nodes[x].len() == pre.nodes[x].len());
    }
    if l > 0 {
        assert(ids(w) == starts(first, more, top, l - 1));
    }
}

/// What the parts of an insertion make together.
proof fn lemma_inserted(
    before: Graph,
    base: Graph,
    ending: Graph,
    after: Graph,
    id: u32,
    level: nat,
    between: Between,
    first: u32,
    found: Map<int, Seq<Candidate>>,
)
    requires
        before.wf(),
        before.entry is Some,
        id == before.nodes.len(),
        appended(before.nodes, base.nodes, level),
        base == (Graph { nodes: base.nodes, rng: base.rng, ..before }),
        ending == (Graph { nodes: ending.nodes, ..base }),
        same_levels(base.nodes, ending.nodes),
        ending.all_tidy(),
        forall|x: int, l: int|
            l > lower(level, before.max_level) ==> #[trigger] links(ending.nodes, x, l) == links(
                base.nodes,
                x,
                l,
            ),
        built(before, ending, id, lower(level, before.max_level) as int, between, first, found),
        after == if level > before.max_level {
            Graph { entry: Some(id), max_level: level, ..ending }
        } else {
            ending
        },
    ensures
        inserted(before, after, id, level, between),
        after.wf(),
{
    let top = lower(level, before.max_level) as int;
    assert(after.nodes == ending.nodes);
    assert(built(before, after, id, top, between, first, found));
    assert forall|x: int, l: int| l > top implies #[trigger] links(after.nodes, x, l) == links(
        before.nodes,
        x,
        l,
    ) by {
        assert(links(ending.nodes, x, l) == links(base.nodes, x, l));
        if x == before.nodes.len() {
            assert(links(base.nodes, x, l) =~= seq![]);
        }
    }
    assert forall|x: int| 0 <= x < id implies (#[trigger] after.nodes[x]).len()
        == before.nodes[x].len() by {
        assert(base.nodes[x] == before.nodes[x]);
        assert(base.nodes[x].len() == ending.nodes[x].len());
    }
    assert(base.nodes[id as int].len() == ending.nodes[id as int].len());
    lemma_tidy_only_nodes(ending, after);
    assert forall|x: int| 0 <= x < after.nodes.len() implies 1 <= (#[trigger] after.nodes[x]).len()
        <= after.max_level + 1 by {
        if x < id {
            assert(after.nodes[x].len() == before.nodes[x].len());
        }
    }
}

proof fn lemma_tidy_only_nodes(a: Graph, b: Graph)
    requires
        a.all_tidy(),
        a.m == b.m,
        a.nodes == b.nodes,
    ensures
        b.all_tidy(),
{
    assert forall|x: int, layer: int| #[trigger] b.tidy(x, layer) by {
        assert(a.tidy(x, layer));
        let list = links(b.nodes, x, layer);
        assert forall|k: int| 0 <= k < list.len() implies b.reaches(#[trigger] list[k], layer)
            && list[k] != x by {
            assert(a.reaches(list[k], layer));
        }
    }
}

proof fn lemma_first_node(base: Graph, after: Graph)
    requires
        base.all_tidy(),
        base.nodes.len() == 1,
        base.nodes[0].len() >= 1,
        after == (Graph { entry: Some(0), max_level: (base.nodes[0].len() - 1) as nat, ..base }),
    ensures
        after.wf(),
{
    lemma_tidy_only_nodes(base, after);
}

proof fn lemma_layer_built_still(
    before: Graph,
    pre: Nodes,
    now: Nodes,
    id: u32,
    l: int,
    between: Between,
    w: Seq<Candidate>,
)
    requires
        layer_built(before, pre, id, l, between, w),
        forall|x: int| #[trigger] links(now, x, l) == links(pre, x, l),
    ensures
        layer_built(before, now, id, l, between, w),
{
    let chosen = choose|chosen: Seq<u32>| #[trigger]
        selected(w, before.degree(l), between, chosen) && linked(
            before.nodes,
            pre,
            id,
            l,
            before.degree(l),
            chosen,
            between,
        );
    assert forall|x: u32| #[trigger] chosen.contains(x) implies relinked(
        links(before.nodes, x as int, l),
        links(now, x as int, l),
        x,
        id,
        before.degree(l),
        between,
    ) by {
        assert(links(now, x as int, l) == links(pre, x as int, l));
    }
    assert(linked(before.nodes, now, id, l, before.degree(l), chosen, between));
}

/// Every node is on as many layers in one graph as in the other.
spec fn same_levels(a: Nodes, b: Nodes) -> bool {
    &&& a.len() == b.len()
    &&& forall|x: int| 0 <= x < a.len() ==> (#[trigger] a[x]).len() == b[x].len()
}

proof fn lemma_relinked(
    old_list: Seq<u32>,
    new_list: Seq<u32>,
    base: u32,
    id: u32,
    m: nat,
    between: Between,
)
    requires
        relinked(old_list, new_list, base, id, m, between),
        old_list.no_duplicates(),
        !old_list.contains(id),
        old_list.len() <= m,
    ensures
        new_list.no_duplicates(),
        new_list.len() <= m,
        forall|k: int|
            0 <= k < new_list.len() ==> old_list.contains(#[trigger] new_list[k]) || new_list[k] == id,
{
    let grown = old_list.push(id);
    assert(grown.no_duplicates());
    if old_list.len() < m {
        assert forall|k: int| 0 <= k < new_list.len() implies old_list.contains(
            #[trigger] new_list[k],
        ) || new_list[k] == id by {
            if k < old_list.len() {
                assert(old_list[k] == new_list[k]);
            }
        }
    } else {
        let c = choose|c: Seq<Candidate>|
            ids(c) == grown && (forall|i: int|
                0 <= i < c.len() ==> between(base, (#[trigger] c[i]).id, c[i].dist))
                && #[trigger] selected(c, m, between, new_list);
        law_selection_is_full(c, m, between, new_list);
        assert forall|k: int| 0 <= k < new_list.len() implies old_list.contains(
            #[trigger] new_list[k],
        ) || new_list[k] == id by {
            assert(ids(c).contains(new_list[k]));
            let i = choose|i: int| 0 <= i < grown.len() && grown[i] == new_list[k];
            if i < old_list.len() {
                assert(old_list[i] == new_list[k]);
            }
        }
    }
}

/// Linking one more chosen node keeps everything in order.
proof fn lemma_link_step(
    start: Graph,
    pre: Graph,
    post: Graph,
    id: u32,
    l: int,
    chosen: Seq<u32>,
    t: int,
    between: Between,
    list: Seq<u32>,
)
    requires
        0 <= t < chosen.len(),
        0 <= l,
        start.all_tidy(),
        start.reaches(id, l),
        forall|x: int, k: int|
            0 <= k < links(start.nodes, x, l).len() ==> #[trigger] links(start.nodes, x, l)[k] != id,
        chosen.no_duplicates(),
        chosen.len() <= start.degree(l),
        forall|k: int|
            0 <= k < chosen.len() ==> start.reaches(#[trigger] chosen[k], l) && chosen[k] != id,
        pre == (Graph { nodes: pre.nodes, ..start }),
        same_levels(start.nodes, pre.nodes),
        forall|x: int, o: int|
            o != l ==> #[trigger] links(pre.nodes, x, o) == links(start.nodes, x, o),
        linked(start.nodes, pre.nodes, id, l, start.degree(l), chosen.take(t), between),
        pre.all_tidy(),
        relinked(links(start.nodes, chosen[t] as int, l), list, chosen[t], id, start.degree(l), between),
        post == (Graph {
            nodes: with_links(
                with_links(pre.nodes, id, l, links(pre.nodes, id as int, l).push(chosen[t])),
                chosen[t],
                l,
                list,
            ),
            ..start
        }),
    ensures
        same_levels(start.nodes, post.nodes),
        forall|x: int, o: int|
            o != l ==> #[trigger] links(post.nodes, x, o) == links(start.nodes, x, o),
        linked(start.nodes, post.nodes, id, l, start.degree(l), chosen.take(t + 1), between),
        post.all_tidy(),
{
    let nbr = chosen[t];
    assert(chosen.take(t + 1) =~= chosen.take(t).push(nbr));
    assert(start.reaches(nbr, l));
    assert(start.tidy(nbr as int, l));
    let old_list = links(start.nodes, nbr as int, l);
    assert(!old_list.contains(id)) by {
        if old_list.contains(id) {
            let k = choose|k: int| 0 <= k < old_list.len() && old_list[k] == id;
            assert(links(start.nodes, nbr as int, l)[k] != id);
        }
    }
    lemma_relinked(old_list, list, nbr, id, start.degree(l), between);
    assert(links(post.nodes, nbr as int, l) == list);
    assert(links(post.nodes, id as int, l) == chosen.take(t + 1));
    assert forall|x: int, o: int| o != l || (x != id && x != nbr) implies #[trigger] links(
        post.nodes,
        x,
        o,
    ) == links(pre.nodes, x, o) by {}
    assert forall|x: u32| #[trigger] chosen.take(t + 1).contains(x) implies relinked(
        links(start.nodes, x as int, l),
        links(post.nodes, x as int, l),
        x,
        id,
        start.degree(l),
        between,
    ) by {
        if x != nbr {
            let k = choose|k: int|
                0 <= k < chosen.take(t + 1).len() && #[trigger] chosen.take(t + 1)[k] == x;
            assert(chosen.take(t)[k] == x);
            assert(chosen.take(t).contains(x));
            assert(chosen[k] != id);
        }
    }
    assert forall|x: u32| x != id && !chosen.take(t + 1).contains(x) implies #[trigger] links(
        post.nodes,
        x as int,
        l,
    ) == links(start.nodes, x as int, l) by {
        assert(chosen.take(t + 1)[t] == nbr);
        if chosen.take(t).contains(x) {
            let k = choose|k: int|
                0 <= k < chosen.take(t).len() && #[trigger] chosen.take(t)[k] == x;
            assert(chosen.take(t + 1)[k] == x);
        }
    }
    assert forall|x: int, o: int| #[trigger] post.tidy(x, o) by {
        assert(pre.tidy(x, o));
        let now = links(post.nodes, x, o);
        if o == l && x == nbr {
            assert forall|k: int| 0 <= k < now.len() implies post.reaches(#[trigger] now[k], o)
                && now[k] != x by {
                if now[k] != id {
                    let i = choose|i: int| 0 <= i < old_list.len() && old_list[i] == now[k];
                    assert(start.reaches(old_list[i], l));
                }
            }
        } else if o == l && x == id {
            assert forall|k: int| 0 <= k < now.len() implies post.reaches(#[trigger] now[k], o)
                && now[k] != x by {
                assert(now[k] == chosen[k]);
            }
        } else {
            assert forall|k: int| 0 <= k < now.len() implies post.reaches(#[trigger] now[k], o)
                && now[k] != x by {
                assert(pre.reaches(links(pre.nodes, x, o)[k], o));
            }
        }
    }
}

/// The nodes with the neighbour list of `id` at `layer` replaced.
spec fn with_links(nodes: Nodes, id: u32, layer: int, list: Seq<u32>) -> Nodes {
    nodes.update(id as int, nodes[id as int].update(layer, list))
}

proof fn lemma_same_shape(a: Graph, b: Graph)
    requires
        a.wf(),
        a.m == b.m,
        a.nodes == b.nodes,
        a.entry == b.entry,
        a.max_level == b.max_level,
    ensures
        b.wf(),
{
    assert forall|x: int, layer: int| #[trigger] b.tidy(x, layer) by {
        assert(a.tidy(x, layer));
        let list = links(b.nodes, x, layer);
        assert forall|k: int| 0 <= k < list.len() implies b.reaches(#[trigger] list[k], layer)
            && list[k] != x by {
            assert(a.reaches(list[k], layer));
        }
    }
}

/// Sorts candidates by distance, keeping the order of those at equal distance.
pub fn sort_candidates(candidates: &Vec<Candidate>) -> (s: Vec<Candidate>)
    ensures
        stably_sorted(candidates@, s@),
{
    let mut s: Vec<Candidate> = Vec::new();
    let ghost mut from: Seq<int> = seq![];
    let mut i: usize = 0;
    while i < candidates.len()
        invariant
            i <= candidates.len(),
            sorted_by(candidates@.take(i as int), s@, from),
        decreases candidates.len() - i,
    {
        let ghost s0 = s@;
        let ghost from0 = from;
        let ghost c = candidates@[i as int];
        let p = insert_sorted(&mut s, candidates[i]);
        proof {
            from = from.insert(p as int, i as int);
            let part = candidates@.take(i + 1);
            assert forall|k: int| 0 <= k < s@.len() implies 0 <= #[trigger] from[k] < part.len()
                && s@[k] == part[from[k]] by {
                if k < p {
                    assert(0 <= from0[k] < i);
                } else if k > p {
                    assert(0 <= from0[k - 1] < i);
                }
            }
            assert forall|a: int, b: int| 0 <= a < from.len() && 0 <= b < from.len() && a
                != b implies from[a] != from[b] by {
                let x = if a < p { a } else { a - 1 };
                let y = if b < p { b } else { b - 1 };
                if a == p {
                    assert(0 <= from0[y] < i);
                } else if b == p {
                    assert(0 <= from0[x] < i);
                } else {
                    assert(from0[x] != from0[y]);
                }
            }
            assert forall|a: int, b: int| 0 <= a < b < s@.len() implies (#[trigger] s@[a]).dist.rank()
                < (#[trigger] s@[b]).dist.rank() || (s@[a].dist.rank() == s@[b].dist.rank()
                && from[a] < from[b]) by {
                let x = if a < p { a } else { a - 1 };
                let y = if b < p { b } else { b - 1 };
                if b == p {
                    assert(s0[x].dist.rank() <= c.dist.rank());
                    assert(0 <= from0[x] < i);
                } else if a == p {
                    assert(s0[y].dist.rank() > c.dist.rank());
                } else {
                    assert(s0[x].dist.rank() < s0[y].dist.rank() || (s0[x].dist.rank()
                        == s0[y].dist.rank() && from0[x] < from0[y]));
                }
            }
        }
        i += 1;
    }
    proof {
        assert(candidates@.take(i as int) =~= candidates@);
        assert(sorted_by(candidates@, s@, from));
    }
    s
}

/// The neighbour-selection heuristic. `candidates` carry their distance to the
/// base node; `dist_nodes` gives node-to-node distances. Keeps a candidate only
/// if it is closer to the base than to every already-chosen neighbour, then
/// backfills from the discarded set so the result reaches `m` when possible.
fn select_neighbors<F: Fn(u32, u32) -> Float>(
    candidates: &Vec<Candidate>,
    m: usize,
    dist_nodes: &F,
) -> (out: Vec<u32>)
    requires
        forall|i: int, j: int|
            0 <= i < candidates@.len() && 0 <= j < candidates@.len() ==> call_requires(
                *dist_nodes,
                ((#[trigger] candidates@[i]).id, (#[trigger] candidates@[j]).id),
            ),
    ensures
        selected(candidates@, m as nat, measured_pairs(*dist_nodes), out@),
{
    let s = sort_candidates(candidates);
    let ghost between = measured_pairs(*dist_nodes);
    let ghost from = choose|from: Seq<int>| #[trigger] sorted_by(candidates@, s@, from);
    let mut chosen: Vec<Candidate> = Vec::new();
    let mut out: Vec<u32> = Vec::new();
    let mut discarded: Vec<u32> = Vec::new();
    let ghost mut keep: Seq<bool> = seq![];
    // Where in `s` each chosen candidate stands.
    let ghost mut place: Seq<int> = seq![];
    let mut i: usize = 0;
    while i < s.len() && chosen.len() < m
        invariant
            i <= s.len(),
            keep.len() == i,
            sorted_by(candidates@, s@, from),
            between == measured_pairs(*dist_nodes),
            forall|i: int, j: int|
                0 <= i < candidates@.len() && 0 <= j < candidates@.len() ==> call_requires(
                    *dist_nodes,
                    ((#[trigger] candidates@[i]).id, (#[trigger] candidates@[j]).id),
                ),
            chosen@.len() <= m,
            out@ == ids(chosen@),
            out@ == marked(s@, keep, true),
            discarded@ == marked(s@, keep, false),
            placed(s@, keep, chosen@, place),
            forall|k: int|
                0 <= k < keep.len() ==> marked(s@, #[trigger] keep.take(k), true).len() < m,
            forall|k: int, j: int|
                0 <= j < k < keep.len() && #[trigger] keep[k] && #[trigger] keep[j] ==> apart(
                    between,
                    s@[k],
                    s@[j],
                ),
            forall|k: int|
                0 <= k < keep.len() && !#[trigger] keep[k] ==> exists|j: int|
                    0 <= j < k && #[trigger] keep[j] && shadowed(between, s@[k], s@[j]),
        decreases s.len() - i,
    {
        let c = s[i];
        let mut diverse = true;
        let mut j: usize = 0;
        while j < chosen.len() && diverse
            invariant
                j <= chosen.len(),
                i < s.len(),
                c == s@[i as int],
                sorted_by(candidates@, s@, from),
                between == measured_pairs(*dist_nodes),
                placed(s@, keep, chosen@, place),
                keep.len() == i,
                forall|i: int, j: int|
                    0 <= i < candidates@.len() && 0 <= j < candidates@.len() ==> call_requires(
                        *dist_nodes,
                        ((#[trigger] candidates@[i]).id, (#[trigger] candidates@[j]).id),
                    ),
                diverse ==> forall|k: int| 0 <= k < j ==> apart(between, c, #[trigger] chosen@[k]),
                !diverse ==> exists|k: int|
                    0 <= k < chosen@.len() && shadowed(between, c, #[trigger] chosen@[k]),
            decreases chosen.len() - j,
        {
            let r = chosen[j];
            assert(call_requires(*dist_nodes, (c.id, r.id))) by {
                assert(s@[place[j as int]] == r);
                assert(c == candidates@[from[i as int]]);
                assert(r == candidates@[from[place[j as int]]]);
            }
            let d = dist_nodes(c.id, r.id);
            assert(between(c.id, r.id, d));
            if c.dist.less(d) {
                assert(apart(between, c, chosen@[j as int]));
            } else {
                assert(shadowed(between, c, chosen@[j as int]));
                diverse = false;
            }
            j += 1;
        }
        let ghost keep0 = keep;
        let ghost place0 = place;
        let ghost chosen0 = chosen@;
        proof {
            keep = keep.push(diverse);
            assert(keep.drop_last() =~= keep0);
            assert forall|k: int| 0 <= k < keep.len() implies marked(
                s@,
                #[trigger] keep.take(k),
                true,
            ).len() < m by {
                if k < keep0.len() {
                    assert(keep.take(k) =~= keep0.take(k));
                } else {
                    assert(keep.take(k) =~= keep0);
                }
            }
        }
        if diverse {
            chosen.push(c);
            out.push(c.id);
            proof {
                place = place.push(i as int);
                assert(ids(chosen@) =~= out@);
                assert forall|k: int, j: int|
                    0 <= j < k < keep.len() && #[trigger] keep[k] && #[trigger] keep[j] implies apart(
                    between,
                    s@[k],
                    s@[j],
                ) by {
                    assert(keep0[j]);
                    if k == i {
                        let at = choose|at: int| 0 <= at < place0.len() && #[trigger] place0[at] == j;
                        assert(apart(between, c, chosen0[at]));
                    } else {
                        assert(keep0[k]);
                    }
                }
                assert forall|k: int| 0 <= k < keep.len() && #[trigger] keep[k] implies exists|at: int|
                    0 <= at < place.len() && #[trigger] place[at] == k by {
                    if k == i {
                        assert(place[place0.len() as int] == k);
                    } else {
                        assert(keep0[k]);
                        let at = choose|at: int| 0 <= at < place0.len() && #[trigger] place0[at] == k;
                        assert(place[at] == k);
                    }
                }
            }
        } else {
            discarded.push(c.id);
            proof {
                let k = choose|k: int|
                    0 <= k < chosen@.len() && shadowed(between, c, #[trigger] chosen@[k]);
                assert(keep[place[k]]);
                assert(s@[place[k]] == chosen@[k]);
                assert forall|k: int| 0 <= k < keep.len() && #[trigger] keep[k] implies exists|at: int|
                    0 <= at < place.len() && #[trigger] place[at] == k by {
                    assert(keep0[k]);
                }
                assert forall|k: int, j: int|
                    0 <= j < k < keep.len() && #[trigger] keep[k] && #[trigger] keep[j] implies apart(
                    between,
                    s@[k],
                    s@[j],
                ) by {
                    assert(keep0[k] && keep0[j]);
                }
            }
        }
        proof {
            assert forall|k: int| 0 <= k < keep.len() && !#[trigger] keep[k] implies exists|j: int|
                0 <= j < k && #[trigger] keep[j] && shadowed(between, s@[k], s@[j]) by {
                if k < i {
                    assert(!keep0[k]);
                    let j = choose|j: int|
                        0 <= j < k && #[trigger] keep0[j] && shadowed(between, s@[k], s@[j]);
                    assert(keep[j]);
                }
            }
        }
        i += 1;
    }
    let ghost kept = out@;
    let mut t: usize = 0;
    while out.len() < m && t < discarded.len()
        invariant
            t <= discarded.len(),
            kept.len() <= m,
            out@ == kept + discarded@.take(t as int),
            out@.len() <= m,
        decreases discarded.len() - t,
    {
        out.push(discarded[t]);
        t += 1;
        assert(out@ =~= kept + discarded@.take(t as int));
    }
    proof {
        assert(heuristic(s@, m as nat, between, keep));
        if t == discarded.len() {
            assert(discarded@.take(t as int) =~= discarded@);
        }
        assert(out@ =~= crate::vector::graph::filled(kept, discarded@, m as nat));
        assert(selection(s@, m as nat, between, out@));
    }
    out
}

/// `place` says where in `s` each chosen candidate stands, and those are the
/// places marked in `keep`.
spec fn placed(
    s: Seq<Candidate>,
    keep: Seq<bool>,
    chosen: Seq<Candidate>,
    place: Seq<int>,
) -> bool {
    &&& place.len() == chosen.len()
    &&& keep.len() <= s.len()
    &&& forall|j: int|
        0 <= j < place.len() ==> 0 <= #[trigger] place[j] < keep.len() && keep[place[j]]
            && s[place[j]] == chosen[j]
    &&& forall|k: int|
        0 <= k < keep.len() && #[trigger] keep[k] ==> exists|j: int|
            0 <= j < place.len() && #[trigger] place[j] == k
}

/// Offers a newly measured node to the results and, if they take it, to the
/// frontier.
fn offer(
    found: &mut Vec<Candidate>,
    frontier: &mut Vec<Candidate>,
    c: Candidate,
    ef: usize,
    Ghost(seen): Ghost<Map<u32, Float>>,
    Ghost(done): Ghost<Set<u32>>,
)
    requires
        consistent(seen, old(found)@, old(frontier)@, ef as int),
        pending(done, old(found)@, old(frontier)@),
        !seen.contains_key(c.id),
    ensures
        consistent(seen.insert(c.id, c.dist), final(found)@, final(frontier)@, ef as int),
        pending(done, final(found)@, final(frontier)@),
        (Sweep {
            frontier: final(frontier)@,
            found: final(found)@,
            seen: seen.insert(c.id, c.dist).dom(),
        }) == (Sweep { frontier: old(frontier)@, found: old(found)@, seen: seen.dom() }).with(
            c,
            ef as nat,
        ),
{
    proof {
        reveal(consistent);
        assert(seen.insert(c.id, c.dist).dom() =~= seen.dom().insert(c.id));
    }
    let worst = if found.len() > 0 {
        found[found.len() - 1].dist
    } else {
        Float::infinity()
    };
    if c.dist.less(worst) || found.len() < ef {
        let p = insert_sorted(frontier, c);
        let q = insert_sorted(found, c);
        proof {
            assert(!holds(old(found)@, c.id));
            lemma_insert(seen, old(frontier)@, c, p as int);
            lemma_insert(seen, old(found)@, c, q as int);
            lemma_insert_distinct(old(found)@, c, q as int);
            assert forall|i: int| 0 <= i < found@.len() implies done.contains(
                (#[trigger] found@[i]).id,
            ) || holds(frontier@, found@[i].id) by {
                assert(holds(found@, found@[i].id));
                if found@[i].id != c.id {
                    let k = choose|k: int|
                        0 <= k < old(found)@.len() && (#[trigger] old(found)@[k]).id == found@[i].id;
                    assert(done.contains(old(found)@[k].id) || holds(
                        old(frontier)@,
                        old(found)@[k].id,
                    ));
                }
            }
        }
        let ghost wide = found@;
        if found.len() > ef {
            found.pop();
            proof {
                lemma_best_replaced(seen, old(found)@, c, q as int);
                assert(found@ == wide.drop_last());
                assert forall|i: int| 0 <= i < found@.len() implies done.contains(
                    (#[trigger] found@[i]).id,
                ) || holds(frontier@, found@[i].id) by {
                    assert(found@[i] == wide[i]);
                }
            }
        } else {
            proof {
                lemma_all_kept(seen.insert(c.id, c.dist), found@);
            }
        }
    } else {
        proof {
            lemma_best_rejected(seen, found@, c.id, c.dist);
        }
    }
}

/// The two candidate lists of a search hang together with what it looked at.
#[verifier::opaque]
spec fn consistent(
    seen: Map<u32, Float>,
    found: Seq<Candidate>,
    frontier: Seq<Candidate>,
    ef: int,
) -> bool {
    &&& listed(seen, found)
    &&& listed(seen, frontier)
    &&& ascending(found)
    &&& ascending(frontier)
    &&& ids(found).no_duplicates()
    &&& found.len() <= ef
    &&& found.len() < ef ==> forall|id: u32| #[trigger]
        seen.contains_key(id) ==> holds(found, id)
    &&& best(seen, found)
}

/// Every result has been expanded or waits in the frontier.
spec fn pending(done: Set<u32>, found: Seq<Candidate>, frontier: Seq<Candidate>) -> bool {
    forall|i: int|
        0 <= i < found.len() ==> done.contains((#[trigger] found[i]).id) || holds(
            frontier,
            found[i].id,
        )
}

proof fn lemma_take_first(
    seen: Map<u32, Float>,
    found: Seq<Candidate>,
    frontier: Seq<Candidate>,
    done: Set<u32>,
    ef: int,
)
    requires
        consistent(seen, found, frontier, ef),
        pending(done, found, frontier),
        frontier.len() > 0,
    ensures
        consistent(seen, found, frontier.drop_first(), ef),
        pending(done.insert(frontier[0].id), found, frontier.drop_first()),
        seen.contains_key(frontier[0].id),
{
    reveal(consistent);
    let rest = frontier.drop_first();
    assert forall|i: int| 0 <= i < found.len() implies done.insert(frontier[0].id).contains(
        (#[trigger] found[i]).id,
    ) || holds(rest, found[i].id) by {
        if !done.contains(found[i].id) {
            let k = choose|k: int|
                0 <= k < frontier.len() && (#[trigger] frontier[k]).id == found[i].id;
            if k > 0 {
                assert(rest[k - 1] == frontier[k]);
            }
        }
    }
}

proof fn lemma_stop(
    seen: Map<u32, Float>,
    found: Seq<Candidate>,
    frontier: Seq<Candidate>,
    done: Set<u32>,
    ef: int,
)
    requires
        consistent(seen, found, frontier, ef),
        pending(done, found, frontier),
        frontier.len() > 0,
        found.len() > 0,
        found.last().dist.below(frontier[0].dist),
    ensures
        forall|i: int| 0 <= i < found.len() ==> done.contains((#[trigger] found[i]).id),
{
    reveal(consistent);
    assert forall|i: int| 0 <= i < found.len() implies done.contains((#[trigger] found[i]).id) by {
        if holds(frontier, found[i].id) {
            let k = choose|k: int|
                0 <= k < frontier.len() && (#[trigger] frontier[k]).id == found[i].id;
            assert(frontier[0].dist.rank() <= frontier[k].dist.rank());
            assert(found[i].dist.rank() <= found[found.len() - 1].dist.rank());
        }
    }
}

/// Every node looked at is in the graph, reachable and measured.
spec fn sound(adj: Adjacency, entry: Seq<u32>, near: Near, n: nat, seen: Map<u32, Float>) -> bool {
    forall|id: u32| #[trigger]
        seen.contains_key(id) ==> id < n && near(id, seen[id]) && reachable(adj, entry, id)
}

/// Every candidate was looked at and has its measured distance.
spec fn listed(seen: Map<u32, Float>, s: Seq<Candidate>) -> bool {
    forall|i: int|
        0 <= i < s.len() ==> seen.contains_key((#[trigger] s[i]).id) && seen[s[i].id] == s[i].dist
}

/// A candidate list holds a node.
spec fn holds(s: Seq<Candidate>, id: u32) -> bool {
    exists|i: int| 0 <= i < s.len() && (#[trigger] s[i]).id == id
}

/// The neighbours of every node in `done` were looked at.
spec fn expanded(adj: Adjacency, seen: Map<u32, Float>, done: Set<u32>) -> bool {
    forall|x: u32, y: u32| done.contains(x) && #[trigger] adj(x).contains(y) ==> seen.contains_key(y)
}

/// No node that was left out is closer than one in the list.
spec fn best(seen: Map<u32, Float>, s: Seq<Candidate>) -> bool {
    (forall|id: u32| #[trigger] seen.contains_key(id) ==> !seen[id].is_nan()) ==> forall|
        id: u32,
        i: int,
    |
        0 <= i < s.len() && seen.contains_key(id) && !holds(s, id) ==> !#[trigger] seen[id].below(
            s[i].dist,
        )
}

proof fn lemma_step(adj: Adjacency, entry: Seq<u32>, from: u32, to: u32)
    requires
        reachable(adj, entry, from),
        adj(from).contains(to),
    ensures
        reachable(adj, entry, to),
{
    let path = choose|path: Seq<u32>| #[trigger] walk(adj, entry, path) && path.last() == from;
    let longer = path.push(to);
    assert forall|i: int| 0 < i < longer.len() implies adj(longer[i - 1]).contains(
        #[trigger] longer[i],
    ) by {
        if i < path.len() {
            assert(longer[i] == path[i]);
        }
    }
    assert(walk(adj, entry, longer));
    assert(longer.last() == to);
}

proof fn lemma_bounded(s: Set<u32>, n: nat)
    requires
        forall|x: u32| s.contains(x) ==> x < n,
    ensures
        s.finite(),
        s.len() <= n,
    decreases n,
{
    if n == 0 {
        assert(s =~= Set::empty());
    } else {
        let last = (n - 1) as u32;
        lemma_bounded(s.remove(last), (n - 1) as nat);
        if s.contains(last) {
            assert(s =~= s.remove(last).insert(last));
        } else {
            assert(s =~= s.remove(last));
        }
    }
}

proof fn lemma_insert(seen: Map<u32, Float>, s: Seq<Candidate>, c: Candidate, p: int)
    requires
        listed(seen, s),
        0 <= p <= s.len(),
        !seen.contains_key(c.id),
    ensures
        listed(seen.insert(c.id, c.dist), s.insert(p, c)),
        holds(s.insert(p, c), c.id),
        forall|id: u32| #[trigger] holds(s, id) ==> holds(s.insert(p, c), id),
        forall|id: u32| #[trigger] holds(s.insert(p, c), id) ==> id == c.id || holds(s, id),
{
    let t = s.insert(p, c);
    assert(t[p] == c);
    assert forall|id: u32| #[trigger] holds(s, id) implies holds(t, id) by {
        let k = choose|k: int| 0 <= k < s.len() && (#[trigger] s[k]).id == id;
        if k < p {
            assert(t[k] == s[k]);
        } else {
            assert(t[k + 1] == s[k]);
        }
    }
}

proof fn lemma_insert_distinct(s: Seq<Candidate>, c: Candidate, p: int)
    requires
        ids(s).no_duplicates(),
        !holds(s, c.id),
        0 <= p <= s.len(),
    ensures
        ids(s.insert(p, c)).no_duplicates(),
{
    let t = s.insert(p, c);
    assert forall|i: int, j: int|
        0 <= i < ids(t).len() && 0 <= j < ids(t).len() && i != j implies ids(t)[i] != ids(t)[j] by {
        let a = if i < p { i } else { i - 1 };
        let b = if j < p { j } else { j - 1 };
        if i == p {
            assert(s[b].id != c.id);
        } else if j == p {
            assert(s[a].id != c.id);
        } else {
            assert(ids(s)[a] != ids(s)[b]);
        }
    }
}

proof fn lemma_holds(s: Seq<Candidate>, id: u32)
    ensures
        holds(s, id) <==> ids(s).contains(id),
{
    if holds(s, id) {
        let k = choose|k: int| 0 <= k < s.len() && (#[trigger] s[k]).id == id;
        assert(ids(s)[k] == id);
    }
    if ids(s).contains(id) {
        let k = choose|k: int| 0 <= k < ids(s).len() && ids(s)[k] == id;
        assert(s[k].id == id);
    }
}

proof fn lemma_truncated(seen: Map<u32, Float>, all: Seq<Candidate>, ef: int)
    requires
        listed(seen, all),
        ascending(all),
        ids(all).no_duplicates(),
        0 <= ef <= all.len(),
        forall|id: u32| #[trigger] seen.contains_key(id) ==> holds(all, id),
    ensures
        listed(seen, all.take(ef)),
        ascending(all.take(ef)),
        ids(all.take(ef)).no_duplicates(),
        best(seen, all.take(ef)),
{
    let t = all.take(ef);
    assert forall|id: u32, i: int|
        0 <= i < t.len() && seen.contains_key(id) && !holds(t, id) implies !#[trigger] seen[id].below(
        t[i].dist,
    ) by {
        assert(holds(all, id));
        let k = choose|k: int| 0 <= k < all.len() && (#[trigger] all[k]).id == id;
        if k < ef {
            assert(t[k] == all[k]);
        }
        assert(all[i].dist.rank() <= all[k].dist.rank());
    }
    assert forall|i: int, j: int| 0 <= i < ids(t).len() && 0 <= j < ids(t).len() && i != j implies ids(
        t,
    )[i] != ids(t)[j] by {
        assert(ids(all)[i] != ids(all)[j]);
    }
}

proof fn lemma_best_replaced(
    seen: Map<u32, Float>,
    s: Seq<Candidate>,
    c: Candidate,
    q: int,
)
    requires
        listed(seen, s),
        ascending(s),
        0 <= q <= s.len(),
        ascending(s.insert(q, c)),
        ids(s.insert(q, c)).no_duplicates(),
        !seen.contains_key(c.id),
        best(seen, s),
        s.len() == 0 || c.dist.below(s.last().dist),
    ensures
        listed(seen.insert(c.id, c.dist), s.insert(q, c).drop_last()),
        ascending(s.insert(q, c).drop_last()),
        ids(s.insert(q, c).drop_last()).no_duplicates(),
        best(seen.insert(c.id, c.dist), s.insert(q, c).drop_last()),
{
    let all = s.insert(q, c);
    let t = all.drop_last();
    let more = seen.insert(c.id, c.dist);
    lemma_insert(seen, s, c, q);
    assert forall|i: int, j: int| 0 <= i < ids(t).len() && 0 <= j < ids(t).len() && i != j implies ids(
        t,
    )[i] != ids(t)[j] by {
        assert(ids(all)[i] != ids(all)[j]);
    }
    if forall|id: u32| #[trigger] more.contains_key(id) ==> !more[id].is_nan() {
        assert forall|id: u32| #[trigger] seen.contains_key(id) implies !seen[id].is_nan() by {
            assert(more.contains_key(id));
            assert(more[id] == seen[id]);
        }
        assert forall|id: u32, i: int|
            0 <= i < t.len() && more.contains_key(id) && !holds(t, id) implies !#[trigger] more[id].below(
            t[i].dist,
        ) by {
            if holds(all, id) {
                let k = choose|k: int| 0 <= k < all.len() && (#[trigger] all[k]).id == id;
                if k < t.len() {
                    assert(t[k] == all[k]);
                }
                assert(all[i].dist.rank() <= all[k].dist.rank());
            } else {
                assert(id != c.id);
                assert(!holds(s, id));
                assert(more[id] == seen[id]);
                assert(s.len() > 0);
                assert(!seen[id].below(s[s.len() - 1].dist));
                assert(all[i].dist.rank() <= s.last().dist.rank()) by {
                    if i < q {
                        assert(all[i] == s[i]);
                    } else if i > q {
                        assert(all[i] == s[i - 1]);
                    }
                }
                assert(more.contains_key(all[i].id));
            }
        }
    }
}

proof fn lemma_best_rejected(seen: Map<u32, Float>, s: Seq<Candidate>, e: u32, d: Float)
    requires
        listed(seen, s),
        ascending(s),
        !seen.contains_key(e),
        best(seen, s),
        s.len() > 0 ==> !d.below(s.last().dist),
    ensures
        listed(seen.insert(e, d), s),
        best(seen.insert(e, d), s),
{
    let more = seen.insert(e, d);
    if forall|id: u32| #[trigger] more.contains_key(id) ==> !more[id].is_nan() {
        assert forall|id: u32| #[trigger] seen.contains_key(id) implies !seen[id].is_nan() by {
            assert(more.contains_key(id));
            assert(more[id] == seen[id]);
        }
        assert(more.contains_key(e));
        assert forall|id: u32, i: int|
            0 <= i < s.len() && more.contains_key(id) && !holds(s, id) implies !#[trigger] more[id].below(
            s[i].dist,
        ) by {
            if id == e {
                assert(s[i].dist.rank() <= s.last().dist.rank());
                assert(more.contains_key(s.last().id));
            } else {
                assert(more[id] == seen[id]);
                assert(!seen[id].below(s[i].dist));
            }
        }
    }
}

proof fn lemma_all_kept(seen: Map<u32, Float>, s: Seq<Candidate>)
    requires
        forall|id: u32| #[trigger] seen.contains_key(id) ==> holds(s, id),
    ensures
        best(seen, s),
{
}

proof fn lemma_count(seen: Map<u32, Float>, s: Seq<Candidate>, ef: nat)
    requires
        seen.dom().finite(),
        listed(seen, s),
        ids(s).no_duplicates(),
        s.len() <= ef,
        s.len() < ef ==> forall|id: u32| #[trigger] seen.contains_key(id) ==> holds(s, id),
    ensures
        s.len() == if ef <= seen.dom().len() {
            ef
        } else {
            seen.dom().len()
        },
{
    ids(s).unique_seq_to_set();
    let set = ids(s).to_set();
    assert forall|id: u32| set.contains(id) implies seen.dom().contains(id) by {
        let k = choose|k: int| 0 <= k < ids(s).len() && ids(s)[k] == id;
        assert(s[k].id == id);
    }
    vstd::set_lib::lemma_len_subset(set, seen.dom());
    if s.len() < ef {
        assert forall|id: u32| seen.dom().contains(id) implies set.contains(id) by {
            let k = choose|k: int| 0 <= k < s.len() && (#[trigger] s[k]).id == id;
            assert(ids(s)[k] == id);
        }
        assert(set =~= seen.dom());
    }
}

/// Inserts `c` behind everything that is not farther, and says where.
fn insert_sorted(v: &mut Vec<Candidate>, c: Candidate) -> (p: usize)
    requires
        ascending(old(v)@),
    ensures
        p <= old(v)@.len(),
        final(v)@ == old(v)@.insert(p as int, c),
        final(v)@ == put(old(v)@, c),
        ascending(final(v)@),
        forall|i: int| 0 <= i < p ==> (#[trigger] old(v)@[i]).dist.rank() <= c.dist.rank(),
        forall|i: int|
            p <= i < old(v)@.len() ==> (#[trigger] old(v)@[i]).dist.rank() > c.dist.rank(),
{
    let rank: i64 = c.dist.total_rank();
    let mut low: usize = 0;
    let mut high: usize = v.len();
    while low < high
        invariant
            low <= high <= v@.len(),
            v@ == old(v)@,
            rank == c.dist.rank(),
            ascending(v@),
            forall|i: int| 0 <= i < low ==> (#[trigger] v@[i]).dist.rank() <= rank,
            forall|i: int| high <= i < v@.len() ==> (#[trigger] v@[i]).dist.rank() > rank,
        decreases high - low,
    {
        let mid: usize = low + (high - low) / 2;
        if v[mid].dist.total_rank() <= rank {
            low = mid + 1;
        } else {
            high = mid;
        }
    }
    proof {
        lemma_put(v@, c, low as int);
    }
    v.insert(low, c);
    low
}

/// `trace` is how a greedy search has come to where it is.
#[verifier::opaque]
spec fn traced(
    adj: Adjacency,
    entry: Seq<u32>,
    ef: nat,
    near: Near,
    trace: Seq<Sweep>,
    frontier: Seq<Candidate>,
    found: Seq<Candidate>,
    seen: Set<u32>,
) -> bool {
    &&& under_way(adj, entry, ef, near, trace)
    &&& trace.last() == Sweep { frontier, found, seen }
}

/// `steps` is how looking at the nodes of a list has come to where it is.
#[verifier::opaque]
spec fn looking(
    near: Near,
    ef: nat,
    start: Sweep,
    list: Seq<u32>,
    steps: Seq<Sweep>,
    frontier: Seq<Candidate>,
    found: Seq<Candidate>,
    seen: Set<u32>,
) -> bool {
    &&& looks(near, ef, start, list, steps)
    &&& steps.last() == Sweep { frontier, found, seen }
}

proof fn lemma_entered(near: Near, entry: Seq<u32>, i: int, dists: Seq<Float>, d: Float)
    requires
        0 <= i < entry.len(),
        entered(near, entry.take(i), dists),
        near(entry[i], d),
    ensures
        entered(near, entry.take(i + 1), dists.push(d)),
        put_all(entry.take(i + 1), dists.push(d)) == put(
            put_all(entry.take(i), dists),
            Candidate { dist: d, id: entry[i] },
        ),
{
    let more = entry.take(i + 1);
    let all = dists.push(d);
    assert forall|j: int| 0 <= j < more.len() implies near(#[trigger] more[j], all[j]) by {
        if j < i {
            assert(entry.take(i)[j] == more[j]);
        }
    }
    assert(more.drop_last() =~= entry.take(i));
    assert(all.drop_last() =~= dists);
    assert(more.last() == entry[i]);
}

proof fn lemma_put_all_len(entry: Seq<u32>, dists: Seq<Float>)
    ensures
        put_all(entry, dists).len() == entry.len(),
    decreases entry.len(),
{
    if entry.len() > 0 {
        lemma_put_all_len(entry.drop_last(), dists.drop_last());
        lemma_put_len(
            put_all(entry.drop_last(), dists.drop_last()),
            Candidate { dist: dists.last(), id: entry.last() },
        );
    }
}

proof fn lemma_put_len(s: Seq<Candidate>, c: Candidate)
    ensures
        put(s, c).len() == s.len() + 1,
    decreases s.len(),
{
    if !(s.len() == 0 || s.last().dist.rank() <= c.dist.rank()) {
        lemma_put_len(s.drop_last(), c);
    }
}

proof fn lemma_traced_start(
    adj: Adjacency,
    entry: Seq<u32>,
    ef: nat,
    near: Near,
    dists: Seq<Float>,
    s: Sweep,
)
    requires
        entered(near, entry, dists),
        s.frontier == put_all(entry, dists),
        s.found == put_all(entry, dists).take(lower(ef, entry.len()) as int),
        s.seen == entry.to_set(),
    ensures
        traced(adj, entry, ef, near, seq![s], s.frontier, s.found, s.seen),
{
    reveal(traced);
    assert(started(near, entry, ef, s));
    assert(seq![s].last() == s);
}

proof fn lemma_traced_step(
    adj: Adjacency,
    entry: Seq<u32>,
    ef: nat,
    near: Near,
    trace: Seq<Sweep>,
    start: Sweep,
    steps: Seq<Sweep>,
    now: Sweep,
)
    requires
        traced(adj, entry, ef, near, trace, start.frontier, start.found, start.seen),
        start.goes_on(),
        looking(
            near,
            ef,
            start.popped(),
            adj(start.frontier[0].id),
            steps,
            now.frontier,
            now.found,
            now.seen,
        ),
    ensures
        traced(adj, entry, ef, near, trace.push(now), now.frontier, now.found, now.seen),
{
    reveal(traced);
    reveal(looking);
    let more = trace.push(now);
    assert(steps.last() == now);
    assert(explores(adj, near, ef, start, now));
    assert forall|i: int| 0 <= i < more.len() - 1 implies (#[trigger] more[i]).goes_on()
        && explores(adj, near, ef, more[i], more[i + 1]) by {
        assert(more[i] == trace[i]);
        if i < trace.len() - 1 {
            assert(more[i + 1] == trace[i + 1]);
        } else {
            assert(more[i] == start);
        }
    }
    assert(more[0] == trace[0]);
}

proof fn lemma_traced_end(
    adj: Adjacency,
    entry: Seq<u32>,
    ef: nat,
    near: Near,
    trace: Seq<Sweep>,
    frontier: Seq<Candidate>,
    found: Seq<Candidate>,
    seen: Set<u32>,
)
    requires
        traced(adj, entry, ef, near, trace, frontier, found, seen),
        !(Sweep { frontier, found, seen }).goes_on(),
    ensures
        greedy(adj, entry, ef, near, found),
{
    reveal(traced);
    reveal(greedy);
    assert(swept(adj, entry, ef, near, trace, found));
}

proof fn lemma_looking_start(near: Near, ef: nat, start: Sweep)
    ensures
        looking(
            near,
            ef,
            start,
            seq![],
            seq![start],
            start.frontier,
            start.found,
            start.seen,
        ),
{
    reveal(looking);
    assert(seq![start].last() == start);
}

proof fn lemma_looking_step(
    near: Near,
    ef: nat,
    start: Sweep,
    list: Seq<u32>,
    steps: Seq<Sweep>,
    before: Sweep,
    e: u32,
    now: Sweep,
)
    requires
        looking(near, ef, start, list, steps, before.frontier, before.found, before.seen),
        looked(near, ef, before, e, now),
    ensures
        looking(
            near,
            ef,
            start,
            list.push(e),
            steps.push(now),
            now.frontier,
            now.found,
            now.seen,
        ),
{
    reveal(looking);
    let more = steps.push(now);
    let longer = list.push(e);
    assert forall|i: int| 0 <= i < longer.len() implies looked(
        near,
        ef,
        more[i],
        #[trigger] longer[i],
        more[i + 1],
    ) by {
        assert(more[i] == steps[i]);
        if i < list.len() {
            assert(longer[i] == list[i]);
            assert(more[i + 1] == steps[i + 1]);
        } else {
            assert(steps[i] == before);
        }
    }
    assert(more.last() == now);
}

/// The level of a node is what `level_of` answers for a fraction strictly between
/// zero and one, numerator first, and the number of neighbours on the upper layers.
pub proof fn law_level_is_drawn_from_a_fraction<L: Fn(u64, u64, usize) -> u8>(
    level_of: L,
    state: u64,
    m: nat,
    level: nat,
)
    requires
        drawn(level_of, crate::vector::rng::unit_of(state), m, level),
    ensures
        exists|a: u64, b: u64, r: u8| #[trigger]
            call_ensures(level_of, (a, b, m as usize), r) && 0 < a < b && level == r && a
                == crate::vector::rng::unit_of(state).numerator,
{
    let unit = crate::vector::rng::unit_of(state);
    crate::vector::rng::law_draws_lie_in_the_open_unit_interval(state);
    let r = choose|r: u8| level == r && #[trigger] call_ensures(
        level_of,
        (unit.numerator, unit.denominator, m as usize),
        r,
    );
    assert(call_ensures(level_of, (unit.numerator, unit.denominator, m as usize), r));
}

} // verus!
