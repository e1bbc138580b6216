//! What the searches of a layered graph return.
//!
//! A layer is an adjacency: the neighbour list of every node. Distances are not
//! computed here but measured, and a measurement is a relation between a node
//! (or a pair of nodes) and the distances that measuring it may give.

use vstd::prelude::*;

use crate::vector::float::{Float, INFINITE};

verus! {

/// A node and its distance to whatever a search is about.
#[derive(Clone, Copy)]
pub struct Candidate {
    pub dist: Float,
    pub id: u32,
}

/// The neighbour list of every node on one layer.
pub type Adjacency = spec_fn(u32) -> Seq<u32>;

/// Which distances measuring a node may give.
pub type Near = spec_fn(u32, Float) -> bool;

/// Which distances measuring a pair of nodes may give.
pub type Between = spec_fn(u32, u32, Float) -> bool;

/// Whether the candidates are in ascending order of distance.
pub open spec fn ascending(s: Seq<Candidate>) -> bool {
    forall|i: int, j: int|
        0 <= i <= j < s.len() ==> (#[trigger] s[i]).dist.rank() <= (#[trigger] s[j]).dist.rank()
}

/// The nodes of a list of candidates.
pub open spec fn ids(s: Seq<Candidate>) -> Seq<u32> {
    s.map_values(|c: Candidate| c.id)
}

/// Whether `path` leads from one of the entry points along neighbour links.
pub open spec fn walk(adj: Adjacency, entry: Seq<u32>, path: Seq<u32>) -> bool {
    &&& path.len() > 0
    &&& entry.contains(path[0])
    &&& forall|i: int| 0 < i < path.len() ==> adj(path[i - 1]).contains(#[trigger] path[i])
}

/// Whether a node can be reached from the entry points.
pub open spec fn reachable(adj: Adjacency, entry: Seq<u32>, id: u32) -> bool {
    exists|path: Seq<u32>| #[trigger] walk(adj, entry, path) && path.last() == id
}

/// Whether `out` is what a greedy search of one layer returns when the nodes it
/// looked at, with the distances it measured, are `seen`:
///
/// * every node looked at is reachable, and every entry point was looked at;
/// * the result holds nodes that were looked at, each once, closest first, and
///   as many of them as there are, up to `ef`;
/// * every neighbour of a node in the result was looked at;
/// * no node that was looked at and left out is closer than one in the result
///   (where every measured distance is a number).
pub open spec fn explored(
    adj: Adjacency,
    entry: Seq<u32>,
    ef: nat,
    near: Near,
    seen: Map<u32, Float>,
    out: Seq<Candidate>,
) -> bool {
    &&& seen.dom().finite()
    &&& forall|id: u32| #[trigger]
        seen.contains_key(id) ==> near(id, seen[id]) && reachable(adj, entry, id)
    &&& forall|i: int| 0 <= i < entry.len() ==> seen.contains_key(#[trigger] entry[i])
    &&& out.len() == lower(ef, seen.dom().len())
    &&& forall|i: int|
        0 <= i < out.len() ==> seen.contains_key((#[trigger] out[i]).id) && seen[out[i].id]
            == out[i].dist
    &&& ids(out).no_duplicates()
    &&& ascending(out)
    &&& forall|i: int, n: u32|
        0 <= i < out.len() && #[trigger] adj(out[i].id).contains(n) ==> seen.contains_key(n)
    &&& (forall|id: u32| #[trigger] seen.contains_key(id) ==> !seen[id].is_nan()) ==> forall|
        id: u32,
        i: int,
    |
        0 <= i < out.len() && seen.contains_key(id) && !ids(out).contains(id)
            ==> !#[trigger] seen[id].below(out[i].dist)
}

/// A candidate put into its place in ascending order, behind those at the same
/// distance.
pub open spec fn put(s: Seq<Candidate>, c: Candidate) -> Seq<Candidate>
    decreases s.len(),
{
    if s.len() == 0 || s.last().dist.rank() <= c.dist.rank() {
        s.push(c)
    } else {
        put(s.drop_last(), c).push(s.last())
    }
}

/// How far a greedy search has come.
#[verifier::ext_equal]
pub struct Sweep {
    /// The nodes that are still to be explored, closest first.
    pub frontier: Seq<Candidate>,
    /// The closest nodes found so far, closest first.
    pub found: Seq<Candidate>,
    /// The nodes that were looked at.
    pub seen: Set<u32>,
}

impl Sweep {
    /// The distance of the farthest node found; infinite if there is none.
    pub open spec fn worst(self) -> Float {
        if self.found.len() > 0 {
            self.found.last().dist
        } else {
            Float { bits: INFINITE }
        }
    }

    /// After looking at a new node: it is kept if it is closer than the farthest
    /// node found or if there are fewer than `ef`, and if there are then more than
    /// `ef`, the farthest is dropped.
    pub open spec fn with(self, c: Candidate, ef: nat) -> Sweep {
        let seen = self.seen.insert(c.id);
        if c.dist.below(self.worst()) || self.found.len() < ef {
            let wide = put(self.found, c);
            Sweep {
                frontier: put(self.frontier, c),
                found: if wide.len() > ef {
                    wide.drop_last()
                } else {
                    wide
                },
                seen,
            }
        } else {
            Sweep { seen, ..self }
        }
    }

    /// Whether there is a node left to explore that is no farther than the
    /// farthest node found.
    pub open spec fn goes_on(self) -> bool {
        self.frontier.len() > 0 && !(self.found.len() > 0 && self.found.last().dist.below(
            self.frontier[0].dist,
        ))
    }

    /// After the closest node has been taken off the frontier.
    pub open spec fn popped(self) -> Sweep {
        Sweep { frontier: self.frontier.drop_first(), ..self }
    }
}

/// Whether looking at a node may turn `before` into `after`. A node is measured
/// when it is first looked at.
pub open spec fn looked(near: Near, ef: nat, before: Sweep, id: u32, after: Sweep) -> bool {
    if before.seen.contains(id) {
        after == before
    } else {
        exists|d: Float| #[trigger]
            near(id, d) && after == before.with(Candidate { dist: d, id }, ef)
    }
}

/// Whether `steps` leads from `before` through looking at the nodes of a list, one
/// after the other.
pub open spec fn looks(
    near: Near,
    ef: nat,
    before: Sweep,
    list: Seq<u32>,
    steps: Seq<Sweep>,
) -> bool {
    &&& steps.len() == list.len() + 1
    &&& steps[0] == before
    &&& forall|i: int|
        0 <= i < list.len() ==> looked(near, ef, steps[i], #[trigger] list[i], steps[i + 1])
}

/// Whether exploring the closest node of the frontier may turn `before` into
/// `after`: it is taken off the frontier, and its neighbours are looked at.
pub open spec fn explores(
    adj: Adjacency,
    near: Near,
    ef: nat,
    before: Sweep,
    after: Sweep,
) -> bool {
    exists|steps: Seq<Sweep>| #[trigger]
        looks(near, ef, before.popped(), adj(before.frontier[0].id), steps) && steps.last()
            == after
}

/// The entry points with their distances, in ascending order.
pub open spec fn put_all(entry: Seq<u32>, dists: Seq<Float>) -> Seq<Candidate>
    decreases entry.len(),
{
    if entry.len() == 0 {
        seq![]
    } else {
        put(
            put_all(entry.drop_last(), dists.drop_last()),
            Candidate { dist: dists.last(), id: entry.last() },
        )
    }
}

/// Whether `dists` may be measured for the entry points.
pub open spec fn entered(near: Near, entry: Seq<u32>, dists: Seq<Float>) -> bool {
    &&& dists.len() == entry.len()
    &&& forall|i: int| 0 <= i < entry.len() ==> near(#[trigger] entry[i], dists[i])
}

/// Whether a greedy search may start at `s`: with every entry point on the
/// frontier, and the closest `ef` of them found.
pub open spec fn started(near: Near, entry: Seq<u32>, ef: nat, s: Sweep) -> bool {
    exists|dists: Seq<Float>| #[trigger]
        entered(near, entry, dists) && s == (Sweep {
            frontier: put_all(entry, dists),
            found: put_all(entry, dists).take(lower(ef, entry.len()) as int),
            seen: entry.to_set(),
        })
}

/// Whether `trace` is how a greedy search may come along, exploring the closest
/// node left at every step.
pub open spec fn under_way(
    adj: Adjacency,
    entry: Seq<u32>,
    ef: nat,
    near: Near,
    trace: Seq<Sweep>,
) -> bool {
    &&& trace.len() > 0
    &&& started(near, entry, ef, trace[0])
    &&& forall|i: int|
        0 <= i < trace.len() - 1 ==> (#[trigger] trace[i]).goes_on() && explores(
            adj,
            near,
            ef,
            trace[i],
            trace[i + 1],
        )
}

/// Whether a greedy search that comes along `trace` ends there with `out`.
pub open spec fn swept(
    adj: Adjacency,
    entry: Seq<u32>,
    ef: nat,
    near: Near,
    trace: Seq<Sweep>,
    out: Seq<Candidate>,
) -> bool {
    &&& under_way(adj, entry, ef, near, trace)
    &&& !trace.last().goes_on()
    &&& out == trace.last().found
}

/// Whether `out` is what a greedy search of one layer may return: the up to `ef`
/// closest nodes that it found, starting from the entry points.
pub open spec fn layer_search(
    adj: Adjacency,
    entry: Seq<u32>,
    ef: nat,
    near: Near,
    out: Seq<Candidate>,
) -> bool {
    &&& greedy(adj, entry, ef, near, out)
    &&& exists|seen: Map<u32, Float>| #[trigger] explored(adj, entry, ef, near, seen, out)
}

/// Whether a greedy search may end with `out`.
#[verifier::opaque]
pub open spec fn greedy(
    adj: Adjacency,
    entry: Seq<u32>,
    ef: nat,
    near: Near,
    out: Seq<Candidate>,
) -> bool {
    exists|trace: Seq<Sweep>| #[trigger] swept(adj, entry, ef, near, trace, out)
}

/// Whether following the single nearest node from layer `top` down to just above
/// layer `bottom` may lead from `from` to `to`. `adj` gives each layer.
pub open spec fn descends(
    adj: spec_fn(int) -> Adjacency,
    near: Near,
    from: u32,
    top: nat,
    bottom: nat,
    to: u32,
) -> bool
    decreases top,
{
    if top <= bottom {
        from == to
    } else {
        exists|w: Seq<Candidate>| #[trigger]
            layer_search(adj(top as int), seq![from], 1, near, w) && w.len() == 1 && descends(
                adj,
                near,
                w[0].id,
                (top - 1) as nat,
                bottom,
                to,
            )
    }
}

/// The nodes among the first `keep.len()` of `s` whose mark is `which`, in order.
pub open spec fn marked(s: Seq<Candidate>, keep: Seq<bool>, which: bool) -> Seq<u32>
    decreases keep.len(),
{
    if keep.len() == 0 {
        seq![]
    } else {
        let rest = marked(s, keep.drop_last(), which);
        if keep.last() == which {
            rest.push(s[keep.len() - 1].id)
        } else {
            rest
        }
    }
}

/// Whether `a` is farther from `b` than from the base, as one measurement tells.
pub open spec fn apart(between: Between, a: Candidate, b: Candidate) -> bool {
    exists|d: Float| #[trigger] between(a.id, b.id, d) && a.dist.below(d)
}

/// Whether `a` is no farther from `b` than from the base, as one measurement
/// tells.
pub open spec fn shadowed(between: Between, a: Candidate, b: Candidate) -> bool {
    exists|d: Float| #[trigger] between(a.id, b.id, d) && !a.dist.below(d)
}

/// Whether `keep` marks the candidates of `s`, closest first, that the
/// neighbour-selection heuristic keeps: one is kept if it is closer to the base
/// than to every candidate kept before it, until `m` are kept.
pub open spec fn heuristic(s: Seq<Candidate>, m: nat, between: Between, keep: Seq<bool>) -> bool {
    &&& keep.len() <= s.len()
    &&& keep.len() < s.len() ==> marked(s, keep, true).len() >= m
    &&& forall|i: int| 0 <= i < keep.len() ==> marked(s, #[trigger] keep.take(i), true).len() < m
    &&& forall|i: int, j: int|
        0 <= j < i < keep.len() && #[trigger] keep[i] && #[trigger] keep[j] ==> apart(
            between,
            s[i],
            s[j],
        )
    &&& forall|i: int|
        0 <= i < keep.len() && !#[trigger] keep[i] ==> exists|j: int|
            0 <= j < i && #[trigger] keep[j] && shadowed(between, s[i], s[j])
}

/// Whether `out` is the selection of up to `m` neighbours from `s`, closest
/// first: what the heuristic keeps, and then what it discarded, to fill up.
pub open spec fn selection(s: Seq<Candidate>, m: nat, between: Between, out: Seq<u32>) -> bool {
    exists|keep: Seq<bool>| #[trigger]
        heuristic(s, m, between, keep) && out == filled(
            marked(s, keep, true),
            marked(s, keep, false),
            m,
        )
}

/// `first`, and then as much of `second` as is missing to `m`.
pub open spec fn filled(first: Seq<u32>, second: Seq<u32>, m: nat) -> Seq<u32> {
    let missing = m - first.len();
    if missing <= 0 {
        first
    } else if missing >= second.len() {
        first + second
    } else {
        first + second.take(missing)
    }
}

/// Whether `s` holds the candidates of `c` in ascending order of distance, those
/// at equal distance in the order that they have in `c`. `from[i]` is the place
/// in `c` of `s[i]`.
pub open spec fn sorted_by(c: Seq<Candidate>, s: Seq<Candidate>, from: Seq<int>) -> bool {
    &&& s.len() == c.len()
    &&& from.len() == c.len()
    &&& from.no_duplicates()
    &&& forall|i: int|
        0 <= i < s.len() ==> 0 <= #[trigger] from[i] < c.len() && s[i] == c[from[i]]
    &&& forall|i: int, j: int|
        0 <= i < j < s.len() ==> (#[trigger] s[i]).dist.rank() < (#[trigger] s[j]).dist.rank() || (
        s[i].dist.rank() == s[j].dist.rank() && from[i] < from[j])
}

/// Whether `s` is the stable ascending sort of `c`.
pub open spec fn stably_sorted(c: Seq<Candidate>, s: Seq<Candidate>) -> bool {
    exists|from: Seq<int>| #[trigger] sorted_by(c, s, from)
}

/// Whether `out` is the selection of up to `m` neighbours from candidates in any
/// order.
pub open spec fn selected(c: Seq<Candidate>, m: nat, between: Between, out: Seq<u32>) -> bool {
    exists|s: Seq<Candidate>| #[trigger] stably_sorted(c, s) && selection(s, m, between, out)
}

/// The nodes of a graph: for each its layers, for each of those its neighbours.
pub type Nodes = Seq<Seq<Seq<u32>>>;

/// The neighbours of `id` at `layer`; none if `id` does not reach that layer.
pub open spec fn links(nodes: Nodes, id: int, layer: int) -> Seq<u32> {
    if 0 <= id < nodes.len() && 0 <= layer < nodes[id].len() {
        nodes[id][layer]
    } else {
        seq![]
    }
}

/// One layer of a graph.
pub open spec fn layer_of(nodes: Nodes, layer: int) -> Adjacency {
    |id: u32| links(nodes, id as int, layer)
}

/// All layers of a graph.
pub open spec fn layers_of(nodes: Nodes) -> spec_fn(int) -> Adjacency {
    |layer: int| layer_of(nodes, layer)
}

/// A layered graph, with what governs its growth.
#[verifier::ext_equal]
pub struct Graph {
    /// The largest number of neighbours of a node on a layer above the lowest.
    pub m: nat,
    /// How many candidates an insertion looks for on each layer.
    pub ef_construction: nat,
    /// The state of the generator that node levels are drawn from.
    pub rng: u64,
    /// Where searches start.
    pub entry: Option<u32>,
    /// The highest layer.
    pub max_level: nat,
    pub nodes: Nodes,
}

impl Graph {
    /// The largest number of neighbours of a node at a layer. The lowest layer
    /// is twice as dense as the others.
    pub open spec fn degree(self, layer: int) -> nat {
        if layer == 0 {
            2 * self.m
        } else {
            self.m
        }
    }

    /// The neighbour list of `x` at a layer is in order: no node twice, not `x`
    /// itself, only nodes that reach the layer, and not too many.
    pub open spec fn tidy(self, x: int, layer: int) -> bool {
        let list = links(self.nodes, x, layer);
        &&& list.no_duplicates()
        &&& list.len() <= self.degree(layer)
        &&& forall|k: int|
            0 <= k < list.len() ==> self.reaches(#[trigger] list[k], layer) && list[k] != x
    }

    /// Whether `id` is a node of the graph that is present on a layer.
    pub open spec fn reaches(self, id: u32, layer: int) -> bool {
        id < self.nodes.len() && layer < self.nodes[id as int].len()
    }

    /// The graph is in order: searches start at a node on the highest layer,
    /// every node is on the lowest layer, and every neighbour list is tidy.
    pub open spec fn wf(self) -> bool {
        &&& self.nodes.len() <= 0x1_0000_0000
        &&& self.entry is None <==> self.nodes.len() == 0
        &&& self.entry matches Some(e) ==> self.reaches(e, self.max_level as int)
        &&& forall|x: int|
            0 <= x < self.nodes.len() ==> 1 <= (#[trigger] self.nodes[x]).len() <= self.max_level
                + 1
        &&& self.all_tidy()
    }

    /// Every neighbour list is tidy.
    pub open spec fn all_tidy(self) -> bool {
        forall|x: int, layer: int| #[trigger] self.tidy(x, layer)
    }
}

/// Whether `out` is what a search of the whole graph may return: nothing if
/// nothing is asked for or there is nothing, else what a search of the lowest
/// layer returns from where following the nearest node through the layers above
/// has led.
pub open spec fn graph_search(g: Graph, near: Near, k: nat, ef: nat, out: Seq<Candidate>) -> bool {
    if k == 0 || g.entry is None {
        out.len() == 0
    } else {
        exists|first: u32| #[trigger]
            descends(layers_of(g.nodes), near, g.entry->0, g.max_level, 0, first) && layer_search(
                layer_of(g.nodes, 0),
                seq![first],
                upper(ef, k),
                near,
                out,
            )
    }
}

/// The distances from one node, as measured between pairs.
pub open spec fn from_node(between: Between, id: u32) -> Near {
    |x: u32, d: Float| between(id, x, d)
}

/// Whether `new` is the neighbour list of `base` once `id` has been added to its
/// list `old`. If there are then more than `m`, the heuristic selects among them.
pub open spec fn relinked(
    old: Seq<u32>,
    new: Seq<u32>,
    base: u32,
    id: u32,
    m: nat,
    between: Between,
) -> bool {
    if old.len() < m {
        new == old.push(id)
    } else {
        exists|c: Seq<Candidate>|
            ids(c) == old.push(id) && (forall|i: int|
                0 <= i < c.len() ==> between(base, (#[trigger] c[i]).id, c[i].dist))
                && #[trigger] selected(c, m, between, new)
    }
}

/// Whether node `id` has been linked at a layer with the nodes in `chosen`, and
/// they with it, and nothing else has changed on that layer.
pub open spec fn linked(
    before: Nodes,
    after: Nodes,
    id: u32,
    layer: int,
    m: nat,
    chosen: Seq<u32>,
    between: Between,
) -> bool {
    &&& links(after, id as int, layer) == chosen
    &&& forall|x: u32| #[trigger]
        chosen.contains(x) ==> relinked(
            links(before, x as int, layer),
            links(after, x as int, layer),
            x,
            id,
            m,
            between,
        )
    &&& forall|x: u32|
        x != id && !chosen.contains(x) ==> #[trigger] links(after, x as int, layer) == links(
            before,
            x as int,
            layer,
        )
}

/// Where the search of a layer starts during an insertion: at `first` on the
/// topmost layer that is searched, below it at what the layer above gave.
pub open spec fn starts(
    first: u32,
    found: Map<int, Seq<Candidate>>,
    top: int,
    layer: int,
) -> Seq<u32> {
    if layer == top {
        seq![first]
    } else {
        ids(found[layer + 1])
    }
}

/// Whether node `id` has been linked on the layers up to `top`: on each with
/// nodes selected among those in `found`, which a search of the layer gave.
pub open spec fn built(
    before: Graph,
    after: Graph,
    id: u32,
    top: int,
    between: Between,
    first: u32,
    found: Map<int, Seq<Candidate>>,
) -> bool {
    &&& descends(
        layers_of(before.nodes),
        from_node(between, id),
        before.entry->0,
        before.max_level,
        top as nat,
        first,
    )
    &&& forall|layer: int|
        0 <= layer <= top ==> layer_search(
            layer_of(before.nodes, layer),
            starts(first, found, top, layer),
            before.ef_construction,
            from_node(between, id),
            #[trigger] found[layer],
        )
    &&& forall|layer: int|
        0 <= layer <= top ==> layer_built(
            before,
            after.nodes,
            id,
            layer,
            between,
            #[trigger] found[layer],
        )
}

/// Whether node `id` has been linked at a layer with nodes selected among `w`.
pub open spec fn layer_built(
    before: Graph,
    after: Nodes,
    id: u32,
    layer: int,
    between: Between,
    w: Seq<Candidate>,
) -> bool {
    exists|chosen: Seq<u32>| #[trigger]
        selected(w, before.degree(layer), between, chosen) && linked(
            before.nodes,
            after,
            id,
            layer,
            before.degree(layer),
            chosen,
            between,
        )
}

/// The smaller of two numbers.
pub open spec fn lower(a: nat, b: nat) -> nat {
    if a <= b {
        a
    } else {
        b
    }
}

/// The larger of two numbers.
pub open spec fn upper(a: nat, b: nat) -> nat {
    if a <= b {
        b
    } else {
        a
    }
}

/// Whether `after` is the graph `before` with node `id` inserted, present on the
/// layers up to `level`. `between` gives the distances between nodes.
pub open spec fn inserted(
    before: Graph,
    after: Graph,
    id: u32,
    level: nat,
    between: Between,
) -> bool {
    let top = lower(level, before.max_level) as int;
    &&& after.m == before.m
    &&& after.ef_construction == before.ef_construction
    &&& id == before.nodes.len()
    &&& after.nodes.len() == before.nodes.len() + 1
    &&& after.nodes[id as int].len() == level + 1
    &&& forall|x: int|
        0 <= x < id ==> (#[trigger] after.nodes[x]).len() == before.nodes[x].len()
    &&& if before.entry is None {
        &&& forall|layer: int| #[trigger] links(after.nodes, id as int, layer) == Seq::<u32>::empty()
        &&& after.entry == Some(id)
        &&& after.max_level == level
    } else {
        &&& exists|first: u32, found: Map<int, Seq<Candidate>>| #[trigger]
            built(before, after, id, top, between, first, found)
        &&& forall|x: int, layer: int|
            layer > top ==> #[trigger] links(after.nodes, x, layer) == links(before.nodes, x, layer)
        &&& if level > before.max_level {
            after.entry == Some(id) && after.max_level == level
        } else {
            after.entry == before.entry && after.max_level == before.max_level
        }
    }
}

/// What a search of one layer returns: each node once, at most `ef`, each of
/// them reachable from where it started, and at least one if it started anywhere
/// and one was asked for.
pub proof fn law_layer_search_returns_reachable_nodes(
    adj: Adjacency,
    entry: Seq<u32>,
    ef: nat,
    near: Near,
    out: Seq<Candidate>,
)
    requires
        layer_search(adj, entry, ef, near, out),
    ensures
        ids(out).no_duplicates(),
        ascending(out),
        out.len() <= ef,
        entry.len() > 0 && ef > 0 ==> out.len() > 0,
        forall|i: int|
            0 <= i < out.len() ==> reachable(adj, entry, (#[trigger] out[i]).id) && near(
                out[i].id,
                out[i].dist,
            ),
{
    let seen = choose|seen: Map<u32, Float>| #[trigger] explored(adj, entry, ef, near, seen, out);
    if entry.len() > 0 && ef > 0 {
        assert(seen.contains_key(entry[0]));
        if seen.dom().len() == 0 {
            assert(seen.dom() =~= Set::empty());
        }
    }
}

/// A search that returns fewer nodes than it may has found every node that can
/// be reached from where it started.
pub proof fn law_short_layer_search_is_exhaustive(
    adj: Adjacency,
    entry: Seq<u32>,
    ef: nat,
    near: Near,
    out: Seq<Candidate>,
    id: u32,
)
    requires
        layer_search(adj, entry, ef, near, out),
        out.len() < ef,
        reachable(adj, entry, id),
    ensures
        ids(out).contains(id),
{
    let seen = choose|seen: Map<u32, Float>| #[trigger] explored(adj, entry, ef, near, seen, out);
    let set = ids(out).to_set();
    ids(out).unique_seq_to_set();
    assert forall|x: u32| set.contains(x) implies seen.dom().contains(x) by {
        let k = choose|k: int| 0 <= k < ids(out).len() && ids(out)[k] == x;
        assert(out[k].id == x);
    }
    vstd::set_lib::lemma_subset_equality(set, seen.dom());
    let path = choose|path: Seq<u32>| #[trigger] walk(adj, entry, path) && path.last() == id;
    lemma_walk_stays(adj, entry, seen, out, path, path.len() - 1);
}

proof fn lemma_walk_stays(
    adj: Adjacency,
    entry: Seq<u32>,
    seen: Map<u32, Float>,
    out: Seq<Candidate>,
    path: Seq<u32>,
    i: int,
)
    requires
        walk(adj, entry, path),
        ids(out).to_set() == seen.dom(),
        forall|i: int| 0 <= i < entry.len() ==> seen.contains_key(#[trigger] entry[i]),
        forall|i: int, n: u32|
            0 <= i < out.len() && #[trigger] adj(out[i].id).contains(n) ==> seen.contains_key(n),
        0 <= i < path.len(),
    ensures
        ids(out).contains(path[i]),
    decreases i,
{
    if i == 0 {
        let k = choose|k: int| 0 <= k < entry.len() && entry[k] == path[0];
        assert(seen.contains_key(entry[k]));
        assert(ids(out).to_set().contains(path[0]));
    } else {
        lemma_walk_stays(adj, entry, seen, out, path, i - 1);
        let k = choose|k: int| 0 <= k < ids(out).len() && ids(out)[k] == path[i - 1];
        assert(out[k].id == path[i - 1]);
        assert(adj(path[i - 1]).contains(path[i]));
        assert(seen.contains_key(path[i]));
        assert(ids(out).to_set().contains(path[i]));
    }
}

/// A selection holds nodes of the candidates, each once if the candidates are
/// distinct, and as many as there are up to `m`.
pub proof fn law_selection_is_full(c: Seq<Candidate>, m: nat, between: Between, out: Seq<u32>)
    requires
        selected(c, m, between, out),
    ensures
        out.len() == lower(m, c.len()),
        forall|i: int| 0 <= i < out.len() ==> ids(c).contains(#[trigger] out[i]),
        ids(c).no_duplicates() ==> out.no_duplicates(),
{
    let s = choose|s: Seq<Candidate>| #[trigger]
        stably_sorted(c, s) && selection(s, m, between, out);
    let from = choose|from: Seq<int>| #[trigger] sorted_by(c, s, from);
    let keep = choose|keep: Seq<bool>| #[trigger]
        heuristic(s, m, between, keep) && out == filled(
            marked(s, keep, true),
            marked(s, keep, false),
            m,
        );
    let a = marked(s, keep, true);
    let b = marked(s, keep, false);
    lemma_marked_count(s, keep);
    lemma_marked(s, keep, true);
    lemma_marked(s, keep, false);
    if keep.len() > 0 {
        assert(keep.take(keep.len() - 1) =~= keep.drop_last());
        assert(marked(s, keep.take(keep.len() - 1), true).len() < m);
    }
    assert forall|i: int| 0 <= i < out.len() implies ids(c).contains(#[trigger] out[i]) by {
        let which = i < a.len();
        assert(bears(s, keep, which, out[i])) by {
            if which {
                assert(a[i] == out[i]);
            } else {
                assert(b[i - a.len()] == out[i]);
            }
        }
        let at = choose|at: int|
            0 <= at < keep.len() && #[trigger] keep[at] == which && s[at].id == out[i];
        assert(0 <= from[at] < c.len());
        assert(s[at] == c[from[at]]);
        assert(ids(c)[from[at]] == out[i]);
    }
    if ids(c).no_duplicates() {
        assert forall|i: int, j: int| 0 <= i < s.len() && 0 <= j < s.len() && i != j implies s[i].id
            != s[j].id by {
            assert(from[i] != from[j]);
            assert(ids(c)[from[i]] != ids(c)[from[j]]);
        }
        lemma_marked_distinct(s, keep);
        assert forall|i: int, j: int|
            0 <= i < out.len() && 0 <= j < out.len() && i != j implies out[i] != out[j] by {
            if i < a.len() && j < a.len() {
                assert(a[i] != a[j]);
            } else if i >= a.len() && j >= a.len() {
                assert(b[i - a.len()] != b[j - a.len()]);
            } else if i < a.len() {
                assert(a[i] != b[j - a.len()]);
            } else {
                assert(a[j] != b[i - a.len()]);
            }
        }
    }
}

/// Some candidate of `s` with mark `which` has node `id`.
spec fn bears(s: Seq<Candidate>, keep: Seq<bool>, which: bool, id: u32) -> bool {
    exists|at: int| 0 <= at < keep.len() && #[trigger] keep[at] == which && s[at].id == id
}

proof fn lemma_marked_count(s: Seq<Candidate>, keep: Seq<bool>)
    ensures
        marked(s, keep, true).len() + marked(s, keep, false).len() == keep.len(),
    decreases keep.len(),
{
    if keep.len() > 0 {
        lemma_marked_count(s, keep.drop_last());
    }
}

proof fn lemma_marked(s: Seq<Candidate>, keep: Seq<bool>, which: bool)
    requires
        keep.len() <= s.len(),
    ensures
        forall|i: int|
            0 <= i < marked(s, keep, which).len() ==> bears(
                s,
                keep,
                which,
                #[trigger] marked(s, keep, which)[i],
            ),
    decreases keep.len(),
{
    if keep.len() > 0 {
        let less = keep.drop_last();
        let rest = marked(s, less, which);
        lemma_marked(s, less, which);
        assert forall|i: int| 0 <= i < marked(s, keep, which).len() implies bears(
            s,
            keep,
            which,
            #[trigger] marked(s, keep, which)[i],
        ) by {
            let id = marked(s, keep, which)[i];
            if i < rest.len() {
                assert(rest[i] == id);
                assert(bears(s, less, which, id));
                let at = choose|at: int|
                    0 <= at < less.len() && #[trigger] less[at] == which && s[at].id == id;
                assert(keep[at] == which);
            } else {
                assert(keep[keep.len() - 1] == which);
            }
        }
    }
}

proof fn lemma_marked_distinct(s: Seq<Candidate>, keep: Seq<bool>)
    requires
        keep.len() <= s.len(),
        forall|i: int, j: int|
            0 <= i < s.len() && 0 <= j < s.len() && i != j ==> s[i].id != s[j].id,
    ensures
        marked(s, keep, true).no_duplicates(),
        marked(s, keep, false).no_duplicates(),
        forall|i: int, j: int|
            0 <= i < marked(s, keep, true).len() && 0 <= j < marked(s, keep, false).len()
                ==> marked(s, keep, true)[i] != marked(s, keep, false)[j],
    decreases keep.len(),
{
    if keep.len() > 0 {
        let less = keep.drop_last();
        lemma_marked_distinct(s, less);
        lemma_marked(s, less, true);
        lemma_marked(s, less, false);
        let last = s[keep.len() - 1].id;
        assert forall|i: int| 0 <= i < marked(s, less, true).len() implies marked(s, less, true)[i]
            != last by {
            assert(bears(s, less, true, marked(s, less, true)[i]));
        }
        assert forall|i: int| 0 <= i < marked(s, less, false).len() implies marked(s, less, false)[i]
            != last by {
            assert(bears(s, less, false, marked(s, less, false)[i]));
        }
    }
}

/// What a search may return is still what it may return where measuring a node
/// may give more.
pub proof fn lemma_layer_search_more(
    adj: Adjacency,
    entry: Seq<u32>,
    ef: nat,
    near: Near,
    more: Near,
    out: Seq<Candidate>,
)
    requires
        layer_search(adj, entry, ef, near, out),
        forall|x: u32, d: Float| #[trigger] near(x, d) ==> more(x, d),
    ensures
        layer_search(adj, entry, ef, more, out),
{
    let seen = choose|seen: Map<u32, Float>| #[trigger] explored(adj, entry, ef, near, seen, out);
    assert(explored(adj, entry, ef, more, seen, out));
    reveal(greedy);
    let trace = choose|trace: Seq<Sweep>| #[trigger] swept(adj, entry, ef, near, trace, out);
    assert(started(more, entry, ef, trace[0])) by {
        let dists = choose|dists: Seq<Float>| #[trigger]
            entered(near, entry, dists) && trace[0] == (Sweep {
                frontier: put_all(entry, dists),
                found: put_all(entry, dists).take(lower(ef, entry.len()) as int),
                seen: entry.to_set(),
            });
        assert(entered(more, entry, dists));
    }
    assert forall|i: int| 0 <= i < trace.len() - 1 implies (#[trigger] trace[i]).goes_on()
        && explores(adj, more, ef, trace[i], trace[i + 1]) by {
        assert(explores(adj, near, ef, trace[i], trace[i + 1]));
        let list = adj(trace[i].frontier[0].id);
        let steps = choose|steps: Seq<Sweep>| #[trigger]
            looks(near, ef, trace[i].popped(), list, steps) && steps.last() == trace[i + 1];
        assert(looks(more, ef, trace[i].popped(), list, steps)) by {
            assert forall|j: int| 0 <= j < list.len() implies looked(
                more,
                ef,
                steps[j],
                #[trigger] list[j],
                steps[j + 1],
            ) by {
                assert(looked(near, ef, steps[j], list[j], steps[j + 1]));
            }
        }
    }
    assert(swept(adj, entry, ef, more, trace, out));
}

/// Where a descent may lead is still where it may lead where measuring a node may
/// give more.
pub proof fn lemma_descends_more(
    adj: spec_fn(int) -> Adjacency,
    near: Near,
    more: Near,
    from: u32,
    top: nat,
    bottom: nat,
    to: u32,
)
    requires
        descends(adj, near, from, top, bottom, to),
        forall|x: u32, d: Float| #[trigger] near(x, d) ==> more(x, d),
    ensures
        descends(adj, more, from, top, bottom, to),
    decreases top,
{
    if top > bottom {
        let w = choose|w: Seq<Candidate>| #[trigger]
            layer_search(adj(top as int), seq![from], 1, near, w) && w.len() == 1 && descends(
                adj,
                near,
                w[0].id,
                (top - 1) as nat,
                bottom,
                to,
            );
        lemma_layer_search_more(adj(top as int), seq![from], 1, near, more, w);
        lemma_descends_more(adj, near, more, w[0].id, (top - 1) as nat, bottom, to);
    }
}

/// Where a descent leads is present on the layer that it leads to.
pub proof fn lemma_descends_reaches(
    g: Graph,
    near: Near,
    from: u32,
    top: nat,
    bottom: nat,
    to: u32,
)
    requires
        g.all_tidy(),
        bottom <= top,
        g.reaches(from, top as int),
        descends(layers_of(g.nodes), near, from, top, bottom, to),
    ensures
        g.reaches(to, bottom as int),
    decreases top,
{
    if top > bottom {
        let adjs = layers_of(g.nodes);
        let w = choose|w: Seq<Candidate>| #[trigger]
            layer_search(adjs(top as int), seq![from], 1, near, w) && w.len() == 1 && descends(
                adjs,
                near,
                w[0].id,
                (top - 1) as nat,
                bottom,
                to,
            );
        law_layer_search_returns_reachable_nodes(adjs(top as int), seq![from], 1, near, w);
        assert(adjs(top as int) == layer_of(g.nodes, top as int));
        lemma_reachable_reaches(g, top as int, seq![from], w[0].id);
        lemma_descends_reaches(g, near, w[0].id, (top - 1) as nat, bottom, to);
    }
}

/// What can be reached on a layer from nodes present on it is present on it.
pub proof fn lemma_reachable_reaches(g: Graph, layer: int, entry: Seq<u32>, id: u32)
    requires
        g.all_tidy(),
        forall|i: int| 0 <= i < entry.len() ==> g.reaches(#[trigger] entry[i], layer),
        reachable(layer_of(g.nodes, layer), entry, id),
    ensures
        g.reaches(id, layer),
{
    let adj = layer_of(g.nodes, layer);
    let path = choose|path: Seq<u32>| #[trigger] walk(adj, entry, path) && path.last() == id;
    if path.len() == 1 {
        let k = choose|k: int| 0 <= k < entry.len() && entry[k] == path[0];
        assert(g.reaches(entry[k], layer));
    } else {
        let prev = path[path.len() - 2];
        assert(adj(prev).contains(path[path.len() - 1]));
        let list = links(g.nodes, prev as int, layer);
        assert(adj(prev) == list);
        let k = choose|k: int| 0 <= k < list.len() && list[k] == id;
        assert(g.tidy(prev as int, layer));
        assert(g.reaches(list[k], layer));
    }
}

/// What a search of the whole graph returns: nodes of the graph, each once,
/// closest first, with distances that measuring them may give.
pub proof fn law_graph_search_returns_nodes(
    g: Graph,
    near: Near,
    k: nat,
    ef: nat,
    out: Seq<Candidate>,
)
    requires
        g.wf(),
        graph_search(g, near, k, ef, out),
    ensures
        ids(out).no_duplicates(),
        ascending(out),
        out.len() <= upper(ef, k),
        out.len() == 0 <==> k == 0 || g.nodes.len() == 0,
        forall|i: int|
            0 <= i < out.len() ==> (#[trigger] out[i]).id < g.nodes.len() && near(
                out[i].id,
                out[i].dist,
            ),
{
    if k > 0 && g.entry is Some {
        let first = choose|first: u32| #[trigger]
            descends(layers_of(g.nodes), near, g.entry->0, g.max_level, 0, first) && layer_search(
                layer_of(g.nodes, 0),
                seq![first],
                upper(ef, k),
                near,
                out,
            );
        lemma_descends_reaches(g, near, g.entry->0, g.max_level, 0, first);
        law_layer_search_returns_reachable_nodes(
            layer_of(g.nodes, 0),
            seq![first],
            upper(ef, k),
            near,
            out,
        );
        assert forall|i: int| 0 <= i < out.len() implies (#[trigger] out[i]).id < g.nodes.len()
            && near(out[i].id, out[i].dist) by {
            lemma_reachable_reaches(g, 0, seq![first], out[i].id);
        }
    }
}

/// Whether every node can be reached from every other on the lowest layer.
pub open spec fn connected(g: Graph) -> bool {
    forall|a: u32, b: u32|
        a < g.nodes.len() && b < g.nodes.len() ==> #[trigger] reachable(
            layer_of(g.nodes, 0),
            seq![a],
            b,
        )
}

/// Whether every node is a neighbour of every other on the lowest layer.
#[verifier::opaque]
pub open spec fn complete(g: Graph) -> bool {
    forall|a: u32, b: u32|
        a < g.nodes.len() && b < g.nodes.len() && a != b ==> #[trigger] links(
            g.nodes,
            a as int,
            0,
        ).contains(b)
}

/// Where every node is a neighbour of every other, every node can be reached from
/// every other.
pub proof fn law_complete_layer_is_connected(g: Graph)
    requires
        complete(g),
    ensures
        connected(g),
{
    reveal(complete);
    let adj = layer_of(g.nodes, 0);
    assert forall|a: u32, b: u32|
        a < g.nodes.len() && b < g.nodes.len() implies #[trigger] reachable(adj, seq![a], b) by {
        let path = if a == b {
            seq![a]
        } else {
            seq![a, b]
        };
        assert(seq![a].contains(path[0])) by {
            assert(seq![a][0] == a);
        }
        if a != b {
            assert(links(g.nodes, a as int, 0).contains(b));
            assert(adj(a).contains(b));
        }
        assert(walk(adj, seq![a], path));
    }
}

/// A search of the lowest layer that is as wide as the graph is large finds every
/// node, if that layer is connected.
proof fn lemma_wide_layer_search(
    g: Graph,
    near: Near,
    start: Seq<u32>,
    ef: nat,
    out: Seq<Candidate>,
    id: u32,
)
    requires
        g.wf(),
        connected(g),
        layer_search(layer_of(g.nodes, 0), start, ef, near, out),
        start.len() > 0,
        forall|i: int| 0 <= i < start.len() ==> g.reaches(#[trigger] start[i], 0),
        ef >= g.nodes.len(),
        id < g.nodes.len(),
    ensures
        ids(out).contains(id),
        out.len() == g.nodes.len(),
        ids(out).no_duplicates(),
{
    let adj = layer_of(g.nodes, 0);
    let n = g.nodes.len();
    law_layer_search_returns_reachable_nodes(adj, start, ef, near, out);
    assert forall|i: int| 0 <= i < ids(out).len() implies #[trigger] ids(out)[i] < n by {
        assert(reachable(adj, start, out[i].id));
        lemma_reachable_reaches(g, 0, start, out[i].id);
    }
    lemma_distinct_below(ids(out), n);
    if out.len() < n {
        assert forall|x: u32| x < n implies #[trigger] ids(out).contains(x) by {
            assert(g.reaches(start[0], 0));
            assert(reachable(adj, seq![start[0]], x));
            lemma_reachable_from_more(adj, start, x);
            law_short_layer_search_is_exhaustive(adj, start, ef, near, out, x);
        }
        lemma_all_below(ids(out), n);
    }
    lemma_distinct_fill(ids(out), n, id);
}

/// What can be reached from the first of several nodes can be reached from them.
proof fn lemma_reachable_from_more(adj: Adjacency, start: Seq<u32>, id: u32)
    requires
        start.len() > 0,
        reachable(adj, seq![start[0]], id),
    ensures
        reachable(adj, start, id),
{
    let path = choose|path: Seq<u32>| #[trigger]
        walk(adj, seq![start[0]], path) && path.last() == id;
    let k = choose|k: int| 0 <= k < seq![start[0]].len() && seq![start[0]][k] == path[0];
    assert(path[0] == start[0]);
    assert(walk(adj, start, path));
}

/// A search that is as wide as the graph is large finds every node, if the lowest
/// layer is connected.
pub proof fn law_wide_graph_search_is_exhaustive(
    g: Graph,
    near: Near,
    k: nat,
    ef: nat,
    out: Seq<Candidate>,
    id: u32,
)
    requires
        g.wf(),
        graph_search(g, near, k, ef, out),
        connected(g),
        k > 0,
        upper(ef, k) >= g.nodes.len(),
        id < g.nodes.len(),
    ensures
        ids(out).contains(id),
{
    let first = choose|first: u32| #[trigger]
        descends(layers_of(g.nodes), near, g.entry->0, g.max_level, 0, first) && layer_search(
            layer_of(g.nodes, 0),
            seq![first],
            upper(ef, k),
            near,
            out,
        );
    lemma_descends_reaches(g, near, g.entry->0, g.max_level, 0, first);
    lemma_wide_layer_search(g, near, seq![first], upper(ef, k), out, id);
}

/// A search of the lowest layer finds as many nodes as it is wide, or all if there
/// are fewer, if that layer is connected.
proof fn lemma_full_layer_search(
    g: Graph,
    near: Near,
    start: Seq<u32>,
    ef: nat,
    out: Seq<Candidate>,
)
    requires
        g.wf(),
        connected(g),
        layer_search(layer_of(g.nodes, 0), start, ef, near, out),
        start.len() > 0,
        forall|i: int| 0 <= i < start.len() ==> g.reaches(#[trigger] start[i], 0),
    ensures
        out.len() == lower(ef, g.nodes.len()),
{
    let adj = layer_of(g.nodes, 0);
    let n = g.nodes.len();
    law_layer_search_returns_reachable_nodes(adj, start, ef, near, out);
    assert forall|i: int| 0 <= i < ids(out).len() implies #[trigger] ids(out)[i] < n by {
        assert(reachable(adj, start, out[i].id));
        lemma_reachable_reaches(g, 0, start, out[i].id);
    }
    lemma_distinct_below(ids(out), n);
    if out.len() < ef {
        assert forall|x: u32| x < n implies #[trigger] ids(out).contains(x) by {
            assert(g.reaches(start[0], 0));
            assert(reachable(adj, seq![start[0]], x));
            lemma_reachable_from_more(adj, start, x);
            law_short_layer_search_is_exhaustive(adj, start, ef, near, out, x);
        }
        lemma_all_below(ids(out), n);
    }
}

/// A search finds as many nodes as it is wide, or all if there are fewer, if the
/// lowest layer is connected.
pub proof fn law_connected_graph_search_is_full(
    g: Graph,
    near: Near,
    k: nat,
    ef: nat,
    out: Seq<Candidate>,
)
    requires
        g.wf(),
        graph_search(g, near, k, ef, out),
        connected(g),
        k > 0,
    ensures
        out.len() == lower(upper(ef, k), g.nodes.len()),
{
    if g.entry is Some {
        let first = choose|first: u32| #[trigger]
            descends(layers_of(g.nodes), near, g.entry->0, g.max_level, 0, first) && layer_search(
                layer_of(g.nodes, 0),
                seq![first],
                upper(ef, k),
                near,
                out,
            );
        lemma_descends_reaches(g, near, g.entry->0, g.max_level, 0, first);
        lemma_full_layer_search(g, near, seq![first], upper(ef, k), out);
    }
}

/// A search of one layer ends where it cannot do better: where every node has a
/// single distance and each is a number, no neighbour of a result, and no node that
/// the search started from, is closer than a result and is not one itself.
pub proof fn law_layer_search_ends_at_the_closest(
    adj: Adjacency,
    entry: Seq<u32>,
    ef: nat,
    near: Near,
    out: Seq<Candidate>,
    id: u32,
    d: Float,
)
    requires
        layer_search(adj, entry, ef, near, out),
        forall|x: u32, a: Float, b: Float| #[trigger] near(x, a) && #[trigger] near(x, b) ==> a == b,
        forall|x: u32, a: Float| #[trigger] near(x, a) ==> !a.is_nan(),
        entry.contains(id) || exists|i: int|
            0 <= i < out.len() && adj((#[trigger] out[i]).id).contains(id),
        near(id, d),
        !ids(out).contains(id),
    ensures
        out.len() == ef,
        forall|j: int| 0 <= j < out.len() ==> !d.below((#[trigger] out[j]).dist),
{
    let seen = choose|seen: Map<u32, Float>| #[trigger] explored(adj, entry, ef, near, seen, out);
    if entry.contains(id) {
        let k = choose|k: int| 0 <= k < entry.len() && entry[k] == id;
        assert(seen.contains_key(entry[k]));
    } else {
        let i = choose|i: int| 0 <= i < out.len() && adj((#[trigger] out[i]).id).contains(id);
        assert(adj(out[i].id).contains(id));
    }
    assert(seen.contains_key(id));
    assert(seen[id] == d);
    assert forall|j: int| 0 <= j < out.len() implies !d.below((#[trigger] out[j]).dist) by {
        assert(!seen[id].below(out[j].dist));
    }
    if out.len() < ef {
        let set = ids(out).to_set();
        ids(out).unique_seq_to_set();
        assert forall|x: u32| set.contains(x) implies seen.dom().contains(x) by {
            let k = choose|k: int| 0 <= k < ids(out).len() && ids(out)[k] == x;
            assert(out[k].id == x);
        }
        vstd::set_lib::lemma_subset_equality(set, seen.dom());
        assert(set.contains(id));
    }
}

proof fn lemma_marked_holds(s: Seq<Candidate>, keep: Seq<bool>, which: bool, i: int)
    requires
        keep.len() <= s.len(),
        0 <= i < keep.len(),
        keep[i] == which,
    ensures
        marked(s, keep, which).contains(s[i].id),
        i == 0 ==> marked(s, keep, which)[0] == s[0].id,
    decreases keep.len(),
{
    let all = marked(s, keep, which);
    if i == keep.len() - 1 {
        assert(all[all.len() - 1] == s[i].id);
        if i == 0 {
            assert(marked(s, keep.drop_last(), which) =~= seq![]);
        }
    } else {
        let less = keep.drop_last();
        lemma_marked_holds(s, less, which, i);
        let rest = marked(s, less, which);
        let k = choose|k: int| 0 <= k < rest.len() && rest[k] == s[i].id;
        assert(all[k] == s[i].id);
        assert(all[0] == rest[0]);
    }
}

/// The first node selected is the closest candidate.
pub proof fn law_selection_starts_with_the_closest(
    c: Seq<Candidate>,
    m: nat,
    between: Between,
    out: Seq<u32>,
    j: int,
)
    requires
        selected(c, m, between, out),
        m > 0,
        0 <= j < c.len(),
    ensures
        out.len() > 0,
        exists|i: int|
            0 <= i < c.len() && (#[trigger] c[i]).id == out[0] && c[i].dist.rank()
                <= c[j].dist.rank(),
{
    let s = choose|s: Seq<Candidate>| #[trigger]
        stably_sorted(c, s) && selection(s, m, between, out);
    let from = choose|from: Seq<int>| #[trigger] sorted_by(c, s, from);
    let keep = choose|keep: Seq<bool>| #[trigger]
        heuristic(s, m, between, keep) && out == filled(
            marked(s, keep, true),
            marked(s, keep, false),
            m,
        );
    assert(keep[0]);
    lemma_marked_holds(s, keep, true, 0);
    assert(out[0] == s[0].id);
    crate::vector::index::lemma_hit_somewhere(from, c.len(), j);
    let at = choose|at: int| 0 <= at < from.len() && from[at] == j;
    assert(s[at] == c[from[at]]);
    assert(s[0] == c[from[0]]);
    assert(c[from[0]].dist.rank() <= c[j].dist.rank()) by {
        if at > 0 {
            assert(s[0].dist.rank() <= s[at].dist.rank());
        }
    }
    assert(c[from[0]].id == out[0]);
}

/// Why a candidate may be left out of a selection: it is no closer to the base than
/// to a selected one that is closer to the base, so that a search comes to it from
/// there; or no selected one is farther from the base than it is, and each selected
/// one is closer to the base than to every closer selected one.
pub open spec fn excused(
    c: Seq<Candidate>,
    between: Between,
    out: Seq<u32>,
    p: int,
) -> bool {
    ||| exists|j: int, d: Float|
        0 <= j < c.len() && out.contains(c[j].id) && c[j].dist.rank() <= c[p].dist.rank()
            && #[trigger] between(c[p].id, c[j].id, d) && !c[p].dist.below(d)
    ||| (forall|j: int|
        0 <= j < c.len() && out.contains((#[trigger] c[j]).id) ==> c[j].dist.rank()
            <= c[p].dist.rank()) && (forall|i: int, j: int|
        0 <= i < c.len() && 0 <= j < c.len() && out.contains((#[trigger] c[i]).id) && out.contains(
            (#[trigger] c[j]).id,
        ) && c[j].dist.rank() < c[i].dist.rank() ==> exists|d: Float| #[trigger]
            between(c[i].id, c[j].id, d) && c[i].dist.below(d))
}

/// Where a candidate that was kept stands in order of distance.
proof fn lemma_kept_place(
    c: Seq<Candidate>,
    s: Seq<Candidate>,
    from: Seq<int>,
    keep: Seq<bool>,
    j: int,
) -> (i: int)
    requires
        sorted_by(c, s, from),
        keep.len() <= s.len(),
        ids(c).no_duplicates(),
        0 <= j < c.len(),
        marked(s, keep, true).contains(c[j].id),
    ensures
        0 <= i < keep.len(),
        keep[i],
        s[i] == c[j],
{
    let kept = marked(s, keep, true);
    lemma_marked(s, keep, true);
    let k = choose|k: int| 0 <= k < kept.len() && kept[k] == c[j].id;
    assert(bears(s, keep, true, kept[k]));
    let i = choose|i: int| 0 <= i < keep.len() && #[trigger] keep[i] == true && s[i].id == kept[k];
    assert(s[i] == c[from[i]]);
    assert(ids(c)[from[i]] == ids(c)[j]);
    i
}

/// A candidate is left out of a selection only if as many as were asked for were
/// selected, and with an excuse.
pub proof fn law_candidate_is_left_out_for_a_reason(
    c: Seq<Candidate>,
    m: nat,
    between: Between,
    out: Seq<u32>,
    p: int,
)
    requires
        selected(c, m, between, out),
        ids(c).no_duplicates(),
        0 <= p < c.len(),
        !out.contains(c[p].id),
    ensures
        out.len() == m,
        excused(c, between, out, p),
{
    law_selection_is_full(c, m, between, out);
    let s = choose|s: Seq<Candidate>| #[trigger]
        stably_sorted(c, s) && selection(s, m, between, out);
    let from = choose|from: Seq<int>| #[trigger] sorted_by(c, s, from);
    let keep = choose|keep: Seq<bool>| #[trigger]
        heuristic(s, m, between, keep) && out == filled(
            marked(s, keep, true),
            marked(s, keep, false),
            m,
        );
    let kept = marked(s, keep, true);
    crate::vector::index::lemma_hit_somewhere(from, c.len(), p);
    let at = choose|at: int| 0 <= at < from.len() && from[at] == p;
    assert(s[at] == c[from[at]]);
    assert forall|id: u32| kept.contains(id) implies out.contains(id) by {
        let k = choose|k: int| 0 <= k < kept.len() && kept[k] == id;
        assert(out[k] == id);
    }
    if at < keep.len() {
        if keep[at] {
            lemma_marked_holds(s, keep, true, at);
        } else {
            let j = choose|j: int| 0 <= j < at && #[trigger] keep[j] && shadowed(
                between,
                s[at],
                s[j],
            );
            lemma_marked_holds(s, keep, true, j);
            assert(s[j] == c[from[j]]);
            assert(s[j].dist.rank() <= s[at].dist.rank());
            assert(out.contains(c[from[j]].id));
            let d = choose|d: Float| #[trigger]
                between(s[at].id, s[j].id, d) && !s[at].dist.below(d);
            assert(between(c[p].id, c[from[j]].id, d));
        }
    } else {
        assert(out == kept);
        assert forall|j: int| 0 <= j < c.len() && out.contains((#[trigger] c[j]).id) implies c[j].dist.rank()
            <= c[p].dist.rank() by {
            let i = lemma_kept_place(c, s, from, keep, j);
            assert(s[i].dist.rank() <= s[at].dist.rank());
        }
        assert forall|a: int, b: int|
            0 <= a < c.len() && 0 <= b < c.len() && out.contains((#[trigger] c[a]).id)
                && out.contains((#[trigger] c[b]).id) && c[b].dist.rank()
                < c[a].dist.rank() implies exists|d: Float| #[trigger]
            between(c[a].id, c[b].id, d) && c[a].dist.below(d) by {
            let i = lemma_kept_place(c, s, from, keep, a);
            let j = lemma_kept_place(c, s, from, keep, b);
            if i < j {
                assert(s[i].dist.rank() <= s[j].dist.rank());
            }
            assert(keep[i] && keep[j]);
            assert(apart(between, s[i], s[j]));
        }
    }
    if out.len() < m {
        // Everything was taken then.
        assert(keep.len() == s.len());
        lemma_marked_holds(s, keep, keep[at], at);
        let rest = marked(s, keep, false);
        lemma_marked_count(s, keep);
        if !keep[at] {
            let k = choose|k: int| 0 <= k < rest.len() && rest[k] == s[at].id;
            assert(out[kept.len() + k] == s[at].id);
        }
    }
}

/// What an insertion finds on a layer is present there, and it finds something.
proof fn lemma_found_reaches(
    before: Graph,
    after: Graph,
    id: u32,
    top: int,
    between: Between,
    first: u32,
    found: Map<int, Seq<Candidate>>,
    layer: int,
)
    requires
        before.wf(),
        before.entry is Some,
        0 <= layer <= top <= before.max_level,
        before.ef_construction > 0,
        built(before, after, id, top, between, first, found),
    ensures
        starts(first, found, top, layer).len() > 0,
        forall|i: int|
            0 <= i < starts(first, found, top, layer).len() ==> before.reaches(
                #[trigger] starts(first, found, top, layer)[i],
                layer,
            ),
        found[layer].len() > 0,
        forall|i: int|
            0 <= i < found[layer].len() ==> before.reaches((#[trigger] found[layer][i]).id, layer),
    decreases top - layer,
{
    let near = from_node(between, id);
    let start = starts(first, found, top, layer);
    if layer == top {
        lemma_descends_reaches(
            before,
            near,
            before.entry->0,
            before.max_level,
            top as nat,
            first,
        );
    } else {
        lemma_found_reaches(before, after, id, top, between, first, found, layer + 1);
        assert forall|i: int| 0 <= i < start.len() implies before.reaches(
            #[trigger] start[i],
            layer,
        ) by {
            assert(before.reaches(found[layer + 1][i].id, layer + 1));
        }
    }
    let out = found[layer];
    let adj = layer_of(before.nodes, layer);
    assert(layer_search(adj, start, before.ef_construction, near, out));
    law_layer_search_returns_reachable_nodes(adj, start, before.ef_construction, near, out);
    assert forall|i: int| 0 <= i < out.len() implies before.reaches(
        (#[trigger] out[i]).id,
        layer,
    ) by {
        lemma_reachable_reaches(before, layer, start, out[i].id);
    }
}

/// As long as a node may have every other as its neighbour on the lowest layer, and
/// an insertion looks for as many, inserting a node leaves every node a neighbour of
/// every other.
pub proof fn law_insertion_keeps_small_layers_complete(
    before: Graph,
    after: Graph,
    id: u32,
    level: nat,
    between: Between,
)
    requires
        before.wf(),
        complete(before),
        inserted(before, after, id, level, between),
        before.nodes.len() <= before.degree(0),
        before.nodes.len() <= before.ef_construction,
    ensures
        complete(after),
{
    let n = before.nodes.len();
    if before.entry is None {
        reveal(complete);
    } else {
        let top = lower(level, before.max_level) as int;
        let (first, found) = choose|first: u32, found: Map<int, Seq<Candidate>>| #[trigger]
            built(before, after, id, top, between, first, found);
        let near = from_node(between, id);
        let w = found[0];
        let start = starts(first, found, top, 0);
        lemma_found_reaches(before, after, id, top, between, first, found, 0);
        law_complete_layer_is_connected(before);
        assert(layer_search(
            layer_of(before.nodes, 0),
            start,
            before.ef_construction,
            near,
            w,
        ));
        lemma_wide_layer_search(before, near, start, before.ef_construction, w, 0);
        assert(layer_built(before, after.nodes, id, 0, between, w));
        let m = before.degree(0);
        let chosen = choose|chosen: Seq<u32>| #[trigger]
            selected(w, m, between, chosen) && linked(
                before.nodes,
                after.nodes,
                id,
                0,
                m,
                chosen,
                between,
            );
        law_selection_is_full(w, m, between, chosen);
        assert forall|i: int| 0 <= i < chosen.len() implies #[trigger] chosen[i] < n by {
            assert(ids(w).contains(chosen[i]));
            let k = choose|k: int| 0 <= k < ids(w).len() && ids(w)[k] == chosen[i];
            assert(before.reaches(w[k].id, 0));
        }
        lemma_linked_complete(before, after, id, m, chosen, between);
    }
}

/// A new node that was linked with every other leaves every node a neighbour of
/// every other.
proof fn lemma_linked_complete(
    before: Graph,
    after: Graph,
    id: u32,
    m: nat,
    chosen: Seq<u32>,
    between: Between,
)
    requires
        before.all_tidy(),
        complete(before),
        before.nodes.len() <= m,
        id == before.nodes.len(),
        after.nodes.len() == before.nodes.len() + 1,
        linked(before.nodes, after.nodes, id, 0, m, chosen, between),
        chosen.len() == before.nodes.len(),
        chosen.no_duplicates(),
        forall|i: int| 0 <= i < chosen.len() ==> #[trigger] chosen[i] < before.nodes.len(),
    ensures
        complete(after),
{
    reveal(complete);
    let n = before.nodes.len();
    assert forall|a: u32, b: u32|
        a < after.nodes.len() && b < after.nodes.len() && a != b implies #[trigger] links(
        after.nodes,
        a as int,
        0,
    ).contains(b) by {
        if a == id {
            lemma_distinct_fill(chosen, n, b);
        } else {
            lemma_distinct_fill(chosen, n, a);
            let old = links(before.nodes, a as int, 0);
            let new = links(after.nodes, a as int, 0);
            assert(relinked(old, new, a, id, m, between));
            assert(before.tidy(a as int, 0));
            let all = old.push(a);
            assert forall|i: int| 0 <= i < all.len() implies #[trigger] all[i] < n by {
                if i < old.len() {
                    assert(before.reaches(old[i], 0));
                }
            }
            assert(all.no_duplicates());
            lemma_distinct_below(all, n);
            assert(new == old.push(id));
            if b == id {
                assert(new[old.len() as int] == id);
            } else {
                assert(old.contains(b));
                let k = choose|k: int| 0 <= k < old.len() && old[k] == b;
                assert(new[k] == b);
            }
        }
    }
}

/// As many distinct numbers below `n` as there are leave none out.
proof fn lemma_distinct_fill(s: Seq<u32>, n: nat, x: u32)
    requires
        s.no_duplicates(),
        forall|i: int| 0 <= i < s.len() ==> #[trigger] s[i] < n,
        s.len() == n,
        x < n,
    ensures
        s.contains(x),
{
    if !s.contains(x) {
        let more = s.push(x);
        assert forall|i: int| 0 <= i < more.len() implies #[trigger] more[i] < n by {
            if i < s.len() {
                assert(s[i] < n);
            }
        }
        assert(more.no_duplicates());
        lemma_distinct_below(more, n);
    }
}

/// A list of every number below `n` has `n` places or more.
proof fn lemma_all_below(s: Seq<u32>, n: nat)
    requires
        n <= 0x1_0000_0000,
        forall|x: u32| x < n ==> #[trigger] s.contains(x),
    ensures
        n <= s.len(),
{
    let t = s.map_values(|x: u32| x as int);
    let whole = vstd::set_lib::set_int_range(0, n as int);
    vstd::set_lib::lemma_int_range(0, n as int);
    assert forall|x: int| whole.contains(x) implies t.to_set().contains(x) by {
        assert(s.contains(x as u32));
        let i = choose|i: int| 0 <= i < s.len() && s[i] == x as u32;
        assert(t[i] == x);
    }
    vstd::set_lib::lemma_len_subset(whole, t.to_set());
    t.lemma_cardinality_of_set();
}

/// There are no more distinct numbers below `n` than `n`.
pub proof fn lemma_distinct_below(s: Seq<u32>, n: nat)
    requires
        s.no_duplicates(),
        forall|i: int| 0 <= i < s.len() ==> #[trigger] s[i] < n,
    ensures
        s.len() <= n,
{
    let whole = vstd::set_lib::set_int_range(0, n as int);
    let set = s.map_values(|x: u32| x as int).to_set();
    vstd::set_lib::lemma_int_range(0, n as int);
    let t = s.map_values(|x: u32| x as int);
    assert(t.no_duplicates()) by {
        assert forall|i: int, j: int| 0 <= i < t.len() && 0 <= j < t.len() && i != j implies t[i]
            != t[j] by {
            assert(s[i] != s[j]);
        }
    }
    t.unique_seq_to_set();
    assert forall|x: int| set.contains(x) implies whole.contains(x) by {
        let i = choose|i: int| 0 <= i < t.len() && t[i] == x;
        assert(s[i] < n);
    }
    vstd::set_lib::lemma_len_subset(set, whole);
}

/// Whether every distance that `between` may give, `more` may give too.
pub open spec fn within(between: Between, more: Between) -> bool {
    forall|a: u32, b: u32, d: Float| #[trigger] between(a, b, d) ==> more(a, b, d)
}

proof fn lemma_selection_more(
    s: Seq<Candidate>,
    m: nat,
    between: Between,
    more: Between,
    out: Seq<u32>,
)
    requires
        selection(s, m, between, out),
        within(between, more),
    ensures
        selection(s, m, more, out),
{
    let keep = choose|keep: Seq<bool>| #[trigger]
        heuristic(s, m, between, keep) && out == filled(
            marked(s, keep, true),
            marked(s, keep, false),
            m,
        );
    assert forall|i: int, j: int|
        0 <= j < i < keep.len() && #[trigger] keep[i] && #[trigger] keep[j] implies apart(
        more,
        s[i],
        s[j],
    ) by {
        assert(apart(between, s[i], s[j]));
        let d = choose|d: Float| #[trigger] between(s[i].id, s[j].id, d) && s[i].dist.below(d);
        assert(more(s[i].id, s[j].id, d));
    }
    assert forall|i: int| 0 <= i < keep.len() && !#[trigger] keep[i] implies exists|j: int|
        0 <= j < i && #[trigger] keep[j] && shadowed(more, s[i], s[j]) by {
        let j = choose|j: int| 0 <= j < i && #[trigger] keep[j] && shadowed(between, s[i], s[j]);
        let d = choose|d: Float| #[trigger] between(s[i].id, s[j].id, d) && !s[i].dist.below(d);
        assert(more(s[i].id, s[j].id, d));
        assert(keep[j] && shadowed(more, s[i], s[j]));
    }
    assert(heuristic(s, m, more, keep));
}

proof fn lemma_selected_more(
    c: Seq<Candidate>,
    m: nat,
    between: Between,
    more: Between,
    out: Seq<u32>,
)
    requires
        selected(c, m, between, out),
        within(between, more),
    ensures
        selected(c, m, more, out),
{
    let s = choose|s: Seq<Candidate>| #[trigger]
        stably_sorted(c, s) && selection(s, m, between, out);
    lemma_selection_more(s, m, between, more, out);
}

proof fn lemma_layer_built_more(
    before: Graph,
    after: Nodes,
    id: u32,
    layer: int,
    between: Between,
    more: Between,
    w: Seq<Candidate>,
)
    requires
        layer_built(before, after, id, layer, between, w),
        within(between, more),
    ensures
        layer_built(before, after, id, layer, more, w),
{
    let m = before.degree(layer);
    let chosen = choose|chosen: Seq<u32>| #[trigger]
        selected(w, m, between, chosen) && linked(
            before.nodes,
            after,
            id,
            layer,
            m,
            chosen,
            between,
        );
    lemma_selected_more(w, m, between, more, chosen);
    assert forall|x: u32| #[trigger] chosen.contains(x) implies relinked(
        links(before.nodes, x as int, layer),
        links(after, x as int, layer),
        x,
        id,
        m,
        more,
    ) by {
        let old = links(before.nodes, x as int, layer);
        let new = links(after, x as int, layer);
        assert(relinked(old, new, x, id, m, between));
        if old.len() >= m {
            let c = choose|c: Seq<Candidate>|
                ids(c) == old.push(id) && (forall|i: int|
                    0 <= i < c.len() ==> between(x, (#[trigger] c[i]).id, c[i].dist))
                    && #[trigger] selected(c, m, between, new);
            lemma_selected_more(c, m, between, more, new);
            assert forall|i: int| 0 <= i < c.len() implies more(
                x,
                (#[trigger] c[i]).id,
                c[i].dist,
            ) by {
                assert(between(x, c[i].id, c[i].dist));
            }
        }
    }
    assert(linked(before.nodes, after, id, layer, m, chosen, more));
}

/// What an insertion may give is still what it may give where measuring a pair
/// of nodes may give more.
pub proof fn lemma_inserted_more(
    before: Graph,
    after: Graph,
    id: u32,
    level: nat,
    between: Between,
    more: Between,
)
    requires
        inserted(before, after, id, level, between),
        within(between, more),
    ensures
        inserted(before, after, id, level, more),
{
    if before.entry is Some {
        let top = lower(level, before.max_level) as int;
        let (first, found) = choose|first: u32, found: Map<int, Seq<Candidate>>| #[trigger]
            built(before, after, id, top, between, first, found);
        let near = from_node(between, id);
        let nearer = from_node(more, id);
        assert forall|x: u32, d: Float| #[trigger] near(x, d) implies nearer(x, d) by {
            assert(between(id, x, d));
        }
        lemma_descends_more(
            layers_of(before.nodes),
            near,
            nearer,
            before.entry->0,
            before.max_level,
            top as nat,
            first,
        );
        assert forall|layer: int| 0 <= layer <= top implies layer_search(
            layer_of(before.nodes, layer),
            starts(first, found, top, layer),
            before.ef_construction,
            nearer,
            #[trigger] found[layer],
        ) by {
            lemma_layer_search_more(
                layer_of(before.nodes, layer),
                starts(first, found, top, layer),
                before.ef_construction,
                near,
                nearer,
                found[layer],
            );
        }
        assert forall|layer: int| 0 <= layer <= top implies layer_built(
            before,
            after.nodes,
            id,
            layer,
            more,
            #[trigger] found[layer],
        ) by {
            lemma_layer_built_more(before, after.nodes, id, layer, between, more, found[layer]);
        }
        assert(built(before, after, id, top, more, first, found));
    }
}

/// What a search of the whole graph may return is still what it may return where
/// measuring a node may give more.
pub proof fn lemma_graph_search_more(
    g: Graph,
    near: Near,
    more: Near,
    k: nat,
    ef: nat,
    out: Seq<Candidate>,
)
    requires
        graph_search(g, near, k, ef, out),
        forall|x: u32, d: Float| #[trigger] near(x, d) ==> more(x, d),
    ensures
        graph_search(g, more, k, ef, out),
{
    if k > 0 && g.entry is Some {
        let first = choose|first: u32| #[trigger]
            descends(layers_of(g.nodes), near, g.entry->0, g.max_level, 0, first) && layer_search(
                layer_of(g.nodes, 0),
                seq![first],
                upper(ef, k),
                near,
                out,
            );
        lemma_descends_more(layers_of(g.nodes), near, more, g.entry->0, g.max_level, 0, first);
        lemma_layer_search_more(
            layer_of(g.nodes, 0),
            seq![first],
            upper(ef, k),
            near,
            more,
            out,
        );
    }
}

/// A candidate is put behind those that are no farther and before those that are.
pub proof fn lemma_put(s: Seq<Candidate>, c: Candidate, p: int)
    requires
        0 <= p <= s.len(),
        forall|i: int| 0 <= i < p ==> (#[trigger] s[i]).dist.rank() <= c.dist.rank(),
        forall|i: int| p <= i < s.len() ==> (#[trigger] s[i]).dist.rank() > c.dist.rank(),
    ensures
        put(s, c) == s.insert(p, c),
    decreases s.len(),
{
    if p == s.len() {
        if s.len() > 0 {
            assert(s[s.len() - 1].dist.rank() <= c.dist.rank());
        }
        assert(s.insert(p, c) =~= s.push(c));
    } else {
        let less = s.drop_last();
        assert(s[s.len() - 1].dist.rank() > c.dist.rank());
        assert forall|i: int| 0 <= i < p implies (#[trigger] less[i]).dist.rank()
            <= c.dist.rank() by {
            assert(less[i] == s[i]);
        }
        assert forall|i: int| p <= i < less.len() implies (#[trigger] less[i]).dist.rank()
            > c.dist.rank() by {
            assert(less[i] == s[i]);
        }
        lemma_put(less, c, p);
        assert(less.insert(p, c).push(s.last()) =~= s.insert(p, c));
    }
}

/// A node that is inserted is linked both ways: each of its neighbours has it for a
/// neighbour, or has as many neighbours as it may.
pub proof fn law_insertion_links_both_ways(
    before: Graph,
    after: Graph,
    id: u32,
    level: nat,
    between: Between,
    layer: int,
    x: u32,
)
    requires
        before.wf(),
        inserted(before, after, id, level, between),
        links(after.nodes, id as int, layer).contains(x),
    ensures
        links(after.nodes, x as int, layer).contains(id) || links(after.nodes, x as int, layer).len()
            == before.degree(layer),
{
    let top = lower(level, before.max_level) as int;
    if before.entry is Some && 0 <= layer <= top {
        let (first, found) = choose|first: u32, found: Map<int, Seq<Candidate>>| #[trigger]
            built(before, after, id, top, between, first, found);
        let w = found[layer];
        assert(layer_built(before, after.nodes, id, layer, between, w));
        let m = before.degree(layer);
        let chosen = choose|chosen: Seq<u32>| #[trigger]
            selected(w, m, between, chosen) && linked(
                before.nodes,
                after.nodes,
                id,
                layer,
                m,
                chosen,
                between,
            );
        let old = links(before.nodes, x as int, layer);
        let new = links(after.nodes, x as int, layer);
        assert(relinked(old, new, x, id, m, between));
        if old.len() < m {
            assert(new[old.len() as int] == id);
        } else {
            let c = choose|c: Seq<Candidate>|
                ids(c) == old.push(id) && (forall|i: int|
                    0 <= i < c.len() ==> between(x, (#[trigger] c[i]).id, c[i].dist))
                    && #[trigger] selected(c, m, between, new);
            law_selection_is_full(c, m, between, new);
            assert(c.len() == ids(c).len());
        }
    } else if layer < 0 {
        assert(links(after.nodes, id as int, layer) =~= seq![]);
    } else {
        assert(links(before.nodes, id as int, layer) =~= seq![]);
        assert(links(after.nodes, id as int, layer) =~= seq![]);
    }
}

/// A node that is inserted changes the neighbours of no node but those that it is
/// linked with, and on no layer above its own.
pub proof fn law_insertion_leaves_the_rest(
    before: Graph,
    after: Graph,
    id: u32,
    level: nat,
    between: Between,
    layer: int,
    x: u32,
)
    requires
        before.wf(),
        inserted(before, after, id, level, between),
        x < before.nodes.len(),
        !links(after.nodes, id as int, layer).contains(x),
        before.entry is Some,
    ensures
        links(after.nodes, x as int, layer) == links(before.nodes, x as int, layer),
{
    let top = lower(level, before.max_level) as int;
    if 0 <= layer <= top {
        let (first, found) = choose|first: u32, found: Map<int, Seq<Candidate>>| #[trigger]
            built(before, after, id, top, between, first, found);
        let w = found[layer];
        assert(layer_built(before, after.nodes, id, layer, between, w));
        let m = before.degree(layer);
        let chosen = choose|chosen: Seq<u32>| #[trigger]
            selected(w, m, between, chosen) && linked(
                before.nodes,
                after.nodes,
                id,
                layer,
                m,
                chosen,
                between,
            );
        assert(links(after.nodes, id as int, layer) == chosen);
    } else if layer > top {
    } else {
        assert(links(after.nodes, x as int, layer) =~= links(before.nodes, x as int, layer));
    }
}

/// Whether `out` selects up to `m` of the candidates, and every one that is left out
/// is excused.
pub open spec fn well_selected(c: Seq<Candidate>, m: nat, between: Between, out: Seq<u32>) -> bool {
    &&& out.len() == if m <= c.len() {
        m
    } else {
        c.len()
    }
    &&& out.no_duplicates()
    &&& forall|i: int| 0 <= i < out.len() ==> ids(c).contains(#[trigger] out[i])
    &&& forall|p: int|
        0 <= p < c.len() && !out.contains((#[trigger] c[p]).id) ==> excused(c, between, out, p)
}

proof fn lemma_well_selected(c: Seq<Candidate>, m: nat, between: Between, out: Seq<u32>)
    requires
        selected(c, m, between, out),
        ids(c).no_duplicates(),
    ensures
        well_selected(c, m, between, out),
{
    law_selection_is_full(c, m, between, out);
    assert(c.len() == ids(c).len());
    assert forall|p: int| 0 <= p < c.len() && !out.contains((#[trigger] c[p]).id) implies excused(
        c,
        between,
        out,
        p,
    ) by {
        law_candidate_is_left_out_for_a_reason(c, m, between, out, p);
    }
}

/// A node that is inserted is linked, on every layer that it shares with others, with
/// nodes selected among those that a search of the layer for it found. It has at
/// least one neighbour there.
pub proof fn law_new_node_is_linked_on_every_layer(
    before: Graph,
    after: Graph,
    id: u32,
    level: nat,
    between: Between,
    layer: int,
)
    requires
        before.wf(),
        before.entry is Some,
        before.m > 0,
        before.ef_construction > 0,
        inserted(before, after, id, level, between),
        0 <= layer <= level,
        layer <= before.max_level,
    ensures
        links(after.nodes, id as int, layer).len() > 0,
        exists|start: Seq<u32>, w: Seq<Candidate>| #[trigger]
            layer_search(
                layer_of(before.nodes, layer),
                start,
                before.ef_construction,
                from_node(between, id),
                w,
            ) && start.len() > 0 && well_selected(
                w,
                before.degree(layer),
                between,
                links(after.nodes, id as int, layer),
            ),
{
    let top = lower(level, before.max_level) as int;
    let (first, found) = choose|first: u32, found: Map<int, Seq<Candidate>>| #[trigger]
        built(before, after, id, top, between, first, found);
    let w = found[layer];
    lemma_found_reaches(before, after, id, top, between, first, found, layer);
    let start = starts(first, found, top, layer);
    let near = from_node(between, id);
    assert(layer_search(
        layer_of(before.nodes, layer),
        start,
        before.ef_construction,
        near,
        w,
    ));
    law_layer_search_returns_reachable_nodes(
        layer_of(before.nodes, layer),
        start,
        before.ef_construction,
        near,
        w,
    );
    assert(layer_built(before, after.nodes, id, layer, between, w));
    let m = before.degree(layer);
    let chosen = choose|chosen: Seq<u32>| #[trigger]
        selected(w, m, between, chosen) && linked(
            before.nodes,
            after.nodes,
            id,
            layer,
            m,
            chosen,
            between,
        );
    lemma_well_selected(w, m, between, chosen);
}

/// On the lowest layer a node that is inserted has as many neighbours as it may, or
/// all nodes if there are fewer, if that layer is connected and the insertion looks
/// for enough of them.
pub proof fn law_new_node_has_all_the_neighbours_it_may(
    before: Graph,
    after: Graph,
    id: u32,
    level: nat,
    between: Between,
)
    requires
        before.wf(),
        connected(before),
        before.degree(0) <= before.ef_construction,
        inserted(before, after, id, level, between),
    ensures
        links(after.nodes, id as int, 0).len() == if 2 * before.m <= before.nodes.len() {
            2 * before.m
        } else {
            before.nodes.len()
        },
{
    if before.entry is Some && before.ef_construction > 0 {
        let top = lower(level, before.max_level) as int;
        let (first, found) = choose|first: u32, found: Map<int, Seq<Candidate>>| #[trigger]
            built(before, after, id, top, between, first, found);
        let w = found[0];
        lemma_found_reaches(before, after, id, top, between, first, found, 0);
        let start = starts(first, found, top, 0);
        let near = from_node(between, id);
        assert(layer_search(layer_of(before.nodes, 0), start, before.ef_construction, near, w));
        lemma_full_layer_search(before, near, start, before.ef_construction, w);
        assert(layer_built(before, after.nodes, id, 0, between, w));
        let m = before.degree(0);
        let chosen = choose|chosen: Seq<u32>| #[trigger]
            selected(w, m, between, chosen) && linked(
                before.nodes,
                after.nodes,
                id,
                0,
                m,
                chosen,
                between,
            );
        law_selection_is_full(w, m, between, chosen);
    } else if before.entry is Some {
        let top = lower(level, before.max_level) as int;
        let (first, found) = choose|first: u32, found: Map<int, Seq<Candidate>>| #[trigger]
            built(before, after, id, top, between, first, found);
        let w = found[0];
        assert(layer_built(before, after.nodes, id, 0, between, w));
        let chosen = choose|chosen: Seq<u32>| #[trigger]
            selected(w, before.degree(0), between, chosen) && linked(
                before.nodes,
                after.nodes,
                id,
                0,
                before.degree(0),
                chosen,
                between,
            );
        law_selection_is_full(w, before.degree(0), between, chosen);
    } else {
        assert(links(after.nodes, id as int, 0) == Seq::<u32>::empty());
    }
}

/// A neighbour of a new node that has as many neighbours as it may already keeps
/// those that are well selected among them and the new node, by their distances
/// from it.
pub proof fn law_full_neighbour_selects_anew(
    before: Graph,
    after: Graph,
    id: u32,
    level: nat,
    between: Between,
    layer: int,
    x: u32,
)
    requires
        before.wf(),
        inserted(before, after, id, level, between),
        links(after.nodes, id as int, layer).contains(x),
    ensures
        ({
            let old = links(before.nodes, x as int, layer);
            let new = links(after.nodes, x as int, layer);
            let m = before.degree(layer);
            &&& old.len() < m ==> new == old.push(id)
            &&& old.len() >= m ==> exists|c: Seq<Candidate>|
                ids(c) == old.push(id) && (forall|i: int|
                    0 <= i < c.len() ==> between(x, (#[trigger] c[i]).id, c[i].dist))
                    && #[trigger] well_selected(c, m, between, new)
        }),
{
    let top = lower(level, before.max_level) as int;
    if before.entry is Some && 0 <= layer <= top {
        let (first, found) = choose|first: u32, found: Map<int, Seq<Candidate>>| #[trigger]
            built(before, after, id, top, between, first, found);
        let w = found[layer];
        assert(layer_built(before, after.nodes, id, layer, between, w));
        let m = before.degree(layer);
        let chosen = choose|chosen: Seq<u32>| #[trigger]
            selected(w, m, between, chosen) && linked(
                before.nodes,
                after.nodes,
                id,
                layer,
                m,
                chosen,
                between,
            );
        let old = links(before.nodes, x as int, layer);
        let new = links(after.nodes, x as int, layer);
        assert(relinked(old, new, x, id, m, between));
        if old.len() >= m {
            let c = choose|c: Seq<Candidate>|
                ids(c) == old.push(id) && (forall|i: int|
                    0 <= i < c.len() ==> between(x, (#[trigger] c[i]).id, c[i].dist))
                    && #[trigger] selected(c, m, between, new);
            assert(before.tidy(x as int, layer));
            assert(old.push(id).no_duplicates()) by {
                assert forall|i: int| 0 <= i < old.len() implies old[i] != id by {
                    assert(before.reaches(old[i], layer));
                }
            }
            lemma_well_selected(c, m, between, new);
        }
    } else if layer < 0 {
        assert(links(after.nodes, id as int, layer) =~= seq![]);
    } else {
        assert(links(before.nodes, id as int, layer) =~= seq![]);
        assert(links(after.nodes, id as int, layer) =~= seq![]);
    }
}

/// Searches start at a node on the highest layer: at the new node if it is higher
/// than all others or the first, else where they started before.
pub proof fn law_searches_start_at_the_top(
    before: Graph,
    after: Graph,
    id: u32,
    level: nat,
    between: Between,
)
    requires
        before.wf(),
        inserted(before, after, id, level, between),
    ensures
        after.nodes[id as int].len() == level + 1,
        before.nodes.len() == 0 || level > before.max_level ==> after.entry == Some(id)
            && after.max_level == level,
        before.nodes.len() > 0 && level <= before.max_level ==> after.entry == before.entry
            && after.max_level == before.max_level,
{
}

/// Following the nearest node down through the layers never leads farther away,
/// where every node has a single distance and each is a number.
pub proof fn law_descent_comes_no_farther(
    adj: spec_fn(int) -> Adjacency,
    near: Near,
    from: u32,
    top: nat,
    bottom: nat,
    to: u32,
    d: Float,
    e: Float,
)
    requires
        descends(adj, near, from, top, bottom, to),
        forall|x: u32, a: Float, b: Float| #[trigger] near(x, a) && #[trigger] near(x, b) ==> a == b,
        forall|x: u32, a: Float| #[trigger] near(x, a) ==> !a.is_nan(),
        near(from, d),
        near(to, e),
    ensures
        !d.below(e),
    decreases top,
{
    if top > bottom {
        let w = choose|w: Seq<Candidate>| #[trigger]
            layer_search(adj(top as int), seq![from], 1, near, w) && w.len() == 1 && descends(
                adj,
                near,
                w[0].id,
                (top - 1) as nat,
                bottom,
                to,
            );
        law_layer_search_returns_reachable_nodes(adj(top as int), seq![from], 1, near, w);
        let mid = w[0];
        assert(near(mid.id, mid.dist));
        law_descent_comes_no_farther(
            adj,
            near,
            mid.id,
            (top - 1) as nat,
            bottom,
            to,
            mid.dist,
            e,
        );
        if ids(w).contains(from) {
            let k = choose|k: int| 0 <= k < ids(w).len() && ids(w)[k] == from;
            assert(w[k].id == from);
        } else {
            assert(seq![from][0] == from);
            assert(seq![from].contains(from));
            law_layer_search_ends_at_the_closest(
                adj(top as int),
                seq![from],
                1,
                near,
                w,
                from,
                d,
            );
            assert(!d.below(w[0].dist));
        }
        assert(near(from, d) && near(mid.id, mid.dist) && near(to, e));
    }
}

} // verus!
