//! Searches and insertions that come out the same every time.
//!
//! Where measuring has a single result, so has every search, and so has every
//! insertion: the same vectors added in the same order give the same graph.

use vstd::prelude::*;

use crate::vector::float;
use crate::vector::float::{Float, Operation};
use crate::vector::graph::{
    apart, built, descends, entered, explores, filled, from_node, graph_search, greedy, heuristic,
    ids, inserted, layer_built, layer_of, layer_search, layers_of, linked, links, looked, looks,
    lower, marked, put_all, relinked, selected, selection, shadowed, sorted_by, stably_sorted,
    started, starts, swept, under_way, upper, Adjacency, Between, Candidate, Graph, Near, Sweep,
};
use crate::vector::index::{
    added, added_as, lemma_hit_somewhere, searched, searched_as, searched_exactly,
    searched_exactly_as, Hit, Memory,
};
use crate::vector::metric;

verus! {

/// Whether measuring a node has a single result.
pub open spec fn single(near: Near) -> bool {
    forall|id: u32, d: Float, e: Float| #[trigger] near(id, d) && #[trigger] near(id, e) ==> d == e
}

/// Whether measuring a pair of nodes has a single result.
pub open spec fn single_pairs(between: Between) -> bool {
    forall|a: u32, b: u32, d: Float, e: Float| #[trigger]
        between(a, b, d) && #[trigger] between(a, b, e) ==> d == e
}

/// Whether `level_of` turns every draw into a single level.
pub open spec fn single_level<L: Fn(u64, u64, usize) -> u8>(level_of: L) -> bool {
    forall|a: u64, b: u64, m: usize, r: u8, s: u8| #[trigger]
        call_ensures(level_of, (a, b, m), r) && #[trigger] call_ensures(level_of, (a, b, m), s)
            ==> r == s
}

proof fn lemma_looks_agree(
    near: Near,
    ef: nat,
    before: Sweep,
    list: Seq<u32>,
    s: Seq<Sweep>,
    t: Seq<Sweep>,
    i: int,
)
    requires
        single(near),
        looks(near, ef, before, list, s),
        looks(near, ef, before, list, t),
        0 <= i <= list.len(),
    ensures
        s[i] == t[i],
    decreases i,
{
    if i > 0 {
        lemma_looks_agree(near, ef, before, list, s, t, i - 1);
        let id = list[i - 1];
        assert(looked(near, ef, s[i - 1], id, s[i]));
        assert(looked(near, ef, t[i - 1], id, t[i]));
    }
}

proof fn lemma_explores_agree(
    adj: Adjacency,
    near: Near,
    ef: nat,
    before: Sweep,
    a: Sweep,
    b: Sweep,
)
    requires
        single(near),
        explores(adj, near, ef, before, a),
        explores(adj, near, ef, before, b),
    ensures
        a == b,
{
    let list = adj(before.frontier[0].id);
    let s = choose|steps: Seq<Sweep>| #[trigger]
        looks(near, ef, before.popped(), list, steps) && steps.last() == a;
    let t = choose|steps: Seq<Sweep>| #[trigger]
        looks(near, ef, before.popped(), list, steps) && steps.last() == b;
    lemma_looks_agree(near, ef, before.popped(), list, s, t, list.len() as int);
}

proof fn lemma_started_agree(near: Near, entry: Seq<u32>, ef: nat, a: Sweep, b: Sweep)
    requires
        single(near),
        started(near, entry, ef, a),
        started(near, entry, ef, b),
    ensures
        a == b,
{
    let s = choose|dists: Seq<Float>| #[trigger]
        entered(near, entry, dists) && a == (Sweep {
            frontier: put_all(entry, dists),
            found: put_all(entry, dists).take(lower(ef, entry.len()) as int),
            seen: entry.to_set(),
        });
    let t = choose|dists: Seq<Float>| #[trigger]
        entered(near, entry, dists) && b == (Sweep {
            frontier: put_all(entry, dists),
            found: put_all(entry, dists).take(lower(ef, entry.len()) as int),
            seen: entry.to_set(),
        });
    assert forall|i: int| 0 <= i < entry.len() implies s[i] == t[i] by {
        assert(near(entry[i], s[i]) && near(entry[i], t[i]));
    }
    assert(s =~= t);
}

proof fn lemma_traces_agree(
    adj: Adjacency,
    entry: Seq<u32>,
    ef: nat,
    near: Near,
    s: Seq<Sweep>,
    t: Seq<Sweep>,
    i: int,
)
    requires
        single(near),
        under_way(adj, entry, ef, near, s),
        under_way(adj, entry, ef, near, t),
        0 <= i < s.len(),
        i < t.len(),
    ensures
        s[i] == t[i],
    decreases i,
{
    if i == 0 {
        lemma_started_agree(near, entry, ef, s[0], t[0]);
    } else {
        lemma_traces_agree(adj, entry, ef, near, s, t, i - 1);
        assert(s[i - 1].goes_on() && t[i - 1].goes_on());
        lemma_explores_agree(adj, near, ef, s[i - 1], s[i], t[i]);
    }
}

/// A search of one layer comes out the same every time.
pub proof fn law_layer_search_is_reproducible(
    adj: Adjacency,
    entry: Seq<u32>,
    ef: nat,
    near: Near,
    a: Seq<Candidate>,
    b: Seq<Candidate>,
)
    requires
        single(near),
        layer_search(adj, entry, ef, near, a),
        layer_search(adj, entry, ef, near, b),
    ensures
        a == b,
{
    reveal(greedy);
    let s = choose|trace: Seq<Sweep>| #[trigger] swept(adj, entry, ef, near, trace, a);
    let t = choose|trace: Seq<Sweep>| #[trigger] swept(adj, entry, ef, near, trace, b);
    if s.len() <= t.len() {
        lemma_traces_agree(adj, entry, ef, near, s, t, s.len() - 1);
        if s.len() < t.len() {
            assert(t[s.len() - 1].goes_on());
        }
    } else {
        lemma_traces_agree(adj, entry, ef, near, s, t, t.len() - 1);
        assert(s[t.len() - 1].goes_on());
    }
}

proof fn lemma_descends_agree(
    adj: spec_fn(int) -> Adjacency,
    near: Near,
    from: u32,
    top: nat,
    bottom: nat,
    a: u32,
    b: u32,
)
    requires
        single(near),
        descends(adj, near, from, top, bottom, a),
        descends(adj, near, from, top, bottom, b),
    ensures
        a == b,
    decreases top,
{
    if top > bottom {
        let v = choose|w: Seq<Candidate>| #[trigger]
            layer_search(adj(top as int), seq![from], 1, near, w) && w.len() == 1 && descends(
                adj,
                near,
                w[0].id,
                (top - 1) as nat,
                bottom,
                a,
            );
        let w = choose|w: Seq<Candidate>| #[trigger]
            layer_search(adj(top as int), seq![from], 1, near, w) && w.len() == 1 && descends(
                adj,
                near,
                w[0].id,
                (top - 1) as nat,
                bottom,
                b,
            );
        law_layer_search_is_reproducible(adj(top as int), seq![from], 1, near, v, w);
        lemma_descends_agree(adj, near, v[0].id, (top - 1) as nat, bottom, a, b);
    }
}

/// A search of the whole graph comes out the same every time.
pub proof fn law_graph_search_is_reproducible(
    g: Graph,
    near: Near,
    k: nat,
    ef: nat,
    a: Seq<Candidate>,
    b: Seq<Candidate>,
)
    requires
        single(near),
        graph_search(g, near, k, ef, a),
        graph_search(g, near, k, ef, b),
    ensures
        a == b,
{
    if k == 0 || g.entry is None {
        assert(a =~= b);
    } else {
        let adj = layers_of(g.nodes);
        let low = layer_of(g.nodes, 0);
        let p = choose|first: u32| #[trigger]
            descends(adj, near, g.entry->0, g.max_level, 0, first) && layer_search(
                low,
                seq![first],
                upper(ef, k),
                near,
                a,
            );
        let q = choose|first: u32| #[trigger]
            descends(adj, near, g.entry->0, g.max_level, 0, first) && layer_search(
                low,
                seq![first],
                upper(ef, k),
                near,
                b,
            );
        lemma_descends_agree(adj, near, g.entry->0, g.max_level, 0, p, q);
        law_layer_search_is_reproducible(low, seq![p], upper(ef, k), near, a, b);
    }
}

/// Whether the candidate at `x` comes before the one at `y` in a stable sort.
spec fn ahead(c: Seq<Candidate>, x: int, y: int) -> bool {
    c[x].dist.rank() < c[y].dist.rank() || (c[x].dist.rank() == c[y].dist.rank() && x < y)
}

proof fn lemma_places_agree(
    c: Seq<Candidate>,
    s: Seq<Candidate>,
    t: Seq<Candidate>,
    p: Seq<int>,
    q: Seq<int>,
    i: int,
)
    requires
        sorted_by(c, s, p),
        sorted_by(c, t, q),
        0 <= i < c.len(),
    ensures
        forall|j: int| 0 <= j <= i ==> #[trigger] p[j] == q[j],
    decreases i,
{
    if i > 0 {
        lemma_places_agree(c, s, t, p, q, i - 1);
    }
    if p[i] != q[i] {
        lemma_hit_somewhere(q, c.len(), p[i]);
        lemma_hit_somewhere(p, c.len(), q[i]);
        let k = choose|k: int| 0 <= k < q.len() && q[k] == p[i];
        let l = choose|l: int| 0 <= l < p.len() && p[l] == q[i];
        assert(k > i) by {
            if k < i {
                assert(p[k] == q[k]);
                assert(p[k] == p[i]);
            }
        }
        assert(l > i) by {
            if l < i {
                assert(p[l] == q[l]);
                assert(q[l] == q[i]);
            }
        }
        assert(t[i] == c[q[i]] && t[k] == c[q[k]]);
        assert(s[i] == c[p[i]] && s[l] == c[p[l]]);
        assert(ahead(c, q[i], q[k])) by {
            assert(t[i].dist.rank() < t[k].dist.rank() || (t[i].dist.rank() == t[k].dist.rank()
                && q[i] < q[k]));
        }
        assert(ahead(c, p[i], p[l])) by {
            assert(s[i].dist.rank() < s[l].dist.rank() || (s[i].dist.rank() == s[l].dist.rank()
                && p[i] < p[l]));
        }
    }
}

/// A stable sort comes out the same every time.
pub proof fn law_stable_sort_is_reproducible(
    c: Seq<Candidate>,
    a: Seq<Candidate>,
    b: Seq<Candidate>,
)
    requires
        stably_sorted(c, a),
        stably_sorted(c, b),
    ensures
        a == b,
{
    let p = choose|from: Seq<int>| #[trigger] sorted_by(c, a, from);
    let q = choose|from: Seq<int>| #[trigger] sorted_by(c, b, from);
    if c.len() > 0 {
        lemma_places_agree(c, a, b, p, q, c.len() - 1);
    }
    assert forall|i: int| 0 <= i < a.len() implies a[i] == b[i] by {
        assert(p[i] == q[i]);
        assert(a[i] == c[p[i]] && b[i] == c[q[i]]);
    }
    assert(a =~= b);
}

proof fn lemma_kept_agree(
    s: Seq<Candidate>,
    m: nat,
    between: Between,
    a: Seq<bool>,
    b: Seq<bool>,
    i: int,
)
    requires
        single_pairs(between),
        heuristic(s, m, between, a),
        heuristic(s, m, between, b),
        0 <= i <= a.len(),
        i <= b.len(),
    ensures
        a.take(i) == b.take(i),
    decreases i,
{
    if i > 0 {
        lemma_kept_agree(s, m, between, a, b, i - 1);
        let x = i - 1;
        assert(a[x] == b[x]) by {
            if a[x] {
                lemma_kept_too(s, m, between, a, b, x);
            }
            if b[x] {
                lemma_kept_too(s, m, between, b, a, x);
            }
        }
        assert(a.take(i) =~= a.take(x).push(a[x]));
        assert(b.take(i) =~= b.take(x).push(b[x]));
    }
}

proof fn lemma_kept_too(
    s: Seq<Candidate>,
    m: nat,
    between: Between,
    a: Seq<bool>,
    b: Seq<bool>,
    x: int,
)
    requires
        single_pairs(between),
        heuristic(s, m, between, a),
        heuristic(s, m, between, b),
        0 <= x < a.len(),
        x < b.len(),
        a.take(x) == b.take(x),
        a[x],
    ensures
        b[x],
{
    if !b[x] {
        assert(exists|j: int| 0 <= j < x && #[trigger] b[j] && shadowed(between, s[x], s[j]));
        let j = choose|j: int| 0 <= j < x && #[trigger] b[j] && shadowed(between, s[x], s[j]);
        assert(b.take(x)[j] == b[j]);
        assert(a.take(x)[j] == a[j]);
        assert(apart(between, s[x], s[j]));
        let d = choose|d: Float| #[trigger] between(s[x].id, s[j].id, d) && s[x].dist.below(d);
        let e = choose|e: Float| #[trigger] between(s[x].id, s[j].id, e) && !s[x].dist.below(e);
        assert(d == e);
    }
}

proof fn lemma_keeps_agree(
    s: Seq<Candidate>,
    m: nat,
    between: Between,
    a: Seq<bool>,
    b: Seq<bool>,
)
    requires
        single_pairs(between),
        heuristic(s, m, between, a),
        heuristic(s, m, between, b),
        a.len() <= b.len(),
    ensures
        a == b,
{
    lemma_kept_agree(s, m, between, a, b, a.len() as int);
    assert(a.take(a.len() as int) =~= a);
    if a.len() < b.len() {
        assert(marked(s, b.take(a.len() as int), true).len() < m);
    } else {
        assert(b.take(b.len() as int) =~= b);
    }
}

/// A selection of neighbours comes out the same every time.
pub proof fn law_selection_is_reproducible(
    c: Seq<Candidate>,
    m: nat,
    between: Between,
    a: Seq<u32>,
    b: Seq<u32>,
)
    requires
        single_pairs(between),
        selected(c, m, between, a),
        selected(c, m, between, b),
    ensures
        a == b,
{
    let s = choose|s: Seq<Candidate>| #[trigger] stably_sorted(c, s) && selection(s, m, between, a);
    let t = choose|s: Seq<Candidate>| #[trigger] stably_sorted(c, s) && selection(s, m, between, b);
    law_stable_sort_is_reproducible(c, s, t);
    let p = choose|keep: Seq<bool>| #[trigger]
        heuristic(s, m, between, keep) && a == filled(
            marked(s, keep, true),
            marked(s, keep, false),
            m,
        );
    let q = choose|keep: Seq<bool>| #[trigger]
        heuristic(s, m, between, keep) && b == filled(
            marked(s, keep, true),
            marked(s, keep, false),
            m,
        );
    if p.len() <= q.len() {
        lemma_keeps_agree(s, m, between, p, q);
    } else {
        lemma_keeps_agree(s, m, between, q, p);
    }
}

proof fn lemma_relinked_agree(
    old: Seq<u32>,
    a: Seq<u32>,
    b: Seq<u32>,
    base: u32,
    id: u32,
    m: nat,
    between: Between,
)
    requires
        single_pairs(between),
        relinked(old, a, base, id, m, between),
        relinked(old, b, base, id, m, between),
    ensures
        a == b,
{
    if old.len() >= m {
        let s = choose|c: Seq<Candidate>|
            ids(c) == old.push(id) && (forall|i: int|
                0 <= i < c.len() ==> between(base, (#[trigger] c[i]).id, c[i].dist))
                && #[trigger] selected(c, m, between, a);
        let t = choose|c: Seq<Candidate>|
            ids(c) == old.push(id) && (forall|i: int|
                0 <= i < c.len() ==> between(base, (#[trigger] c[i]).id, c[i].dist))
                && #[trigger] selected(c, m, between, b);
        assert(s.len() == ids(s).len() && t.len() == ids(t).len());
        assert forall|i: int| 0 <= i < s.len() implies s[i] == t[i] by {
            assert(ids(s)[i] == ids(t)[i]);
            assert(s[i].id == t[i].id);
            assert(between(base, s[i].id, s[i].dist) && between(base, t[i].id, t[i].dist));
        }
        assert(s =~= t);
        law_selection_is_reproducible(s, m, between, a, b);
    }
}

proof fn lemma_layer_built_agree(
    before: Graph,
    a: Graph,
    b: Graph,
    id: u32,
    layer: int,
    between: Between,
    w: Seq<Candidate>,
    x: u32,
)
    requires
        single_pairs(between),
        layer_built(before, a.nodes, id, layer, between, w),
        layer_built(before, b.nodes, id, layer, between, w),
    ensures
        links(a.nodes, x as int, layer) == links(b.nodes, x as int, layer),
{
    let m = before.degree(layer);
    let p = choose|chosen: Seq<u32>| #[trigger]
        selected(w, m, between, chosen) && linked(
            before.nodes,
            a.nodes,
            id,
            layer,
            m,
            chosen,
            between,
        );
    let q = choose|chosen: Seq<u32>| #[trigger]
        selected(w, m, between, chosen) && linked(
            before.nodes,
            b.nodes,
            id,
            layer,
            m,
            chosen,
            between,
        );
    law_selection_is_reproducible(w, m, between, p, q);
    if p.contains(x) {
        let old = links(before.nodes, x as int, layer);
        lemma_relinked_agree(
            old,
            links(a.nodes, x as int, layer),
            links(b.nodes, x as int, layer),
            x,
            id,
            m,
            between,
        );
    } else if x != id {
        assert(links(a.nodes, x as int, layer) == links(before.nodes, x as int, layer));
        assert(links(b.nodes, x as int, layer) == links(before.nodes, x as int, layer));
    }
}

proof fn lemma_found_agree(
    before: Graph,
    a: Graph,
    b: Graph,
    id: u32,
    top: int,
    between: Between,
    first: u32,
    p: Map<int, Seq<Candidate>>,
    q: Map<int, Seq<Candidate>>,
    layer: int,
)
    requires
        single_pairs(between),
        built(before, a, id, top, between, first, p),
        built(before, b, id, top, between, first, q),
        0 <= layer <= top,
    ensures
        p[layer] == q[layer],
    decreases top - layer,
{
    let near = from_node(between, id);
    assert(single(near)) by {
        assert forall|x: u32, d: Float, e: Float| #[trigger] near(x, d) && #[trigger] near(
            x,
            e,
        ) implies d == e by {
            assert(between(id, x, d) && between(id, x, e));
        }
    }
    if layer < top {
        lemma_found_agree(before, a, b, id, top, between, first, p, q, layer + 1);
    }
    law_layer_search_is_reproducible(
        layer_of(before.nodes, layer),
        starts(first, p, top, layer),
        before.ef_construction,
        near,
        p[layer],
        q[layer],
    );
}

/// An insertion into a graph comes out the same every time.
pub proof fn law_insertion_is_reproducible(
    before: Graph,
    a: Graph,
    b: Graph,
    id: u32,
    level: nat,
    between: Between,
)
    requires
        before.wf(),
        single_pairs(between),
        inserted(before, a, id, level, between),
        inserted(before, b, id, level, between),
        a.rng == b.rng,
    ensures
        a == b,
{
    let top = lower(level, before.max_level) as int;
    assert forall|x: u32, layer: int| #[trigger]
        links(a.nodes, x as int, layer) == links(b.nodes, x as int, layer) by {
        if before.entry is None {
            lemma_first_links(before, a, b, id, level, between, x, layer);
        } else if layer > top {
            assert(links(a.nodes, x as int, layer) == links(before.nodes, x as int, layer));
            assert(links(b.nodes, x as int, layer) == links(before.nodes, x as int, layer));
        } else if layer >= 0 {
            let (f, p) = choose|first: u32, found: Map<int, Seq<Candidate>>| #[trigger]
                built(before, a, id, top, between, first, found);
            let (g, q) = choose|first: u32, found: Map<int, Seq<Candidate>>| #[trigger]
                built(before, b, id, top, between, first, found);
            let near = from_node(between, id);
            assert(single(near)) by {
                assert forall|y: u32, d: Float, e: Float| #[trigger] near(y, d) && #[trigger] near(
                    y,
                    e,
                ) implies d == e by {
                    assert(between(id, y, d) && between(id, y, e));
                }
            }
            lemma_descends_agree(
                layers_of(before.nodes),
                near,
                before.entry->0,
                before.max_level,
                top as nat,
                f,
                g,
            );
            lemma_found_agree(before, a, b, id, top, between, f, p, q, layer);
            assert(layer_built(before, a.nodes, id, layer, between, p[layer]));
            assert(layer_built(before, b.nodes, id, layer, between, q[layer]));
            lemma_layer_built_agree(before, a, b, id, layer, between, p[layer], x);
        }
    }
    assert forall|x: int| 0 <= x < a.nodes.len() implies a.nodes[x] == b.nodes[x] by {
        assert(a.nodes[x].len() == b.nodes[x].len()) by {
            if x < id {
                assert(a.nodes[x].len() == before.nodes[x].len());
                assert(b.nodes[x].len() == before.nodes[x].len());
            }
        }
        assert forall|l: int| 0 <= l < a.nodes[x].len() implies a.nodes[x][l] == b.nodes[x][l] by {
            assert(links(a.nodes, (x as u32) as int, l) == links(b.nodes, (x as u32) as int, l));
        }
        assert(a.nodes[x] =~= b.nodes[x]);
    }
    assert(a.nodes =~= b.nodes);
    assert(a =~= b);
}

proof fn lemma_first_links(
    before: Graph,
    a: Graph,
    b: Graph,
    id: u32,
    level: nat,
    between: Between,
    x: u32,
    layer: int,
)
    requires
        before.wf(),
        before.entry is None,
        inserted(before, a, id, level, between),
        inserted(before, b, id, level, between),
    ensures
        links(a.nodes, x as int, layer) == links(b.nodes, x as int, layer),
{
    if x == id {
        assert(links(a.nodes, id as int, layer) == Seq::<u32>::empty());
        assert(links(b.nodes, id as int, layer) == Seq::<u32>::empty());
    }
}

proof fn lemma_single_distances<A: Fn(Operation<'_>) -> Float>(arith: A, memory: Memory)
    requires
        float::deterministic(arith),
    ensures
        single_pairs(memory.distances(arith)),
        forall|q: Seq<Float>| single(#[trigger] memory.distances_to(arith, q)),
{
    let between = memory.distances(arith);
    assert forall|a: u32, b: u32, d: Float, e: Float| #[trigger] between(a, b, d)
        && #[trigger] between(a, b, e) implies d == e by {
        metric::law_deterministic_arithmetic_gives_deterministic_distances(
            arith,
            memory.metric,
            memory.vectors[a as int],
            memory.vectors[b as int],
        );
    }
    assert forall|q: Seq<Float>| single(#[trigger] memory.distances_to(arith, q)) by {
        let near = memory.distances_to(arith, q);
        assert forall|id: u32, d: Float, e: Float| #[trigger] near(id, d) && #[trigger] near(
            id,
            e,
        ) implies d == e by {
            metric::law_deterministic_arithmetic_gives_deterministic_distances(
                arith,
                memory.metric,
                q,
                memory.vectors[id as int],
            );
        }
    }
}

/// Adding a vector to an index comes out the same every time, down to the links of
/// the graph.
pub proof fn law_add_is_reproducible<
    A: Fn(Operation<'_>) -> Float,
    L: Fn(u64, u64, usize) -> u8,
>(
    arith: A,
    level_of: L,
    before: Memory,
    key: Seq<u8>,
    vec: Seq<Float>,
    a: Memory,
    b: Memory,
)
    requires
        float::deterministic(arith),
        single_level(level_of),
        before.wf(),
        added(arith, level_of, before, a, key, vec),
        added(arith, level_of, before, b, key, vec),
    ensures
        a == b,
{
    let (s, k) = choose|stored: Seq<Float>, level: nat| #[trigger]
        added_as(arith, level_of, before, a, key, vec, stored, level);
    let (t, l) = choose|stored: Seq<Float>, level: nat| #[trigger]
        added_as(arith, level_of, before, b, key, vec, stored, level);
    metric::law_deterministic_arithmetic_gives_deterministic_distances(
        arith,
        before.metric,
        vec,
        vec,
    );
    assert(s == t);
    assert(k == l);
    assert(a.distances(arith) == b.distances(arith));
    lemma_single_distances(arith, a);
    law_insertion_is_reproducible(
        before.graph,
        a.graph,
        b.graph,
        before.keys.len() as u32,
        k,
        a.distances(arith),
    );
    assert(a =~= b);
}

/// A search of an index comes out the same every time.
pub proof fn law_search_is_reproducible<A: Fn(Operation<'_>) -> Float>(
    arith: A,
    memory: Memory,
    query: Seq<Float>,
    k: nat,
    ef: nat,
    a: Seq<Hit>,
    b: Seq<Hit>,
)
    requires
        float::deterministic(arith),
        searched(arith, memory, query, k, ef, a),
        searched(arith, memory, query, k, ef, b),
    ensures
        a == b,
{
    if k == 0 {
        assert(a =~= b);
    } else {
        let (p, x) = choose|q: Seq<Float>, found: Seq<Candidate>| #[trigger]
            searched_as(arith, memory, query, k, ef, a, q, found);
        let (q, y) = choose|q: Seq<Float>, found: Seq<Candidate>| #[trigger]
            searched_as(arith, memory, query, k, ef, b, q, found);
        metric::law_deterministic_arithmetic_gives_deterministic_distances(
            arith,
            memory.metric,
            query,
            query,
        );
        assert(p == q);
        lemma_single_distances(arith, memory);
        law_graph_search_is_reproducible(
            memory.graph,
            memory.distances_to(arith, p),
            k,
            ef,
            x,
            y,
        );
    }
}

/// An exhaustive scan of an index comes out the same every time.
pub proof fn law_exact_search_is_reproducible<A: Fn(Operation<'_>) -> Float>(
    arith: A,
    memory: Memory,
    query: Seq<Float>,
    k: nat,
    a: Seq<Hit>,
    b: Seq<Hit>,
)
    requires
        float::deterministic(arith),
        searched_exactly(arith, memory, query, k, a),
        searched_exactly(arith, memory, query, k, b),
    ensures
        a == b,
{
    if k == 0 {
        assert(a =~= b);
    } else {
        let (p, x, s) = choose|q: Seq<Float>, all: Seq<Candidate>, sorted: Seq<Candidate>|
         #[trigger]
            searched_exactly_as(arith, memory, query, k, a, q, all, sorted);
        let (q, y, t) = choose|q: Seq<Float>, all: Seq<Candidate>, sorted: Seq<Candidate>|
         #[trigger]
            searched_exactly_as(arith, memory, query, k, b, q, all, sorted);
        metric::law_deterministic_arithmetic_gives_deterministic_distances(
            arith,
            memory.metric,
            query,
            query,
        );
        assert(p == q);
        lemma_single_distances(arith, memory);
        let near = memory.distances_to(arith, p);
        assert(x.len() == ids(x).len() && y.len() == ids(y).len());
        assert forall|i: int| 0 <= i < x.len() implies x[i] == y[i] by {
            assert(ids(x)[i] == ids(y)[i]);
            assert(x[i].id == y[i].id);
            assert(near(x[i].id, x[i].dist) && near(y[i].id, y[i].dist));
        }
        assert(x =~= y);
        law_stable_sort_is_reproducible(x, s, t);
    }
}

} // verus!
