//! Shortest paths in graphs with weights that are not negative.

use vstd::prelude::*;
use crate::ds::indexed_heap::IndexedMinHeap;

verus! {

/// The weighted edges of each node as sequences.
pub open spec fn weighted_view(adj: Seq<Vec<(usize, i64)>>) -> Seq<Seq<(usize, i64)>> {
    Seq::new(adj.len(), |u: int| adj[u]@)
}

/// Every edge leads to a node below `n` and has a weight that is not
/// negative.
pub open spec fn edges_sound(g: Seq<Seq<(usize, i64)>>, n: int) -> bool {
    forall|u: int, e: int|
        0 <= u < g.len() && 0 <= e < g[u].len() ==> (#[trigger] g[u][e]).0 < n && g[u][e].1 >= 0
}

/// A walk: from each node but the last, the edge picked leads to the next
/// node.
pub open spec fn is_route(g: Seq<Seq<(usize, i64)>>, nodes: Seq<int>, picks: Seq<int>) -> bool {
    &&& nodes.len() == picks.len() + 1
    &&& forall|i: int|
        0 <= i < picks.len() ==> 0 <= #[trigger] nodes[i] < g.len() && 0 <= picks[i]
            < g[nodes[i]].len() && g[nodes[i]][picks[i]].0 == nodes[i + 1]
}

/// The weight of the first `k` edges of a walk.
pub open spec fn route_weight(
    g: Seq<Seq<(usize, i64)>>,
    nodes: Seq<int>,
    picks: Seq<int>,
    k: int,
) -> int
    decreases k,
{
    if k <= 0 {
        0
    } else {
        route_weight(g, nodes, picks, k - 1) + g[nodes[k - 1]][picks[k - 1]].1
    }
}

/// Some walk from `start` to `v` has the weight `w`.
pub open spec fn route_to(g: Seq<Seq<(usize, i64)>>, start: int, v: int, w: int) -> bool {
    exists|nodes: Seq<int>, picks: Seq<int>|
        #[trigger] is_route(g, nodes, picks) && nodes[0] == start && nodes[picks.len() as int] == v
            && route_weight(g, nodes, picks, picks.len() as int) == w
}

/// The walk that stays at `start` has weight zero.
pub proof fn lemma_route_start(g: Seq<Seq<(usize, i64)>>, start: int)
    ensures
        route_to(g, start, start, 0),
{
    let nodes = seq![start];
    let picks = Seq::<int>::empty();
    assert(is_route(g, nodes, picks) && nodes[0] == start && nodes[picks.len() as int] == start
        && route_weight(g, nodes, picks, picks.len() as int) == 0);
}

/// The weight of a prefix does not depend on what follows it.
pub proof fn lemma_weight_prefix(
    g: Seq<Seq<(usize, i64)>>,
    nodes: Seq<int>,
    picks: Seq<int>,
    nodes2: Seq<int>,
    picks2: Seq<int>,
    k: int,
)
    requires
        0 <= k <= picks.len(),
        k <= picks2.len(),
        forall|i: int| 0 <= i < k ==> nodes[i] == nodes2[i] && picks[i] == picks2[i],
    ensures
        route_weight(g, nodes, picks, k) == route_weight(g, nodes2, picks2, k),
    decreases k,
{
    if k > 0 {
        lemma_weight_prefix(g, nodes, picks, nodes2, picks2, k - 1);
    }
}

/// A walk can be extended by an edge.
pub proof fn lemma_route_step(g: Seq<Seq<(usize, i64)>>, start: int, u: int, w: int, e: int)
    requires
        route_to(g, start, u, w),
        0 <= u < g.len(),
        0 <= e < g[u].len(),
    ensures
        route_to(g, start, g[u][e].0 as int, w + g[u][e].1),
{
    let (nodes, picks) = choose|nodes: Seq<int>, picks: Seq<int>|
        #[trigger] is_route(g, nodes, picks) && nodes[0] == start && nodes[picks.len() as int] == u
            && route_weight(g, nodes, picks, picks.len() as int) == w;
    let v = g[u][e].0 as int;
    let nodes2 = nodes.push(v);
    let picks2 = picks.push(e);
    lemma_weight_prefix(g, nodes, picks, nodes2, picks2, picks.len() as int);
    assert(is_route(g, nodes2, picks2));
    assert(nodes2[0] == start && nodes2[picks2.len() as int] == v && route_weight(
        g,
        nodes2,
        picks2,
        picks2.len() as int,
    ) == w + g[u][e].1);
}

/// Every edge from a node with a finite distance has been relaxed: the
/// distance of its end is at most the distance of the node plus the weight.
pub open spec fn relaxed_at(g: Seq<Seq<(usize, i64)>>, dist: Seq<i64>, u: int) -> bool {
    forall|e: int|
        0 <= e < g[u].len() ==> dist[(#[trigger] g[u][e]).0 as int] <= dist[u] + g[u][e].1
}

/// Where every edge has been relaxed, no walk is lighter than the distance
/// of its end.
pub proof fn lemma_relaxed_bound(
    g: Seq<Seq<(usize, i64)>>,
    dist: Seq<i64>,
    start: int,
    nodes: Seq<int>,
    picks: Seq<int>,
    k: int,
)
    requires
        dist.len() == g.len(),
        edges_sound(g, g.len() as int),
        0 <= start < g.len(),
        dist[start] <= 0,
        is_route(g, nodes, picks),
        nodes[0] == start,
        0 <= k <= picks.len(),
        forall|u: int| 0 <= u < g.len() && dist[u] < i64::MAX ==> relaxed_at(g, dist, u),
    ensures
        0 <= nodes[k] < g.len(),
        0 <= route_weight(g, nodes, picks, k),
        dist[nodes[k]] <= route_weight(g, nodes, picks, k),
    decreases k,
{
    if k > 0 {
        lemma_relaxed_bound(g, dist, start, nodes, picks, k - 1);
        let u = nodes[k - 1];
        let e = picks[k - 1];
        assert(g[u][e].0 == nodes[k] && g[u][e].0 < g.len() && g[u][e].1 >= 0);
        if dist[u] < i64::MAX {
            assert(relaxed_at(g, dist, u));
            assert(dist[g[u][e].0 as int] <= dist[u] + g[u][e].1);
        }
    }
}

/// The sum of the first `n` distances.
pub open spec fn distance_sum(dist: Seq<i64>, n: int) -> int
    decreases n,
{
    if n <= 0 {
        0
    } else {
        distance_sum(dist, n - 1) + dist[n - 1]
    }
}

/// Changing one distance changes the sum by the difference.
proof fn lemma_distance_sum_update(dist: Seq<i64>, v: int, d: i64, n: int)
    requires
        0 <= v < dist.len(),
        n <= dist.len(),
    ensures
        distance_sum(dist.update(v, d), n) == distance_sum(dist, n) + (if v < n {
            d - dist[v]
        } else {
            0
        }),
    decreases n,
{
    if n > 0 {
        lemma_distance_sum_update(dist, v, d, n - 1);
    }
}

/// A sum of distances that are not negative is not negative.
proof fn lemma_distance_sum_nonneg(dist: Seq<i64>, n: int)
    requires
        n <= dist.len(),
        forall|v: int| 0 <= v < dist.len() ==> dist[v] >= 0,
    ensures
        0 <= distance_sum(dist, n),
    decreases n,
{
    if n > 0 {
        lemma_distance_sum_nonneg(dist, n - 1);
    }
}

/// What holds of the distances and the predecessors while the search runs:
/// every finite distance is the weight of a walk, every node with a finite
/// distance that is not waiting has its edges relaxed, and every
/// predecessor accounts for the distance of its successor or more.
pub open spec fn search_inv(
    g: Seq<Seq<(usize, i64)>>,
    start: int,
    dist: Seq<i64>,
    prev: Seq<Option<usize>>,
    waiting: Map<int, i64>,
) -> bool {
    &&& dist.len() == g.len()
    &&& prev.len() == g.len()
    &&& 0 <= start < g.len()
    &&& dist[start] == 0
    &&& prev[start] is None
    &&& forall|v: int| 0 <= v < g.len() ==> #[trigger] dist[v] >= 0
    &&& forall|v: int|
        0 <= v < g.len() && #[trigger] dist[v] < i64::MAX ==> route_to(g, start, v, dist[v] as int)
    &&& forall|u: int|
        0 <= u < g.len() && dist[u] < i64::MAX && !waiting.contains_key(u) ==> #[trigger] relaxed_at(
            g,
            dist,
            u,
        )
    &&& forall|v: int|
        0 <= v < g.len() && (#[trigger] prev[v]) is Some ==> accounted(g, dist, prev[v]->0 as int, v)
}

/// Some edge from `u` to `v` is no heavier than the distance of `v` less the
/// distance of `u`, which is finite.
pub open spec fn accounted(g: Seq<Seq<(usize, i64)>>, dist: Seq<i64>, u: int, v: int) -> bool {
    &&& 0 <= u < g.len()
    &&& dist[u] < i64::MAX
    &&& exists|e: int|
        0 <= e < g[u].len() && (#[trigger] g[u][e]).0 == v && dist[v] >= dist[u] + g[u][e].1
}

/// Relaxing the edge `e` of `u`, where that lowers the distance of its end,
/// keeps what holds while the search runs.
proof fn lemma_relax(
    g: Seq<Seq<(usize, i64)>>,
    start: int,
    dist: Seq<i64>,
    prev: Seq<Option<usize>>,
    waiting: Map<int, i64>,
    u: usize,
    e: int,
)
    requires
        search_inv(g, start, dist, prev, waiting),
        edges_sound(g, g.len() as int),
        0 <= u < g.len(),
        0 <= e < g[u as int].len(),
        dist[u as int] < i64::MAX,
        dist[u as int] + g[u as int][e].1 < dist[g[u as int][e].0 as int],
    ensures
        search_inv(
            g,
            start,
            dist.update(g[u as int][e].0 as int, (dist[u as int] + g[u as int][e].1) as i64),
            prev.update(g[u as int][e].0 as int, Some(u)),
            waiting.insert(g[u as int][e].0 as int, (dist[u as int] + g[u as int][e].1) as i64),
        ),
{
    let v = g[u as int][e].0 as int;
    let d = (dist[u as int] + g[u as int][e].1) as i64;
    let dist2 = dist.update(v, d);
    let prev2 = prev.update(v, Some(u));
    let waiting2 = waiting.insert(v, d);
    assert(g[u as int][e].0 < g.len() && g[u as int][e].1 >= 0);
    assert(v != u);
    assert(v != start) by {
        if v == start {
            assert(dist[u as int] >= 0);
        }
    }
    lemma_route_step(g, start, u as int, dist[u as int] as int, e);
    assert forall|x: int|
        0 <= x < g.len() && dist2[x] < i64::MAX && !waiting2.contains_key(x) implies #[trigger] relaxed_at(
        g,
        dist2,
        x,
    ) by {
        assert(relaxed_at(g, dist, x));
        assert forall|k: int| 0 <= k < g[x].len() implies dist2[(#[trigger] g[x][k]).0 as int]
            <= dist2[x] + g[x][k].1 by {
            assert(dist[g[x][k].0 as int] <= dist[x] + g[x][k].1);
            assert(g[x][k].0 < g.len());
        }
    }
    assert forall|y: int| 0 <= y < g.len() && (#[trigger] prev2[y]) is Some implies accounted(
        g,
        dist2,
        prev2[y]->0 as int,
        y,
    ) by {
        if y == v {
            assert(g[u as int][e].0 == v && dist2[v] >= dist2[u as int] + g[u as int][e].1);
        } else {
            let x = prev[y]->0 as int;
            assert(accounted(g, dist, x, y));
            let k = choose|k: int|
                0 <= k < g[x].len() && (#[trigger] g[x][k]).0 == y && dist[y] >= dist[x]
                    + g[x][k].1;
            assert(g[x][k].0 == y && dist2[y] >= dist2[x] + g[x][k].1);
        }
    }
}

/// When no node is waiting, every distance is the least weight of a walk,
/// and every predecessor accounts exactly for the distance of its
/// successor.
proof fn lemma_search_done(
    g: Seq<Seq<(usize, i64)>>,
    start: int,
    dist: Seq<i64>,
    prev: Seq<Option<usize>>,
)
    requires
        search_inv(g, start, dist, prev, Map::empty()),
        edges_sound(g, g.len() as int),
    ensures
        forall|v: int, w: int|
            0 <= v < g.len() && #[trigger] route_to(g, start, v, w) ==> dist[v] <= w,
        forall|v: int|
            0 <= v < g.len() && (#[trigger] prev[v]) is Some ==> exact(g, dist, prev[v]->0 as int, v),
{
    assert forall|u: int| 0 <= u < g.len() && dist[u] < i64::MAX implies relaxed_at(g, dist, u) by {
        assert(!Map::<int, i64>::empty().contains_key(u));
    }
    assert forall|v: int, w: int|
        0 <= v < g.len() && #[trigger] route_to(g, start, v, w) implies dist[v] <= w by {
        let (nodes, picks) = choose|nodes: Seq<int>, picks: Seq<int>|
            #[trigger] is_route(g, nodes, picks) && nodes[0] == start && nodes[picks.len() as int]
                == v && route_weight(g, nodes, picks, picks.len() as int) == w;
        lemma_relaxed_bound(g, dist, start, nodes, picks, picks.len() as int);
    }
    assert forall|v: int| 0 <= v < g.len() && (#[trigger] prev[v]) is Some implies exact(
        g,
        dist,
        prev[v]->0 as int,
        v,
    ) by {
        let u = prev[v]->0 as int;
        assert(accounted(g, dist, u, v));
        let e = choose|e: int|
            0 <= e < g[u].len() && (#[trigger] g[u][e]).0 == v && dist[v] >= dist[u] + g[u][e].1;
        assert(relaxed_at(g, dist, u));
        assert(dist[g[u][e].0 as int] <= dist[u] + g[u][e].1);
        assert(g[u][e].0 == v && dist[v] == dist[u] + g[u][e].1);
    }
}

/// Some edge from `u` to `v` makes up exactly the difference of their
/// distances, which are finite.
pub open spec fn exact(g: Seq<Seq<(usize, i64)>>, dist: Seq<i64>, u: int, v: int) -> bool {
    &&& 0 <= u < g.len()
    &&& dist[u] < i64::MAX
    &&& exists|e: int|
        0 <= e < g[u].len() && (#[trigger] g[u][e]).0 == v && dist[v] == dist[u] + g[u][e].1
}

/// For every node the least weight of a walk from `start`, and the node
/// before it on a lightest walk.
///
/// A node that no walk reaches keeps the distance `i64::MAX`, and the start
/// has no predecessor. Weights must not be negative.
pub fn dijkstra_indexed(n: usize, adj_w: &Vec<Vec<(usize, i64)>>, start: usize) -> (found: (
    Vec<i64>,
    Vec<Option<usize>>,
))
    requires
        adj_w@.len() == n,
        start < n,
        edges_sound(weighted_view(adj_w@), n as int),
    ensures
        found.0@.len() == n,
        found.1@.len() == n,
        found.0@[start as int] == 0,
        found.1@[start as int] is None,
        forall|v: int|
            0 <= v < n && #[trigger] found.0@[v] < i64::MAX ==> route_to(
                weighted_view(adj_w@),
                start as int,
                v,
                found.0@[v] as int,
            ),
        forall|v: int, w: int|
            0 <= v < n && #[trigger] route_to(weighted_view(adj_w@), start as int, v, w)
                ==> found.0@[v] <= w,
        forall|v: int|
            0 <= v < n && (#[trigger] found.1@[v]) is Some ==> exact(
                weighted_view(adj_w@),
                found.0@,
                found.1@[v]->0 as int,
                v,
            ),
{
    let ghost g = weighted_view(adj_w@);
    let mut dist: Vec<i64> = vec![i64::MAX; n];
    let mut prev: Vec<Option<usize>> = vec![None; n];
    dist[start] = 0;
    let mut pq = IndexedMinHeap::with_items(n);
    pq.set(start, 0);
    proof {
        lemma_route_start(g, start as int);
        assert(search_inv(g, start as int, dist@, prev@, pq@));
    }
    loop
        invariant
            g == weighted_view(adj_w@),
            adj_w@.len() == n,
            start < n,
            edges_sound(g, n as int),
            pq.wf(),
            pq.capacity() == n,
            search_inv(g, start as int, dist@, prev@, pq@),
        ensures
            search_inv(g, start as int, dist@, prev@, Map::empty()),
        decreases distance_sum(dist@, n as int), pq@.dom().len(),
    {
        let ghost dist0 = dist@;
        let ghost pq0 = pq@;
        proof {
            pq.lemma_members();
            lemma_distance_sum_nonneg(dist@, n as int);
        }
        let (u, _) = match pq.pop_min() {
            None => {
                break;
            },
            Some(entry) => entry,
        };
        let ghost popped = pq@;
        proof {
            assert(pq0.contains_key(u as int));
            assert(popped.dom() =~= pq0.dom().remove(u as int));
            assert(popped.insert(u as int, pq0[u as int]) =~= pq0);
        }
        let du = dist[u];
        let edges = &adj_w[u];
        assert(g[u as int] == edges@);
        let ghost key = pq0[u as int];
        for e in 0..edges.len()
            invariant
                g == weighted_view(adj_w@),
                adj_w@.len() == n,
                start < n,
                u < n,
                edges_sound(g, n as int),
                edges@ == g[u as int],
                pq.wf(),
                pq.capacity() == n,
                dist0.len() == n,
                !pq@.contains_key(u as int),
                dist@[u as int] == du,
                search_inv(g, start as int, dist@, prev@, pq@.insert(u as int, key)),
                forall|k: int|
                    0 <= k < e ==> dist@[(#[trigger] g[u as int][k]).0 as int] <= du + g[u as int][k].1,
                distance_sum(dist@, n as int) < distance_sum(dist0, n as int) || (dist@ == dist0
                    && pq@ == popped),
        {
            let (v, w) = edges[e];
            assert(g[u as int][e as int] == (v, w));
            assert(g[u as int][e as int].0 < n && g[u as int][e as int].1 >= 0);
            if du != i64::MAX && (du as i128) + (w as i128) < dist[v] as i128 {
                let ghost dist1 = dist@;
                let ghost prev1 = prev@;
                let ghost pq1 = pq@;
                let d = du + w;
                proof {
                    lemma_relax(
                        g,
                        start as int,
                        dist1,
                        prev1,
                        pq1.insert(u as int, key),
                        u,
                        e as int,
                    );
                    lemma_distance_sum_update(dist1, v as int, d, n as int);
                }
                dist[v] = d;
                prev[v] = Some(u);
                pq.set(v, d);
                proof {
                    assert(v != u);
                    assert(pq@.insert(u as int, key) =~= pq1.insert(u as int, key).insert(
                        v as int,
                        d,
                    ));
                    assert forall|k: int| 0 <= k < e + 1 implies dist@[(#[trigger] g[u as int][k]).0 as int]
                        <= du + g[u as int][k].1 by {
                        if k < e {
                            assert(dist1[g[u as int][k].0 as int] <= du + g[u as int][k].1);
                        }
                    }
                }
            }
        }
        proof {
            let waiting = pq@.insert(u as int, key);
            assert(relaxed_at(g, dist@, u as int));
            assert forall|x: int|
                0 <= x < g.len() && dist@[x] < i64::MAX && !pq@.contains_key(
                    x,
                ) implies #[trigger] relaxed_at(g, dist@, x) by {
                if x != u {
                    assert(!waiting.contains_key(x));
                }
            }
            pq.lemma_members();
            lemma_distance_sum_nonneg(dist@, n as int);
            if dist@ == dist0 && pq@ == popped {
                vstd::set_lib::lemma_len_subset(popped.dom(), pq0.dom());
                assert(popped.dom().len() < pq0.dom().len()) by {
                    popped.dom().lemma_subset_not_in_lt(pq0.dom(), u as int);
                }
            }
        }
    }
    proof {
        lemma_search_done(g, start as int, dist@, prev@);
    }
    (dist, prev)
}

} // verus!
