//! Searches over graphs whose nodes are numbered from zero.

use vstd::prelude::*;

verus! {

/// The neighbours of each node as sequences.
pub open spec fn graph_view(adj: Seq<Vec<usize>>) -> Seq<Seq<usize>> {
    Seq::new(adj.len(), |u: int| adj[u]@)
}

/// Every edge leads to a node below `n`.
pub open spec fn edges_below(adj: Seq<Seq<usize>>, n: int) -> bool {
    forall|u: int, i: int| 0 <= u < adj.len() && 0 <= i < adj[u].len() ==> #[trigger] adj[u][i] < n
}

/// There is an edge from `u` to `v`.
pub open spec fn has_edge(adj: Seq<Seq<usize>>, u: int, v: int) -> bool {
    0 <= u < adj.len() && exists|i: int| 0 <= i < adj[u].len() && #[trigger] adj[u][i] == v
}

/// Each node of the walk has an edge to the next.
pub open spec fn is_walk(adj: Seq<Seq<usize>>, walk: Seq<int>) -> bool {
    forall|i: int| 0 <= i < walk.len() - 1 ==> has_edge(adj, #[trigger] walk[i], walk[i + 1])
}

/// Some walk of exactly `d` edges leads from `start` to `v`.
pub open spec fn reach_in(adj: Seq<Seq<usize>>, start: int, v: int, d: int) -> bool {
    exists|walk: Seq<int>|
        walk.len() == d + 1 && walk[0] == start && walk[d] == v && #[trigger] is_walk(adj, walk)
}

/// Some walk of at most `d` edges leads from `start` to `v`.
pub open spec fn reach_within(adj: Seq<Seq<usize>>, start: int, v: int, d: int) -> bool {
    exists|k: int| 0 <= k <= d && #[trigger] reach_in(adj, start, v, k)
}

/// Without an edge a walk stays at its start.
pub proof fn lemma_reach_zero(adj: Seq<Seq<usize>>, start: int, v: int)
    ensures
        reach_in(adj, start, v, 0) <==> v == start,
{
    if v == start {
        let walk = seq![start];
        assert(walk.len() == 1 && walk[0] == start && walk[0] == v && is_walk(adj, walk));
    }
}

/// A walk can be extended by an edge.
pub proof fn lemma_reach_step(adj: Seq<Seq<usize>>, start: int, u: int, v: int, d: int)
    requires
        0 <= d,
        reach_in(adj, start, u, d),
        has_edge(adj, u, v),
    ensures
        reach_in(adj, start, v, d + 1),
{
    let walk = choose|walk: Seq<int>|
        walk.len() == d + 1 && walk[0] == start && walk[d] == u && #[trigger] is_walk(adj, walk);
    let more = walk.push(v);
    assert forall|i: int| 0 <= i < more.len() - 1 implies has_edge(
        adj,
        #[trigger] more[i],
        more[i + 1],
    ) by {
        if i < d {
            assert(has_edge(adj, walk[i], walk[i + 1]));
        }
    }
    assert(more.len() == d + 2 && more[0] == start && more[d + 1] == v && is_walk(adj, more));
}

/// A walk of `d > 0` edges ends with an edge from a node reached in `d - 1`.
pub proof fn lemma_reach_unstep(adj: Seq<Seq<usize>>, start: int, v: int, d: int) -> (u: int)
    requires
        d > 0,
        reach_in(adj, start, v, d),
    ensures
        reach_in(adj, start, u, d - 1),
        has_edge(adj, u, v),
{
    let walk = choose|walk: Seq<int>|
        walk.len() == d + 1 && walk[0] == start && walk[d] == v && #[trigger] is_walk(adj, walk);
    let fewer = walk.drop_last();
    assert forall|i: int| 0 <= i < fewer.len() - 1 implies has_edge(
        adj,
        #[trigger] fewer[i],
        fewer[i + 1],
    ) by {
        assert(has_edge(adj, walk[i], walk[i + 1]));
    }
    assert(fewer.len() == d && fewer[0] == start && fewer[d - 1] == walk[d - 1] && is_walk(
        adj,
        fewer,
    ));
    assert(has_edge(adj, walk[d - 1], walk[d - 1 + 1]));
    walk[d - 1]
}

/// When one more edge reaches nothing new, no number of edges does.
pub proof fn lemma_reach_closed(adj: Seq<Seq<usize>>, start: int, d: int, v: int, k: int)
    requires
        0 <= d,
        0 <= k,
        forall|w: int| #[trigger]
            reach_within(adj, start, w, d + 1) ==> reach_within(adj, start, w, d),
        reach_in(adj, start, v, k),
    ensures
        reach_within(adj, start, v, d),
    decreases k,
{
    if k <= d {
        assert(reach_in(adj, start, v, k));
    } else {
        let u = lemma_reach_unstep(adj, start, v, k);
        lemma_reach_closed(adj, start, d, u, k - 1);
        let j = choose|j: int| 0 <= j <= d && #[trigger] reach_in(adj, start, u, j);
        lemma_reach_step(adj, start, u, v, j);
        assert(reach_in(adj, start, v, j + 1));
        assert(reach_within(adj, start, v, d + 1));
    }
}

/// The distance kept for `v` is right: the least number of edges on a walk
/// from `start`, and -1 for a node that no walk of at most `d` edges
/// reaches.
pub open spec fn distance_right(adj: Seq<Seq<usize>>, start: int, v: int, kept: i64, d: int) -> bool {
    if kept == -1 {
        !reach_within(adj, start, v, d)
    } else {
        0 <= kept <= d && reach_in(adj, start, v, kept as int) && !reach_within(
            adj,
            start,
            v,
            kept - 1,
        )
    }
}

/// Every node of the frontier has the distance `level`.
pub open spec fn frontier_ok(frontier: Seq<usize>, dist: Seq<i64>, level: int, n: int) -> bool {
    forall|k: int|
        0 <= k < frontier.len() ==> (#[trigger] frontier[k]) < n && dist[frontier[k] as int]
            == level
}

/// What expanding a level has done so far: the distances that were there are
/// unchanged, and every node that got one got `level + 1`, is reached by a
/// walk of that many edges, and is listed in `next`.
pub open spec fn grown(
    g: Seq<Seq<usize>>,
    start: int,
    before: Seq<i64>,
    dist: Seq<i64>,
    next: Seq<usize>,
    level: int,
    n: int,
) -> bool {
    &&& forall|v: int| 0 <= v < n && before[v] != -1 ==> #[trigger] dist[v] == before[v]
    &&& forall|v: int|
        0 <= v < n && before[v] == -1 && #[trigger] dist[v] != -1 ==> dist[v] == level + 1
            && reach_in(g, start, v, level + 1) && next.contains(v as usize)
    &&& forall|k: int|
        0 <= k < next.len() ==> (#[trigger] next[k]) < n && before[next[k] as int] == -1
            && dist[next[k] as int] == level + 1
}

/// The end of every edge from the first `i` nodes of the frontier has a
/// distance.
pub open spec fn expanded(g: Seq<Seq<usize>>, frontier: Seq<usize>, dist: Seq<i64>, i: int) -> bool {
    forall|p: int, q: int|
        0 <= p < i && 0 <= q < g[frontier[p] as int].len() ==> dist[(#[trigger] g[frontier[p] as int][q]) as int]
            != -1
}

/// Gives the ends of the edges of `u` that have no distance yet the distance
/// `level + 1`, and lists them in `next`.
fn expand_node(
    adj: &Vec<Vec<usize>>,
    u: usize,
    level: usize,
    dist: &mut Vec<i64>,
    next: &mut Vec<usize>,
    seen: &mut usize,
    Ghost(start): Ghost<int>,
    Ghost(before): Ghost<Seq<i64>>,
)
    requires
        u < adj@.len(),
        old(dist)@.len() == adj@.len(),
        before.len() == adj@.len(),
        adj@.len() <= i64::MAX,
        level < adj@.len(),
        edges_below(graph_view(adj@), adj@.len() as int),
        before[u as int] == level,
        distance_right(graph_view(adj@), start, u as int, before[u as int], level as int),
        grown(
            graph_view(adj@),
            start,
            before,
            old(dist)@,
            old(next)@,
            level as int,
            adj@.len() as int,
        ),
        *old(seen) == count_seen(old(dist)@, adj@.len() as int),
    ensures
        final(dist)@.len() == adj@.len(),
        grown(
            graph_view(adj@),
            start,
            before,
            final(dist)@,
            final(next)@,
            level as int,
            adj@.len() as int,
        ),
        *final(seen) == count_seen(final(dist)@, adj@.len() as int),
        forall|x: int| 0 <= x < adj@.len() && old(dist)@[x] != -1 ==> final(dist)@[x] != -1,
        forall|q: int|
            0 <= q < adj@[u as int]@.len() ==> final(dist)@[(#[trigger] adj@[u as int]@[q]) as int]
                != -1,
{
    let ghost g = graph_view(adj@);
    let n = adj.len();
    let edges = &adj[u];
    assert(g[u as int] == edges@);
    for e in 0..edges.len()
        invariant
            g == graph_view(adj@),
            n == adj@.len(),
            n <= i64::MAX,
            level < n,
            u < n,
            edges@ == g[u as int],
            dist@.len() == n,
            before.len() == n,
            edges_below(g, n as int),
            before[u as int] == level,
            distance_right(g, start, u as int, before[u as int], level as int),
            grown(g, start, before, dist@, next@, level as int, n as int),
            *seen == count_seen(dist@, n as int),
            forall|x: int| 0 <= x < n && old(dist)@[x] != -1 ==> dist@[x] != -1,
            forall|q: int| 0 <= q < e ==> dist@[(#[trigger] edges@[q]) as int] != -1,
    {
        let v = edges[e];
        assert(g[u as int][e as int] < n);
        if dist[v] == -1 {
            let ghost cur = dist@;
            let ghost listed = next@;
            proof {
                assert(has_edge(g, u as int, v as int)) by {
                    assert(g[u as int][e as int] == v);
                }
                lemma_reach_step(g, start, u as int, v as int, level as int);
                lemma_count_seen_set(cur, v as int, (level + 1) as i64, n as int);
                lemma_count_seen_bound(cur.update(v as int, (level + 1) as i64), n as int);
            }
            dist[v] = (level + 1) as i64;
            next.push(v);
            *seen = *seen + 1;
            proof {
                assert(next@[listed.len() as int] == v);
                assert forall|w: int|
                    0 <= w < n && before[w] == -1 && #[trigger] dist@[w] != -1 implies dist@[w]
                    == level + 1 && reach_in(g, start, w, level + 1) && next@.contains(
                    w as usize,
                ) by {
                    if w != v {
                        assert(cur[w] != -1);
                        assert(listed.contains(w as usize));
                        let k = choose|k: int| 0 <= k < listed.len() && listed[k] == w as usize;
                        assert(next@[k] == w as usize);
                    }
                }
                assert forall|k: int| 0 <= k < next@.len() implies (#[trigger] next@[k]) < n
                    && before[next@[k] as int] == -1 && dist@[next@[k] as int] == level + 1 by {
                    if k < listed.len() {
                        assert(listed[k] < n && before[listed[k] as int] == -1 && cur[listed[k] as int]
                            == level + 1);
                    }
                }
                assert forall|q: int| 0 <= q < e + 1 implies dist@[(#[trigger] edges@[q]) as int]
                    != -1 by {
                    if q < e {
                        assert(cur[edges@[q] as int] != -1);
                    }
                }
            }
        }
    }
}

/// For every node the least number of edges on a walk from `start`, and -1
/// for the nodes that no walk reaches.
pub fn bfs_distances(n: usize, adj: &Vec<Vec<usize>>, start: usize) -> (dist: Vec<i64>)
    requires
        adj@.len() == n,
        start < n,
        n <= i64::MAX,
        edges_below(graph_view(adj@), n as int),
    ensures
        dist@.len() == n,
        forall|v: int|
            0 <= v < n ==> if #[trigger] dist@[v] == -1 {
                forall|k: int| 0 <= k ==> !reach_in(graph_view(adj@), start as int, v, k)
            } else {
                0 <= dist@[v] && reach_in(graph_view(adj@), start as int, v, dist@[v] as int)
                    && !reach_within(graph_view(adj@), start as int, v, dist@[v] - 1)
            },
{
    let ghost g = graph_view(adj@);
    let mut dist: Vec<i64> = vec![-1i64; n];
    let ghost blank = dist@;
    dist[start] = 0;
    let mut frontier: Vec<usize> = Vec::new();
    frontier.push(start);
    let mut level: usize = 0;
    let mut seen: usize = 1;
    proof {
        assert forall|v: int| 0 <= v < n implies distance_right(
            g,
            start as int,
            v,
            #[trigger] dist@[v],
            0,
        ) by {
            lemma_reach_zero(g, start as int, v);
            if reach_within(g, start as int, v, 0) {
                let k = choose|k: int| 0 <= k <= 0 && #[trigger] reach_in(g, start as int, v, k);
            }
        }
        assert(frontier@[0] == start);
        lemma_count_seen_blank(blank, n as int);
        lemma_count_seen_set(blank, start as int, 0, n as int);
    }
    loop
        invariant
            g == graph_view(adj@),
            adj@.len() == n,
            n <= i64::MAX,
            edges_below(g, n as int),
            dist@.len() == n,
            level < seen <= n,
            forall|v: int|
                0 <= v < n ==> distance_right(g, start as int, v, #[trigger] dist@[v], level as int),
            frontier_ok(frontier@, dist@, level as int, n as int),
            forall|v: int| 0 <= v < n && #[trigger] dist@[v] == level ==> frontier@.contains(v as usize),
            seen == count_seen(dist@, n as int),
        ensures
            dist@.len() == n,
            forall|v: int|
                0 <= v < n ==> distance_right(g, start as int, v, #[trigger] dist@[v], level as int),
            forall|w: int| #[trigger]
                reach_within(g, start as int, w, level + 1) ==> reach_within(
                    g,
                    start as int,
                    w,
                    level as int,
                ),
        decreases n - seen,
    {
        let ghost before = dist@;
        let mut next: Vec<usize> = Vec::new();
        for i in 0..frontier.len()
            invariant
                g == graph_view(adj@),
                adj@.len() == n,
                n <= i64::MAX,
                edges_below(g, n as int),
                dist@.len() == n,
                before.len() == n,
                level < n,
                seen == count_seen(dist@, n as int),
                frontier_ok(frontier@, before, level as int, n as int),
                forall|v: int|
                    0 <= v < n ==> distance_right(g, start as int, v, #[trigger] before[v], level as int),
                grown(g, start as int, before, dist@, next@, level as int, n as int),
                expanded(g, frontier@, dist@, i as int),
        {
            let u = frontier[i];
            let ghost cur = dist@;
            assert(frontier@[i as int] < n && before[frontier@[i as int] as int] == level);
            expand_node(adj, u, level, &mut dist, &mut next, &mut seen, Ghost(start as int), Ghost(before));
            proof {
                assert forall|p: int, q: int|
                    0 <= p < i + 1 && 0 <= q < g[frontier@[p] as int].len() implies dist@[(
                #[trigger] g[frontier@[p] as int][q]) as int] != -1 by {
                    assert(frontier@[p] < n);
                    assert(g[frontier@[p] as int] == adj@[frontier@[p] as int]@);
                    if p < i {
                        assert(cur[g[frontier@[p] as int][q] as int] != -1);
                        assert(g[frontier@[p] as int][q] < n);
                    } else {
                        assert(dist@[adj@[u as int]@[q] as int] != -1);
                    }
                }
            }
        }
        proof {
            lemma_count_seen_bound(dist@, n as int);
        }
        if next.len() == 0 {
            proof {
                assert(dist@ =~= before);
                assert forall|w: int| #[trigger]
                    reach_within(g, start as int, w, level + 1) implies reach_within(
                    g,
                    start as int,
                    w,
                    level as int,
                ) by {
                    if !reach_within(g, start as int, w, level as int) {
                        let k = choose|k: int|
                            0 <= k <= level + 1 && #[trigger] reach_in(g, start as int, w, k);
                        assert(k == level + 1);
                        let u = lemma_reach_unstep(g, start as int, w, level + 1);
                        lemma_last_edge(
                            g,
                            start as int,
                            u,
                            w,
                            level as int,
                            n as int,
                            before,
                            frontier@,
                            dist@,
                        );
                        assert(distance_right(g, start as int, w, before[w], level as int));
                    }
                }
            }
            break;
        }
        proof {
            assert(next@[0] < n && before[next@[0] as int] == -1 && dist@[next@[0] as int] == level
                + 1);
            assert forall|v: int| 0 <= v < n implies distance_right(
                g,
                start as int,
                v,
                #[trigger] dist@[v],
                level + 1,
            ) by {
                assert(distance_right(g, start as int, v, before[v], level as int));
                if before[v] != -1 {
                    assert(dist@[v] == before[v]);
                } else if dist@[v] != -1 {
                } else {
                    if reach_within(g, start as int, v, level + 1) {
                        let k = choose|k: int|
                            0 <= k <= level + 1 && #[trigger] reach_in(g, start as int, v, k);
                        if k <= level {
                            assert(reach_within(g, start as int, v, level as int));
                        }
                        let u = lemma_reach_unstep(g, start as int, v, level + 1);
                        lemma_last_edge(
                            g,
                            start as int,
                            u,
                            v,
                            level as int,
                            n as int,
                            before,
                            frontier@,
                            dist@,
                        );
                    }
                }
            }
            assert forall|v: int| 0 <= v < n && #[trigger] dist@[v] == level + 1 implies next@.contains(
                v as usize,
            ) by {
                assert(distance_right(g, start as int, v, before[v], level as int));
            }
            assert(frontier_ok(next@, dist@, level + 1, n as int));
            lemma_level_below_seen(dist@, n as int, level as int, seen as int, before);
            lemma_count_seen_more(before, dist@, n as int, next@[0] as int);
        }
        frontier = next;
        level = level + 1;
    }
    proof {
        assert forall|v: int| 0 <= v < n implies if #[trigger] dist@[v] == -1 {
            forall|k: int| 0 <= k ==> !reach_in(g, start as int, v, k)
        } else {
            0 <= dist@[v] && reach_in(g, start as int, v, dist@[v] as int) && !reach_within(
                g,
                start as int,
                v,
                dist@[v] - 1,
            )
        } by {
            assert(distance_right(g, start as int, v, dist@[v], level as int));
            if dist@[v] == -1 {
                assert forall|k: int| 0 <= k implies !reach_in(g, start as int, v, k) by {
                    if reach_in(g, start as int, v, k) {
                        lemma_reach_closed(g, start as int, level as int, v, k);
                    }
                }
            }
        }
    }
    dist
}

/// The number of nodes below `n` with a distance.
pub open spec fn count_seen(dist: Seq<i64>, n: int) -> int
    decreases n,
{
    if n <= 0 {
        0
    } else {
        count_seen(dist, n - 1) + if dist[n - 1] != -1 {
            1int
        } else {
            0int
        }
    }
}

/// Giving a node without a distance one raises the count by one.
proof fn lemma_count_seen_set(dist: Seq<i64>, v: int, d: i64, n: int)
    requires
        0 <= v < dist.len(),
        n <= dist.len(),
        dist[v] == -1,
        d != -1,
    ensures
        count_seen(dist.update(v, d), n) == count_seen(dist, n) + (if v < n {
            1int
        } else {
            0int
        }),
    decreases n,
{
    if n > 0 {
        lemma_count_seen_set(dist, v, d, n - 1);
    }
}

/// Without a distance anywhere the count is zero.
proof fn lemma_count_seen_blank(dist: Seq<i64>, n: int)
    requires
        n <= dist.len(),
        forall|v: int| 0 <= v < n ==> dist[v] == -1,
    ensures
        count_seen(dist, n) == 0,
    decreases n,
{
    if n > 0 {
        lemma_count_seen_blank(dist, n - 1);
    }
}

/// A count can only grow where distances are kept.
proof fn lemma_count_seen_mono(before: Seq<i64>, dist: Seq<i64>, n: int)
    requires
        n <= dist.len(),
        n <= before.len(),
        forall|v: int| 0 <= v < n && before[v] != -1 ==> dist[v] != -1,
    ensures
        count_seen(before, n) <= count_seen(dist, n),
    decreases n,
{
    if n > 0 {
        lemma_count_seen_mono(before, dist, n - 1);
    }
}

/// Where a level gave a node its first distance, the count is above the
/// count before.
proof fn lemma_count_seen_more(before: Seq<i64>, dist: Seq<i64>, n: int, v: int)
    requires
        n <= dist.len(),
        n <= before.len(),
        0 <= v < n,
        before[v] == -1,
        dist[v] != -1,
        forall|w: int| 0 <= w < n && before[w] != -1 ==> dist[w] != -1,
    ensures
        count_seen(before, n) < count_seen(dist, n),
    decreases n,
{
    if v == n - 1 {
        lemma_count_seen_mono(before, dist, n - 1);
    } else {
        lemma_count_seen_more(before, dist, n - 1, v);
    }
}

/// There are at most `n` nodes with a distance.
proof fn lemma_count_seen_bound(dist: Seq<i64>, n: int)
    requires
        0 <= n,
    ensures
        0 <= count_seen(dist, n) <= n,
    decreases n,
{
    if n > 0 {
        lemma_count_seen_bound(dist, n - 1);
    }
}

/// The level stays below the number of nodes with a distance.
proof fn lemma_level_below_seen(dist: Seq<i64>, n: int, level: int, seen: int, before: Seq<i64>)
    requires
        n == dist.len(),
        n == before.len(),
        seen == count_seen(dist, n),
        level < count_seen(before, n),
        exists|v: int| 0 <= v < n && before[v] == -1 && dist[v] != -1,
        forall|w: int| 0 <= w < n && before[w] != -1 ==> dist[w] != -1,
    ensures
        level + 1 < seen,
{
    let v = choose|v: int| 0 <= v < n && before[v] == -1 && dist[v] != -1;
    lemma_count_seen_more(before, dist, n, v);
}

/// After a level has been expanded, the end of every edge from a node first
/// reached at that level has a distance.
proof fn lemma_last_edge(
    g: Seq<Seq<usize>>,
    start: int,
    u: int,
    w: int,
    level: int,
    n: int,
    before: Seq<i64>,
    frontier: Seq<usize>,
    dist: Seq<i64>,
)
    requires
        0 <= level,
        g.len() == n,
        before.len() == n,
        dist.len() == n,
        edges_below(g, n),
        reach_in(g, start, u, level),
        has_edge(g, u, w),
        !reach_within(g, start, w, level),
        forall|v: int| 0 <= v < n ==> distance_right(g, start, v, #[trigger] before[v], level),
        forall|v: int| 0 <= v < n && #[trigger] before[v] == level ==> frontier.contains(v as usize),
        expanded(g, frontier, dist, frontier.len() as int),
        forall|k: int| 0 <= k < frontier.len() ==> (#[trigger] frontier[k]) < n,
        n <= usize::MAX,
    ensures
        0 <= w < n,
        dist[w] != -1,
{
    assert(0 <= u < n);
    let e = choose|e: int| 0 <= e < g[u].len() && #[trigger] g[u][e] == w;
    assert(g[u][e] < n);
    assert(distance_right(g, start, u, before[u], level));
    assert(reach_within(g, start, u, level));
    if before[u] != level {
        assert(reach_in(g, start, u, before[u] as int));
        lemma_reach_step(g, start, u, w, before[u] as int);
        assert(reach_in(g, start, w, before[u] + 1));
        assert(reach_within(g, start, w, level));
    }
    assert(frontier.contains(u as usize));
    let p = choose|p: int| 0 <= p < frontier.len() && frontier[p] == u as usize;
    assert(dist[g[frontier[p] as int][e] as int] != -1);
}

/// Some walk leads from `start` to `v`.
pub open spec fn reachable(adj: Seq<Seq<usize>>, start: int, v: int) -> bool {
    exists|d: int| 0 <= d && #[trigger] reach_in(adj, start, v, d)
}

/// The work left on the stack: for each entry the edges not yet looked at,
/// and one more for taking the entry off.
pub open spec fn stack_weight(g: Seq<Seq<usize>>, st: Seq<(usize, usize)>) -> int
    decreases st.len(),
{
    if st.len() == 0 {
        0
    } else {
        stack_weight(g, st.drop_last()) + g[st.last().0 as int].len() - st.last().1 + 1
    }
}

/// The work left on a stack whose edge indices are in range is not
/// negative.
proof fn lemma_stack_weight_nonneg(g: Seq<Seq<usize>>, st: Seq<(usize, usize)>)
    requires
        forall|k: int| 0 <= k < st.len() ==> (#[trigger] st[k]).1 <= g[st[k].0 as int].len(),
    ensures
        0 <= stack_weight(g, st),
    decreases st.len(),
{
    if st.len() > 0 {
        assert(st[st.len() - 1].1 <= g[st[st.len() - 1].0 as int].len());
        lemma_stack_weight_nonneg(g, st.drop_last());
    }
}

/// The number of nodes below `n` that have not been seen.
pub open spec fn count_unseen(seen: Seq<bool>, n: int) -> int
    decreases n,
{
    if n <= 0 {
        0
    } else {
        count_unseen(seen, n - 1) + if seen[n - 1] {
            0int
        } else {
            1int
        }
    }
}

/// Seeing a node lowers the number of unseen nodes by one.
proof fn lemma_count_unseen_drop(seen: Seq<bool>, v: int, n: int)
    requires
        0 <= v < seen.len(),
        n <= seen.len(),
        !seen[v],
    ensures
        count_unseen(seen.update(v, true), n) == count_unseen(seen, n) - (if v < n {
            1int
        } else {
            0int
        }),
        0 <= count_unseen(seen, n),
    decreases n,
{
    if n > 0 {
        lemma_count_unseen_drop(seen, v, n - 1);
    }
}

/// The number of unseen nodes is not negative.
proof fn lemma_count_unseen_nonneg(seen: Seq<bool>, n: int)
    ensures
        0 <= count_unseen(seen, n),
    decreases n,
{
    if n > 0 {
        lemma_count_unseen_nonneg(seen, n - 1);
    }
}

/// Every edge of a seen node leads to a seen node, or is still to be looked
/// at: the node is on the stack with an edge index that is not beyond it.
pub open spec fn edges_accounted(g: Seq<Seq<usize>>, seen: Seq<bool>, st: Seq<(usize, usize)>) -> bool {
    forall|u: int, q: int|
        0 <= u < g.len() && seen[u] && 0 <= q < g[u].len() ==> seen[(#[trigger] g[u][q]) as int]
            || exists|k: int| 0 <= k < st.len() && #[trigger] st[k].0 == u && st[k].1 <= q
}

/// Taking an entry off the stack whose edges have all been looked at keeps
/// the edges accounted for.
proof fn lemma_accounted_pop(
    g: Seq<Seq<usize>>,
    seen: Seq<bool>,
    st: Seq<(usize, usize)>,
)
    requires
        edges_accounted(g, seen, st),
        st.len() > 0,
        st.last().1 >= g[st.last().0 as int].len(),
    ensures
        edges_accounted(g, seen, st.drop_last()),
{
    let st1 = st.drop_last();
    assert forall|x: int, q: int|
        0 <= x < g.len() && seen[x] && 0 <= q < g[x].len() implies seen[(#[trigger] g[x][q]) as int]
        || exists|k: int| 0 <= k < st1.len() && #[trigger] st1[k].0 == x && st1[k].1 <= q by {
        if !seen[g[x][q] as int] {
            let k = choose|k: int| 0 <= k < st.len() && #[trigger] st[k].0 == x && st[k].1 <= q;
            assert(k < st1.len());
            assert(st1[k] == st[k]);
            assert(st1[k].0 == x && st1[k].1 <= q);
        }
    }
}

/// Moving the top entry on to its next edge, after the end of the edge has
/// been seen, keeps the edges accounted for.
proof fn lemma_accounted_advance(
    g: Seq<Seq<usize>>,
    seen: Seq<bool>,
    st: Seq<(usize, usize)>,
    u: usize,
    i: usize,
)
    requires
        edges_accounted(g, seen, st),
        st.len() > 0,
        st.last() == (u, i),
        i < g[u as int].len(),
        i < usize::MAX,
        seen[g[u as int][i as int] as int],
    ensures
        edges_accounted(g, seen, st.drop_last().push((u, (i + 1) as usize))),
{
    let st1 = st.drop_last();
    let st2 = st1.push((u, (i + 1) as usize));
    assert forall|x: int, q: int|
        0 <= x < g.len() && seen[x] && 0 <= q < g[x].len() implies seen[(#[trigger] g[x][q]) as int]
        || exists|k: int| 0 <= k < st2.len() && #[trigger] st2[k].0 == x && st2[k].1 <= q by {
        if !seen[g[x][q] as int] {
            let k = choose|k: int| 0 <= k < st.len() && #[trigger] st[k].0 == x && st[k].1 <= q;
            if k < st1.len() {
                assert(st2[k] == st[k]);
                assert(st2[k].0 == x && st2[k].1 <= q);
            } else {
                assert(q != i);
                assert(st2[st1.len() as int] == (u, (i + 1) as usize));
                assert(st2[st1.len() as int].0 == x && st2[st1.len() as int].1 <= q);
            }
        }
    }
}

/// Moving the top entry on to its next edge, after the end of the edge has
/// been seen for the first time and put on the stack, keeps the edges
/// accounted for.
proof fn lemma_accounted_discover(
    g: Seq<Seq<usize>>,
    seen: Seq<bool>,
    st: Seq<(usize, usize)>,
    u: usize,
    i: usize,
    v: usize,
)
    requires
        edges_accounted(g, seen, st),
        seen.len() == g.len(),
        edges_below(g, g.len() as int),
        st.len() > 0,
        st.last() == (u, i),
        i < g[u as int].len(),
        i < usize::MAX,
        v == g[u as int][i as int],
        v < g.len(),
    ensures
        edges_accounted(
            g,
            seen.update(v as int, true),
            st.drop_last().push((u, (i + 1) as usize)).push((v, 0usize)),
        ),
{
    let seen2 = seen.update(v as int, true);
    let st1 = st.drop_last();
    let st2 = st1.push((u, (i + 1) as usize));
    let st3 = st2.push((v, 0usize));
    assert forall|x: int, q: int|
        0 <= x < g.len() && seen2[x] && 0 <= q < g[x].len() implies seen2[(#[trigger] g[x][q]) as int]
        || exists|k: int| 0 <= k < st3.len() && #[trigger] st3[k].0 == x && st3[k].1 <= q by {
        assert(g[x][q] < g.len());
        if x == v {
            assert(st3[st2.len() as int].0 == x && st3[st2.len() as int].1 <= q);
        } else if !seen[g[x][q] as int] {
            if g[x][q] != v {
                let k = choose|k: int| 0 <= k < st.len() && #[trigger] st[k].0 == x && st[k].1 <= q;
                if k < st1.len() {
                    assert(st3[k] == st[k]);
                    assert(st3[k].0 == x && st3[k].1 <= q);
                } else {
                    assert(q != i);
                    assert(st3[st1.len() as int] == (u, (i + 1) as usize));
                    assert(st3[st1.len() as int].0 == x && st3[st1.len() as int].1 <= q);
                }
            }
        }
    }
}

/// A set of nodes that holds `start` and is closed under edges holds every
/// node that a walk from `start` reaches.
proof fn lemma_closed_holds_reachable(g: Seq<Seq<usize>>, seen: Seq<bool>, start: int, v: int, d: int)
    requires
        seen.len() == g.len(),
        0 <= start < g.len(),
        seen[start],
        edges_below(g, g.len() as int),
        forall|u: int, q: int|
            0 <= u < g.len() && seen[u] && 0 <= q < g[u].len() ==> seen[(#[trigger] g[u][q]) as int],
        0 <= d,
        reach_in(g, start, v, d),
    ensures
        0 <= v < g.len(),
        seen[v],
    decreases d,
{
    if d == 0 {
        lemma_reach_zero(g, start, v);
    } else {
        let u = lemma_reach_unstep(g, start, v, d);
        lemma_closed_holds_reachable(g, seen, start, u, d - 1);
        let q = choose|q: int| 0 <= q < g[u].len() && #[trigger] g[u][q] == v;
        assert(seen[g[u][q] as int]);
        assert(g[u][q] < g.len());
    }
}

/// The nodes listed so far are exactly the nodes seen: each is listed once,
/// is reached by some walk from `start`, and every one but `start` comes
/// after a node with an edge to it.
#[verifier::opaque]
pub open spec fn traversal_ok(
    g: Seq<Seq<usize>>,
    start: int,
    out: Seq<usize>,
    seen: Seq<bool>,
) -> bool {
    &&& seen.len() == g.len()
    &&& out.len() > 0 && out[0] == start
    &&& forall|i: int, j: int| 0 <= i < j < out.len() ==> out[i] != out[j]
    &&& forall|i: int| 0 <= i < out.len() ==> out[i] < g.len() && seen[out[i] as int]
    &&& forall|v: int| 0 <= v < g.len() && seen[v] ==> out.contains(v as usize)
    &&& forall|v: int| 0 <= v < g.len() && seen[v] ==> reachable(g, start, v)
    &&& forall|j: int|
        0 < j < out.len() ==> exists|i: int|
            0 <= i < j && has_edge(g, out[i] as int, #[trigger] out[j] as int)
}

/// Every entry of the stack is a seen node with an edge index in range.
pub open spec fn stack_ok(g: Seq<Seq<usize>>, seen: Seq<bool>, st: Seq<(usize, usize)>) -> bool {
    forall|k: int|
        0 <= k < st.len() ==> (#[trigger] st[k]).0 < g.len() && seen[st[k].0 as int] && st[k].1
            <= g[st[k].0 as int].len()
}

/// The stack stays right when the top entry moves on to its next edge and a
/// node seen for the first time is put on top.
proof fn lemma_stack_ok_discover(
    g: Seq<Seq<usize>>,
    seen: Seq<bool>,
    st: Seq<(usize, usize)>,
    u: usize,
    i: usize,
    v: usize,
)
    requires
        stack_ok(g, seen, st),
        seen.len() == g.len(),
        st.len() > 0,
        st.last() == (u, i),
        i < g[u as int].len(),
        i < usize::MAX,
        v < g.len(),
    ensures
        stack_ok(
            g,
            seen.update(v as int, true),
            st.drop_last().push((u, (i + 1) as usize)).push((v, 0usize)),
        ),
{
    let st3 = st.drop_last().push((u, (i + 1) as usize)).push((v, 0usize));
    assert forall|k: int| 0 <= k < st3.len() implies (#[trigger] st3[k]).0 < g.len()
        && seen.update(v as int, true)[st3[k].0 as int] && st3[k].1 <= g[st3[k].0 as int].len() by {
        if k < st.len() - 1 {
            assert(st3[k] == st[k]);
        } else if k == st.len() - 1 {
            assert(st[k].0 < g.len() && seen[st[k].0 as int]);
        }
    }
}

/// Listing a node seen for the first time keeps the list right.
proof fn lemma_traversal_push(
    g: Seq<Seq<usize>>,
    start: int,
    out: Seq<usize>,
    seen: Seq<bool>,
    u: usize,
    v: usize,
)
    requires
        traversal_ok(g, start, out, seen),
        u < g.len(),
        v < g.len(),
        seen[u as int],
        !seen[v as int],
        has_edge(g, u as int, v as int),
    ensures
        traversal_ok(g, start, out.push(v), seen.update(v as int, true)),
{
    reveal(traversal_ok);
    let out2 = out.push(v);
    let seen2 = seen.update(v as int, true);
    let d = choose|d: int| 0 <= d && #[trigger] reach_in(g, start, u as int, d);
    lemma_reach_step(g, start, u as int, v as int, d);
    assert(reachable(g, start, v as int));
    assert(out.contains(u));
    assert forall|a: int, b: int| 0 <= a < b < out2.len() implies out2[a] != out2[b] by {
        if b == out.len() {
            assert(seen[out[a] as int]);
        }
    }
    assert forall|w: int| 0 <= w < g.len() && seen2[w] implies out2.contains(w as usize) by {
        if w == v {
            assert(out2[out.len() as int] == v);
        } else {
            assert(out.contains(w as usize));
            let k = choose|k: int| 0 <= k < out.len() && out[k] == w as usize;
            assert(out2[k] == w as usize);
        }
    }
    assert forall|j: int| 0 < j < out2.len() implies exists|a: int|
        0 <= a < j && has_edge(g, out2[a] as int, #[trigger] out2[j] as int) by {
        if j < out.len() {
            let a = choose|a: int| 0 <= a < j && has_edge(g, out[a] as int, out[j] as int);
            assert(has_edge(g, out2[a] as int, out2[j] as int));
        } else {
            let a = choose|a: int| 0 <= a < out.len() && out[a] == u;
            assert(has_edge(g, out2[a] as int, out2[j] as int));
        }
    }
}

/// When the stack is empty, the list holds exactly the nodes that a walk
/// from `start` reaches.
proof fn lemma_traversal_done(g: Seq<Seq<usize>>, start: int, out: Seq<usize>, seen: Seq<bool>)
    requires
        traversal_ok(g, start, out, seen),
        0 <= start < g.len(),
        g.len() <= usize::MAX,
        edges_below(g, g.len() as int),
        edges_accounted(g, seen, Seq::empty()),
    ensures
        out.len() > 0 && out[0] == start,
        forall|i: int, j: int| 0 <= i < j < out.len() ==> out[i] != out[j],
        forall|v: int| 0 <= v < g.len() ==> (out.contains(v as usize) <==> reachable(g, start, v)),
        forall|i: int| 0 <= i < out.len() ==> out[i] < g.len(),
        forall|j: int|
            0 < j < out.len() ==> exists|i: int|
                0 <= i < j && has_edge(g, out[i] as int, #[trigger] out[j] as int),
{
    reveal(traversal_ok);
    let st = Seq::<(usize, usize)>::empty();
    assert(seen[out[0] as int]);
    assert forall|v: int| 0 <= v < g.len() implies (out.contains(v as usize) <==> reachable(
        g,
        start,
        v,
    )) by {
        if out.contains(v as usize) {
            let k = choose|k: int| 0 <= k < out.len() && out[k] == v as usize;
            assert(seen[out[k] as int]);
        }
        if reachable(g, start, v) {
            let d = choose|d: int| 0 <= d && #[trigger] reach_in(g, start, v, d);
            assert forall|x: int, q: int|
                0 <= x < g.len() && seen[x] && 0 <= q < g[x].len() implies seen[(
            #[trigger] g[x][q]) as int] by {
                if !seen[g[x][q] as int] {
                    let k = choose|k: int|
                        0 <= k < st.len() && #[trigger] st[k].0 == x && st[k].1 <= q;
                }
            }
            lemma_closed_holds_reachable(g, seen, start, v, d);
        }
    }
}

/// The nodes that a walk from `start` reaches, each once, in an order in
/// which every node but `start` comes after a node with an edge to it.
pub fn dfs_preorder(n: usize, adj: &Vec<Vec<usize>>, start: usize) -> (out: Vec<usize>)
    requires
        adj@.len() == n,
        start < n,
        edges_below(graph_view(adj@), n as int),
    ensures
        out@.len() > 0 && out@[0] == start,
        forall|i: int, j: int| 0 <= i < j < out@.len() ==> out@[i] != out@[j],
        forall|v: int|
            0 <= v < n ==> (out@.contains(v as usize) <==> reachable(
                graph_view(adj@),
                start as int,
                v,
            )),
        forall|i: int| 0 <= i < out@.len() ==> out@[i] < n,
        forall|j: int|
            0 < j < out@.len() ==> exists|i: int|
                0 <= i < j && has_edge(graph_view(adj@), out@[i] as int, #[trigger] out@[j] as int),
{
    let ghost g = graph_view(adj@);
    let mut out: Vec<usize> = Vec::new();
    let mut st: Vec<(usize, usize)> = Vec::new();
    let mut seen: Vec<bool> = vec![false; n];
    seen[start] = true;
    out.push(start);
    st.push((start, 0));
    proof {
        lemma_reach_zero(g, start as int, start as int);
        assert(reachable(g, start as int, start as int));
        assert(st@[0].0 == start && st@[0].1 <= 0);
        assert(out@[0] == start);
        assert(traversal_ok(g, start as int, out@, seen@)) by {
            reveal(traversal_ok);
        }
    }
    loop
        invariant
            g == graph_view(adj@),
            adj@.len() == n,
            start < n,
            edges_below(g, n as int),
            seen@.len() == n,
            traversal_ok(g, start as int, out@, seen@),
            stack_ok(g, seen@, st@),
            edges_accounted(g, seen@, st@),
        ensures
            st@.len() == 0,
        decreases count_unseen(seen@, n as int), stack_weight(g, st@),
    {
        let ghost st0 = st@;
        let ghost seen0 = seen@;
        let ghost out0 = out@;
        proof {
            lemma_count_unseen_nonneg(seen@, n as int);
            lemma_stack_weight_nonneg(g, st@);
        }
        let top = st.pop();
        let (u, i) = match top {
            None => {
                break;
            },
            Some(entry) => entry,
        };
        let ghost st1 = st@;
        proof {
            assert(st0[st0.len() - 1] == (u, i));
            assert(st0[st0.len() - 1].0 < g.len() && st0[st0.len() - 1].1 <= g[st0[st0.len()
                - 1].0 as int].len());
            assert(st1 =~= st0.drop_last());
            assert(stack_weight(g, st0) == stack_weight(g, st1) + g[u as int].len() - i + 1);
            lemma_stack_weight_nonneg(g, st1);
        }
        assert(g[u as int] == adj@[u as int]@);
        if i < adj[u].len() {
            st.push((u, i + 1));
            let ghost st2 = st@;
            let v = adj[u][i];
            proof {
                assert(st2.drop_last() =~= st1);
                assert(stack_weight(g, st2) == stack_weight(g, st1) + g[u as int].len() - (i + 1)
                    + 1);
                assert(g[u as int][i as int] < n);
                assert(has_edge(g, u as int, v as int)) by {
                    assert(g[u as int][i as int] == v);
                }
            }
            if !seen[v] {
                proof {
                    lemma_count_unseen_drop(seen@, v as int, n as int);
                    lemma_traversal_push(g, start as int, out0, seen0, u, v);
                    lemma_accounted_discover(g, seen0, st0, u, i, v);
                }
                seen[v] = true;
                out.push(v);
                st.push((v, 0));
                proof {
                    assert(seen@ =~= seen0.update(v as int, true));
                    assert(st@ =~= st0.drop_last().push((u, (i + 1) as usize)).push((v, 0usize)));
                    assert(count_unseen(seen@, n as int) < count_unseen(seen0, n as int));
                    lemma_stack_ok_discover(g, seen0, st0, u, i, v);
                }
            } else {
                proof {
                    lemma_accounted_advance(g, seen0, st0, u, i);
                    assert(seen@ == seen0);
                    assert(stack_weight(g, st@) < stack_weight(g, st0));
                }
            }
        } else {
            proof {
                lemma_accounted_pop(g, seen0, st0);
                assert(seen@ == seen0);
                assert(stack_weight(g, st@) < stack_weight(g, st0));
            }
        }
        proof {
            assert(stack_ok(g, seen@, st@));
            lemma_count_unseen_nonneg(seen@, n as int);
            lemma_stack_weight_nonneg(g, st@);
        }
    }
    proof {
        assert(st@ =~= Seq::empty());
        lemma_traversal_done(g, start as int, out@, seen@);
    }
    out
}

} // verus!
