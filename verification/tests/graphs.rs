use aoc25::ds::graph::Adjacency;
use aoc25::ds::search::{bfs_distances, dfs_preorder};
use aoc25::ds::shortest::dijkstra_indexed;

#[test]
fn bfs_and_dfs() {
    let n=5; let mut adj=vec![vec![];n];
    adj[0]=vec![1,2]; adj[1]=vec![3]; adj[2]=vec![3]; adj[3]=vec![4];
    let dist = bfs_distances(n,&adj,0);
    assert_eq!(dist, vec![0,1,1,2,3]);
    let order = dfs_preorder(n,&adj,0);
    assert_eq!(order[0], 0); // deterministic enough
    assert!(order.contains(&3) && order.contains(&4));
}

#[test]
fn bfs_marks_unreachable_nodes() {
    let adj = vec![vec![1], vec![0], vec![0]];
    assert_eq!(bfs_distances(3, &adj, 0), vec![0, 1, -1]);
    assert_eq!(bfs_distances(3, &adj, 2), vec![1, 2, 0]);
}

#[test]
fn dfs_goes_deep_first() {
    let adj = vec![vec![1, 2], vec![3], vec![], vec![2], vec![0]];
    assert_eq!(dfs_preorder(5, &adj, 0), vec![0, 1, 3, 2]);
    assert_eq!(dfs_preorder(5, &adj, 4), vec![4, 0, 1, 3, 2]);
    assert_eq!(dfs_preorder(5, &adj, 2), vec![2]);
}

#[test]
fn add_node_and_undirected() {
    let mut g = Adjacency::new();
    g.add_node(1);
    g.add_undirected(1, 2);
    let neighbors: Vec<_> = g.neighbors(&1).cloned().collect();
    assert!(neighbors.contains(&2));
    let neighbors2: Vec<_> = g.neighbors(&2).cloned().collect();
    assert!(neighbors2.contains(&1));
}

#[test]
fn edges_keep_their_order() {
    let mut g = Adjacency::new();
    g.add_edge(1, 2);
    g.add_edge(1, 3);
    g.add_edge(1, 2);
    g.add_node(1);
    g.add_node(7);
    let v: Vec<_> = g.neighbors(&1).cloned().collect();
    assert_eq!(v, vec![2, 3, 2]);
    assert_eq!(g.neighbors(&7).count(), 0);
    assert_eq!(g.neighbors(&2).count(), 0);
    let mut nodes: Vec<_> = g.nodes().cloned().collect();
    nodes.sort();
    assert_eq!(nodes, vec![1, 7]);
}

#[test]
fn dijkstra_finds_lightest_walks() {
    // Weighted graph: 0->1(2), 0->2(5), 1->2(1), 2->3(2)
    let n = 4;
    let mut adj = vec![vec![]; n];
    adj[0].push((1, 2));
    adj[0].push((2, 5));
    adj[1].push((2, 1));
    adj[2].push((3, 2));
    let (dist, prev) = dijkstra_indexed(n, &adj, 0);
    assert_eq!(dist, vec![0, 2, 3, 5]);
    assert_eq!(prev, vec![None, Some(0), Some(1), Some(2)]);
}

#[test]
fn dijkstra_leaves_unreached_nodes_at_the_top() {
    let adj = vec![vec![(1, 0), (0, 3)], vec![(0, 0)], vec![(0, 1)]];
    let (dist, prev) = dijkstra_indexed(3, &adj, 0);
    assert_eq!(dist, vec![0, 0, i64::MAX]);
    assert_eq!(prev, vec![None, Some(0), None]);
    let (dist, prev) = dijkstra_indexed(3, &adj, 2);
    assert_eq!(dist, vec![1, 1, 0]);
    assert_eq!(prev, vec![Some(2), Some(0), None]);
}

#[test]
fn dijkstra_takes_the_detour_when_it_is_lighter() {
    let adj = vec![
        vec![(3, 100), (1, 1)],
        vec![(2, 1)],
        vec![(3, 1)],
        vec![(0, i64::MAX - 1)],
    ];
    let (dist, prev) = dijkstra_indexed(4, &adj, 0);
    assert_eq!(dist, vec![0, 1, 2, 3]);
    assert_eq!(prev[3], Some(2));
}
