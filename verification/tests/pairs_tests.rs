use sgd_layout::graph::Graph;
use sgd_layout::pairs::EdgeInfo;

fn cycle_graph(n: usize) -> Graph {
    let src: Vec<usize> = (0..n).collect();
    let dst: Vec<usize> = (0..n).map(|i| (i + 1) % n).collect();
    Graph::from_edges(n, &src, &dst).expect("cycle graph is well formed")
}

#[test]
fn pairs_of_ten_cycle() {
    let g = cycle_graph(10);
    let dist = g.calc_dist_matrix();
    let (pairs, extremes) = g.calc_edge_info(&dist);
    // every unordered pair of a connected graph is retained
    assert_eq!(pairs.len(), 45);
    let ex = extremes.expect("connected graph has pairs");
    assert_eq!(ex.dmin, 1);
    assert_eq!(ex.dmax, 5);
    // ascending (u, v) order, distances match the table
    for w in pairs.windows(2) {
        assert!(w[0].u < w[1].u || (w[0].u == w[1].u && w[0].v < w[1].v));
    }
    for e in &pairs {
        assert!(e.u < e.v);
        assert_eq!(e.dij, dist[e.u][e.v]);
        assert!(e.dij >= 1);
    }
    assert_eq!(pairs[0], EdgeInfo { u: 0, v: 1, dij: 1 });
    // the antipodal pair of node 0
    assert!(pairs.contains(&EdgeInfo { u: 0, v: 5, dij: 5 }));
}

#[test]
fn pairs_of_two_node_graph() {
    let g = Graph::from_edges(2, &vec![0], &vec![1]).unwrap();
    let dist = g.calc_dist_matrix();
    let (pairs, extremes) = g.calc_edge_info(&dist);
    assert_eq!(pairs, vec![EdgeInfo { u: 0, v: 1, dij: 1 }]);
    let ex = extremes.unwrap();
    assert_eq!((ex.dmin, ex.dmax), (1, 1));
}

#[test]
fn pairs_exclude_cross_component_pairs() {
    let src: Vec<usize> = vec![0, 2];
    let dst: Vec<usize> = vec![1, 3];
    let g = Graph::from_edges(4, &src, &dst).unwrap();
    let dist = g.calc_dist_matrix();
    let (pairs, extremes) = g.calc_edge_info(&dist);
    assert_eq!(
        pairs,
        vec![EdgeInfo { u: 0, v: 1, dij: 1 }, EdgeInfo { u: 2, v: 3, dij: 1 }]
    );
    for e in &pairs {
        assert_ne!(dist[e.u][e.v], usize::MAX);
    }
    let ex = extremes.unwrap();
    assert_eq!((ex.dmin, ex.dmax), (1, 1));
}

#[test]
fn no_pairs_without_edges() {
    let g = Graph::from_edges(3, &Vec::new(), &Vec::new()).unwrap();
    let dist = g.calc_dist_matrix();
    let (pairs, extremes) = g.calc_edge_info(&dist);
    assert!(pairs.is_empty());
    assert!(extremes.is_none());
}

#[test]
fn pair_distances_match_the_table() {
    let g = cycle_graph(6);
    let dist = g.calc_dist_matrix();
    let (pairs, extremes) = g.calc_pair_distances();
    assert_eq!(pairs.len(), 15);
    for e in &pairs {
        assert_eq!(e.dij, dist[e.u][e.v]);
    }
    let ex = extremes.unwrap();
    assert_eq!((ex.dmin, ex.dmax), (1, 3));
}
