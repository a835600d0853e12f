use sgd_layout::graph::Graph;

fn cycle_graph(n: usize) -> Graph {
    let src: Vec<usize> = (0..n).collect();
    let dst: Vec<usize> = (0..n).map(|i| (i + 1) % n).collect();
    Graph::from_edges(n, &src, &dst).expect("cycle graph is well formed")
}

#[test]
fn from_edges_drops_self_loops() {
    let src: Vec<usize> = vec![0, 1, 1, 2];
    let dst: Vec<usize> = vec![1, 1, 2, 2];
    let g = Graph::from_edges(3, &src, &dst).expect("valid after filtering");
    assert_eq!(g.node_size, 3);
    assert_eq!(g.edge_size, 2);
    assert_eq!(g.edge_src, vec![0, 1]);
    assert_eq!(g.edge_dst, vec![1, 2]);
}

#[test]
fn from_edges_rejects_out_of_range_endpoint() {
    let src: Vec<usize> = vec![0, 1];
    let dst: Vec<usize> = vec![1, 5];
    assert!(Graph::from_edges(3, &src, &dst).is_none());
}

#[test]
fn from_edges_ignores_out_of_range_self_loop() {
    // A self-loop is dropped before the range check.
    let src: Vec<usize> = vec![0, 7];
    let dst: Vec<usize> = vec![1, 7];
    let g = Graph::from_edges(2, &src, &dst).expect("self-loop dropped first");
    assert_eq!(g.edge_size, 1);
}

#[test]
fn adjacency_inserts_both_directions() {
    let src: Vec<usize> = vec![0, 1];
    let dst: Vec<usize> = vec![1, 2];
    let g = Graph::from_edges(3, &src, &dst).unwrap();
    let adj = g.calc_adj_matrix();
    assert_eq!(adj.len(), 3);
    assert_eq!(adj[0], vec![1]);
    assert_eq!(adj[1], vec![0, 2]);
    assert_eq!(adj[2], vec![1]);
}

#[test]
fn dist_matrix_of_directed_cycle_treated_undirected() {
    let g = cycle_graph(10);
    let dist = g.calc_dist_matrix();
    assert_eq!(dist.len(), 10);
    for i in 0..10 {
        assert_eq!(dist[i].len(), 10);
        assert_eq!(dist[i][i], 0);
        for j in 0..10 {
            // symmetric, finite, and the cycle metric: min walk around either way
            assert_eq!(dist[i][j], dist[j][i]);
            let around = (10 + i as isize - j as isize) as usize % 10;
            let expected = around.min(10 - around);
            assert_eq!(dist[i][j], expected);
        }
    }
    // antipodal pairs of the 10-cycle lie at distance 5
    for i in 0..10 {
        assert_eq!(dist[i][(i + 5) % 10], 5);
    }
}

#[test]
fn dist_matrix_of_disconnected_graph_uses_sentinel() {
    // two components: 0-1 and 2-3
    let src: Vec<usize> = vec![0, 2];
    let dst: Vec<usize> = vec![1, 3];
    let g = Graph::from_edges(4, &src, &dst).unwrap();
    let dist = g.calc_dist_matrix();
    assert_eq!(dist[0][1], 1);
    assert_eq!(dist[2][3], 1);
    assert_eq!(dist[0][2], usize::MAX);
    assert_eq!(dist[0][3], usize::MAX);
    assert_eq!(dist[1][2], usize::MAX);
    assert_eq!(dist[3][0], usize::MAX);
}

#[test]
fn dist_matrix_of_empty_and_singleton_graphs() {
    let g0 = Graph::from_edges(0, &Vec::new(), &Vec::new()).unwrap();
    assert!(g0.calc_dist_matrix().is_empty());
    let g1 = Graph::from_edges(1, &Vec::new(), &Vec::new()).unwrap();
    assert_eq!(g1.calc_dist_matrix(), vec![vec![0]]);
}

#[test]
fn duplicate_edges_are_kept_in_adjacency() {
    let src: Vec<usize> = vec![0, 0];
    let dst: Vec<usize> = vec![1, 1];
    let g = Graph::from_edges(2, &src, &dst).unwrap();
    let adj = g.calc_adj_matrix();
    assert_eq!(adj[0], vec![1, 1]);
    assert_eq!(adj[1], vec![0, 0]);
    assert_eq!(g.calc_dist_matrix()[0][1], 1);
}

#[test]
fn dist_matrix_matches_floyd_warshall() {
    // an 8-node graph with a bridge, a branch and an isolated vertex
    let src: Vec<usize> = vec![0, 1, 2, 0, 4, 5, 4];
    let dst: Vec<usize> = vec![1, 2, 3, 3, 5, 6, 6];
    let n: usize = 8;
    let g = Graph::from_edges(n, &src, &dst).unwrap();
    let dist = g.calc_dist_matrix();

    // reference: Floyd-Warshall over the undirected adjacency
    let inf = usize::MAX;
    let mut fw = vec![vec![inf; n]; n];
    for i in 0..n {
        fw[i][i] = 0;
    }
    for k in 0..src.len() {
        fw[src[k]][dst[k]] = 1;
        fw[dst[k]][src[k]] = 1;
    }
    for m in 0..n {
        for i in 0..n {
            for j in 0..n {
                if fw[i][m] != inf && fw[m][j] != inf && fw[i][m] + fw[m][j] < fw[i][j] {
                    fw[i][j] = fw[i][m] + fw[m][j];
                }
            }
        }
    }
    assert_eq!(dist, fw);
}

#[test]
fn dist_matrix_of_two_node_graph() {
    let g = Graph::from_edges(2, &vec![0], &vec![1]).unwrap();
    let dist = g.calc_dist_matrix();
    assert_eq!(dist, vec![vec![0, 1], vec![1, 0]]);
}
