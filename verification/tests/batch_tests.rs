use sgd_layout::batch::plan_conflict_free_batches;
use sgd_layout::graph::Graph;
use sgd_layout::pairs::EdgeInfo;

fn share_node(a: &EdgeInfo, b: &EdgeInfo) -> bool {
    a.u == b.u || a.u == b.v || a.v == b.u || a.v == b.v
}

#[test]
fn path_graph_pairs_batch_first_fit() {
    // pairs of a 4-node path restricted to its edges
    let pairs = vec![
        EdgeInfo { u: 0, v: 1, dij: 1 },
        EdgeInfo { u: 1, v: 2, dij: 1 },
        EdgeInfo { u: 2, v: 3, dij: 1 },
    ];
    let batches = plan_conflict_free_batches(&pairs, 4);
    // (0,1) opens batch 0; (1,2) conflicts with it; (2,3) fits beside (0,1)
    assert_eq!(batches, vec![vec![0, 2], vec![1]]);
}

#[test]
fn batches_partition_all_pairs_of_a_cycle() {
    let n: usize = 10;
    let src: Vec<usize> = (0..n).collect();
    let dst: Vec<usize> = (0..n).map(|i| (i + 1) % n).collect();
    let g = Graph::from_edges(n, &src, &dst).unwrap();
    let dist = g.calc_dist_matrix();
    let (pairs, _) = g.calc_edge_info(&dist);
    let batches = plan_conflict_free_batches(&pairs, n);

    // every pair index exactly once
    let mut all: Vec<usize> = batches.iter().flatten().copied().collect();
    all.sort();
    assert_eq!(all, (0..pairs.len()).collect::<Vec<usize>>());

    // no two pairs of one batch share a node
    for batch in &batches {
        for (x, &i) in batch.iter().enumerate() {
            for &j in batch.iter().skip(x + 1) {
                assert!(!share_node(&pairs[i], &pairs[j]), "conflict in one batch");
            }
        }
    }

    // each batch holds at most node_size / 2 pairs, and none is empty
    for batch in &batches {
        assert!(!batch.is_empty());
        assert!(batch.len() <= n / 2);
    }
}

#[test]
fn batches_of_empty_pair_list() {
    let pairs: Vec<EdgeInfo> = Vec::new();
    let batches = plan_conflict_free_batches(&pairs, 5);
    assert!(batches.is_empty());
}

#[test]
fn star_graph_pairs_are_fully_serialized() {
    // every pair of a star shares the hub, so each goes to its own batch
    let pairs = vec![
        EdgeInfo { u: 0, v: 1, dij: 1 },
        EdgeInfo { u: 0, v: 2, dij: 1 },
        EdgeInfo { u: 0, v: 3, dij: 1 },
    ];
    let batches = plan_conflict_free_batches(&pairs, 4);
    assert_eq!(batches, vec![vec![0], vec![1], vec![2]]);
}
