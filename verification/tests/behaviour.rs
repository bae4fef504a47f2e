use twox_hash::XxHash64;
use wl_isomorphism::graph::Graph;
use wl_isomorphism::graphwrapper::get_label_index;
use wl_isomorphism::parse::parse_edge_line;
use wl_isomorphism::{
    invariant_2wl, invariant_iters, invariant_stable, iter_2wl, neighbourhood_hash,
};

#[test]
fn degenerate_single_node() {
    // A single isolated node: initial label 0 (its degree), stabilisation is
    // immediate, and the invariant is the digest of the sorted buffer [0].
    let g = Graph::new(1, false);
    let expected = XxHash64::oneshot(42, bytemuck::cast_slice(&[0u64]));
    assert_eq!(invariant_stable(g), expected);
}

#[test]
fn empty_graph() {
    let g = Graph::new(0, false);
    let expected = XxHash64::oneshot(42, &[]);
    assert_eq!(invariant_stable(g), expected);
}

#[test]
fn initial_labels_are_degrees() {
    // Star with centre 0 and leaves 1, 2, 3: a budget of 1 applies no round,
    // so each node's history is exactly its degree.
    let g = Graph::from_edges(false, vec![(0, 1), (0, 2), (0, 3)]);
    let hist = neighbourhood_hash(g, 1);
    assert_eq!(hist, vec![vec![3], vec![1], vec![1], vec![1]]);
}

#[test]
fn history_grows_with_budget() {
    let g = Graph::from_edges(false, vec![(0, 1), (1, 2)]);
    let hist = neighbourhood_hash(g, 3);
    assert_eq!(hist.len(), 3);
    for h in &hist {
        assert_eq!(h.len(), 3);
    }
}

#[test]
fn relabeled_graphs_agree_everywhere() {
    // The permutation 0->2, 1->0, 2->4, 3->1, 4->3 applied to a path.
    let g = Graph::from_edges(false, vec![(0, 1), (1, 2), (2, 3), (3, 4)]);
    let h = Graph::from_edges(false, vec![(2, 0), (0, 4), (4, 1), (1, 3)]);
    let g2 = Graph::from_edges(false, vec![(0, 1), (1, 2), (2, 3), (3, 4)]);
    let h2 = Graph::from_edges(false, vec![(2, 0), (0, 4), (4, 1), (1, 3)]);
    let g3 = Graph::from_edges(false, vec![(0, 1), (1, 2), (2, 3), (3, 4)]);
    let h3 = Graph::from_edges(false, vec![(2, 0), (0, 4), (4, 1), (1, 3)]);
    assert_eq!(invariant_stable(g), invariant_stable(h));
    assert_eq!(invariant_iters(g2, 3), invariant_iters(h2, 3));
    assert_eq!(invariant_2wl(g3), invariant_2wl(h3));
}

#[test]
fn edge_order_is_irrelevant() {
    // The same connections listed in another order, some written flipped.
    let g = Graph::from_edges(false, vec![(0, 1), (1, 2), (2, 3), (3, 4)]);
    let h = Graph::from_edges(false, vec![(3, 2), (0, 1), (4, 3), (1, 2)]);
    let gd = Graph::from_edges(true, vec![(0, 1), (1, 2), (2, 3)]);
    let hd = Graph::from_edges(true, vec![(2, 3), (0, 1), (1, 2)]);
    assert_eq!(invariant_stable(g), invariant_stable(h));
    assert_eq!(invariant_stable(gd), invariant_stable(hd));
}

#[test]
fn directed_initial_labels_differ_from_undirected() {
    // One arc versus one edge: the directed initial labeler digests the
    // (outgoing, incoming) counts instead of using the plain degree.
    let g = Graph::from_edges(true, vec![(0, 1)]);
    let h = Graph::from_edges(false, vec![(0, 1)]);
    assert_ne!(invariant_iters(g, 1), invariant_iters(h, 1));
}

#[test]
fn gaps_become_isolated_nodes() {
    // An edge naming only 0 and 2 still implies a node 1.
    let g = Graph::from_edges(false, vec![(0, 2)]);
    let hist = neighbourhood_hash(g, 1);
    assert_eq!(hist.len(), 3);
    assert_eq!(hist[1], vec![0]);
}

#[test]
fn two_wl_fixed_budget_is_clamped() {
    // A budget beyond the pair-index space behaves like the auto clamp.
    let g = Graph::from_edges(false, vec![(0, 1), (1, 2)]);
    let g2 = Graph::from_edges(false, vec![(0, 1), (1, 2)]);
    assert_eq!(iter_2wl(g, 0), iter_2wl(g2, 100));
}

#[test]
fn triangular_indexing() {
    assert_eq!(get_label_index(0, 0), 0);
    assert_eq!(get_label_index(1, 0), 1);
    assert_eq!(get_label_index(1, 1), 2);
    assert_eq!(get_label_index(3, 1), 7);
    assert_eq!(get_label_index(1, 3), 7);
    assert_eq!(get_label_index(4, 4), 14);
}

#[test]
fn directed_initial_labels_digest_degree_pair() {
    // One arc 0 -> 1: each node's first history entry is the digest of its
    // (outgoing, incoming) degree counts.
    let g = Graph::from_edges(true, vec![(0, 1)]);
    let hist = neighbourhood_hash(g, 1);
    let h0 = XxHash64::oneshot(42, bytemuck::cast_slice(&[1u64, 0u64]));
    let h1 = XxHash64::oneshot(42, bytemuck::cast_slice(&[0u64, 1u64]));
    assert_eq!(hist, vec![vec![h0], vec![h1]]);
}

#[test]
fn round_digests_sorted_neighbours_then_own_label() {
    // A single undirected edge: both nodes start at degree 1, and one applied
    // round digests [neighbour label, own label]; the invariant digests the
    // sorted buffer of the two equal results.
    let g = Graph::from_edges(false, vec![(0, 1)]);
    let after_round = XxHash64::oneshot(42, bytemuck::cast_slice(&[1u64, 1u64]));
    let expected = XxHash64::oneshot(42, bytemuck::cast_slice(&[after_round, after_round]));
    assert_eq!(invariant_iters(g, 2), expected);
}

#[test]
fn parse_edge_line_accepts_plain_pairs() {
    assert_eq!(parse_edge_line(b"3 5"), Some((3, 5)));
    assert_eq!(parse_edge_line(b"  12\t7  "), Some((12, 7)));
    assert_eq!(parse_edge_line(b"0 1 {}"), Some((0, 1)));
    assert_eq!(parse_edge_line(b"4294967295 0"), Some((u32::MAX, 0)));
}

#[test]
fn parse_edge_line_rejects_malformed_lines() {
    assert_eq!(parse_edge_line(b""), None);
    assert_eq!(parse_edge_line(b"7"), None);
    assert_eq!(parse_edge_line(b"a b"), None);
    assert_eq!(parse_edge_line(b"1 x"), None);
    assert_eq!(parse_edge_line(b"4294967296 0"), None);
    assert_eq!(parse_edge_line(b"1.5 2"), None);
}
