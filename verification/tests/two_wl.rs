use wl_isomorphism::graph::Graph;
use wl_isomorphism::{invariant_2wl, invariant_stable, iter_2wl};

fn ungraph(edges: Vec<(usize, usize)>) -> Graph {
    Graph::from_edges(false, edges)
}

#[test]
fn two_wl_simplest() {
    let g = ungraph(vec![(0, 1)]);
    let g2 = ungraph(vec![(1, 0)]);
    assert_eq!(invariant_2wl(g), invariant_2wl(g2));
}

#[test]
fn two_wl_simple_fail() {
    let g = ungraph(vec![(0, 1), (1, 2)]);
    let g2 = ungraph(vec![(1, 0)]);
    assert_ne!(invariant_2wl(g), invariant_2wl(g2));
}

#[test]
fn two_wl_different_iterations() {
    let g = ungraph(vec![(0, 1), (0, 2), (0, 3)]);
    let g2 = ungraph(vec![(0, 1), (0, 2), (0, 3)]);
    assert_ne!(iter_2wl(g, 2), iter_2wl(g2, 3));
}

#[test]
fn two_wl_equivalence_hardcoded_stabilisation() {
    // Interesting that this has a different number of iterations before stabilisation
    let g = ungraph(vec![(0, 1), (1, 2), (2, 3), (3, 4)]);
    let g2 = ungraph(vec![(0, 1), (1, 2), (2, 3), (3, 4)]);
    assert_eq!(iter_2wl(g, 3), invariant_2wl(g2));
}

#[test]
fn two_wl_flipped_middle_undirected() {
    let g = ungraph(vec![(0, 1), (1, 2), (2, 3), (3, 4)]);
    let g2 = ungraph(vec![(1, 0), (2, 1), (2, 3), (4, 3)]);
    assert_eq!(invariant_2wl(g), invariant_2wl(g2));
}

#[test]
fn early_termination_2w() {
    let g = ungraph(vec![(0, 1), (0, 2), (0, 3)]);
    let g2 = ungraph(vec![(0, 1), (0, 2), (0, 3)]);
    assert_ne!(invariant_2wl(g), iter_2wl(g2, 0));
}

#[test]
fn extra_expressive() {
    let two_cycles = ungraph(vec![(0, 1), (1, 2), (2, 0), (3, 4), (4, 5), (5, 3)]);
    let big_cycle = ungraph(vec![(0, 1), (1, 2), (2, 3), (3, 4), (4, 5), (5, 0)]);
    let two_cycles_b = ungraph(vec![(0, 1), (1, 2), (2, 0), (3, 4), (4, 5), (5, 3)]);
    let big_cycle_b = ungraph(vec![(0, 1), (1, 2), (2, 3), (3, 4), (4, 5), (5, 0)]);
    assert_eq!(invariant_stable(two_cycles), invariant_stable(big_cycle));
    assert_ne!(invariant_2wl(two_cycles_b), invariant_2wl(big_cycle_b));
}
