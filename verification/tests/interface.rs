use wl_isomorphism::graph::Graph;
use wl_isomorphism::{
    invariant_iters, invariant_stable, neighbourhood_hash, neighbourhood_stable,
};

fn path_graph() -> Graph {
    Graph::from_edges(false, vec![(0, 1), (1, 2), (2, 3), (3, 4)])
}

fn path_graph_relabeled() -> Graph {
    Graph::from_edges(false, vec![(1, 0), (2, 1), (2, 3), (4, 3)])
}

#[test]
fn equal() {
    assert_eq!(
        invariant_stable(path_graph()),
        invariant_stable(path_graph_relabeled())
    );
    assert_eq!(
        invariant_iters(path_graph(), 2),
        invariant_iters(path_graph_relabeled(), 2)
    );
    let n_hash = neighbourhood_hash(path_graph(), 3);
    let n_hash2 = neighbourhood_hash(path_graph_relabeled(), 3);
    let hash_stable = neighbourhood_stable(path_graph());
    let hash_stable2 = neighbourhood_stable(path_graph_relabeled());
    assert!(n_hash == n_hash2);
    assert!(hash_stable == hash_stable2);
}

#[test]
fn unequal_iters() {
    assert_ne!(
        invariant_stable(path_graph()),
        invariant_iters(path_graph(), 5)
    );
    let n_hash = neighbourhood_hash(path_graph(), 1);
    let n_hash2 = neighbourhood_hash(path_graph(), 4);
    let n_hash_stable = neighbourhood_stable(path_graph());
    assert!(n_hash != n_hash2);
    assert!(n_hash != n_hash_stable);
    assert!(n_hash2 != n_hash_stable);
}

#[test]
fn equal_versions() {
    assert_eq!(
        invariant_stable(path_graph()),
        invariant_iters(path_graph(), 2)
    );
    let n_hash = neighbourhood_hash(path_graph(), 2);
    let n_hash2 = neighbourhood_hash(path_graph(), 2);
    let n_hash_stable = neighbourhood_stable(path_graph());
    assert!(n_hash == n_hash2);
    assert!(n_hash == n_hash_stable);
}
