use wl_isomorphism::graph::Graph;
use wl_isomorphism::graphwrapper::GraphWrapper;

#[test]
fn graphwrapper_simplest() {
    let g = Graph::from_edges(false, vec![(0, 1)]);
    let g2 = Graph::from_edges(false, vec![(1, 0)]);
    let mut wl1 = GraphWrapper::new(g, 42, 0, true, false);
    let mut wl2 = GraphWrapper::new(g2, 42, 0, true, false);
    wl1.run();
    wl2.run();
    assert_eq!(wl1.get_results(), wl2.get_results());
}

#[test]
fn graphwrapper_simple_fail() {
    let g = Graph::from_edges(false, vec![(0, 1), (1, 2)]);
    let g2 = Graph::from_edges(false, vec![(1, 0)]);
    let mut wl1 = GraphWrapper::new_2wl(g, 42, 0, true, false);
    let mut wl2 = GraphWrapper::new(g2, 42, 0, true, false);
    wl1.run();
    wl2.run();
    assert_ne!(wl1.get_results(), wl2.get_results());
}

#[test]
fn graphwrapper_different_iterations() {
    let g = Graph::from_edges(false, vec![(0, 1), (0, 2), (0, 3)]);
    let g2 = Graph::from_edges(false, vec![(0, 1), (0, 2), (0, 3)]);
    let mut wl1 = GraphWrapper::new(g, 42, 2, false, false);
    let mut wl2 = GraphWrapper::new(g2, 42, 3, false, false);
    wl1.run();
    wl2.run();
    assert_ne!(wl1.get_results(), wl2.get_results());
}

#[test]
fn early_termination() {
    let g = Graph::from_edges(false, vec![(0, 1), (0, 2), (0, 3)]);
    let g2 = Graph::from_edges(false, vec![(0, 1), (0, 2), (0, 3)]);
    let mut wl1 = GraphWrapper::new(g, 42, 0, false, false);
    let mut wl2 = GraphWrapper::new(g2, 42, 0, true, false);
    wl1.run();
    wl2.run();
    // these have different outcomes, that is important to be aware of!
    assert_ne!(wl1.get_results(), wl2.get_results());
}

#[test]
fn graphwrapper_equivalence_hardcoded_stabilisation() {
    // The auto-stop run skips applying the round that confirms stabilisation,
    // so it coincides with this fixed budget on this graph.
    let g = Graph::from_edges(false, vec![(0, 1), (1, 2), (2, 3), (3, 4)]);
    let g2 = Graph::from_edges(false, vec![(0, 1), (1, 2), (2, 3), (3, 4)]);
    let mut wl1 = GraphWrapper::new(g, 42, 2, false, false);
    let mut wl2 = GraphWrapper::new(g2, 42, 0, true, false);
    wl1.run();
    wl2.run();
    assert_eq!(wl1.get_results(), wl2.get_results());
}

#[test]
fn simple_dir() {
    let g = Graph::from_edges(false, vec![(0, 1)]);
    let g2 = Graph::from_edges(true, vec![(0, 1)]);
    let mut wl1 = GraphWrapper::new(g, 42, 0, true, false);
    let mut wl2 = GraphWrapper::new(g2, 42, 0, true, false);
    wl1.run();
    wl2.run();
    assert_ne!(wl1.get_results(), wl2.get_results());
}

#[test]
fn flipped_dir() {
    let g = Graph::from_edges(true, vec![(0, 1), (1, 2), (3, 4), (2, 3)]);
    let g2 = Graph::from_edges(true, vec![(1, 0), (2, 1), (3, 2), (4, 3)]);
    let mut wl1 = GraphWrapper::new(g, 42, 0, true, false);
    let mut wl2 = GraphWrapper::new(g2, 42, 0, true, false);
    wl1.run();
    wl2.run();
    assert_eq!(wl1.get_results(), wl2.get_results());
}

#[test]
fn flipped_middle() {
    let g = Graph::from_edges(true, vec![(0, 1), (1, 2), (2, 3), (3, 4)]);
    let g2 = Graph::from_edges(true, vec![(1, 0), (2, 1), (2, 3), (4, 3)]);
    let mut wl1 = GraphWrapper::new(g, 42, 0, true, false);
    let mut wl2 = GraphWrapper::new(g2, 42, 0, true, false);
    wl1.run();
    wl2.run();
    assert_ne!(wl1.get_results(), wl2.get_results());
}

#[test]
fn graphwrapper_flipped_middle_undirected() {
    let g = Graph::from_edges(false, vec![(0, 1), (1, 2), (2, 3), (3, 4)]);
    let g2 = Graph::from_edges(false, vec![(1, 0), (2, 1), (2, 3), (4, 3)]);
    let mut wl1 = GraphWrapper::new(g, 42, 0, true, false);
    let mut wl2 = GraphWrapper::new(g2, 42, 0, true, false);
    wl1.run();
    wl2.run();
    assert_eq!(wl1.get_results(), wl2.get_results());
}
