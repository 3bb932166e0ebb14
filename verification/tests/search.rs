use graphs::breadth_first_paths::BreadthFirstPaths;
use graphs::cc::CC;
use graphs::cycle::Cycle;
use graphs::depth_first_search::DepthFirstSearch;
use graphs::graph::Graph;
use graphs::two_color::TwoColor;

// 0 ------ 2
// |\      /|\
// | \    / | \
// |    1   |  \
// 5 ------ 3 - 4
fn graph_data() -> Graph {
    let mut g = Graph::new(6);
    g.add_edge(0, 2);
    g.add_edge(0, 1);
    g.add_edge(0, 5);
    g.add_edge(1, 0);
    g.add_edge(1, 2);
    g.add_edge(2, 0);
    g.add_edge(2, 1);
    g.add_edge(2, 3);
    g.add_edge(2, 4);
    g.add_edge(3, 5);
    g.add_edge(3, 4);
    g.add_edge(3, 2);
    g.add_edge(4, 3);
    g.add_edge(4, 2);
    g.add_edge(5, 3);
    g.add_edge(5, 0);
    g
}

fn simple_graph() -> Graph {
    let mut g = Graph::new(6);
    g.add_edge(0, 2);
    g.add_edge(0, 1);
    g.add_edge(0, 5);
    g.add_edge(1, 2);
    g.add_edge(2, 3);
    g.add_edge(2, 4);
    g.add_edge(3, 5);
    g.add_edge(3, 4);
    g
}

fn two_islands() -> Graph {
    let mut g = Graph::new(7);
    g.add_edge(0, 1);
    g.add_edge(1, 2);
    g.add_edge(4, 5);
    g.add_edge(5, 6);
    g
}

#[test]
fn depth_first_search_has_path_to_test() {
    let g = graph_data();
    let d = DepthFirstSearch::new(&g, 1);
    assert!(d.has_path_to(0));
}

#[test]
fn depth_first_search_path_to_test() {
    let g = graph_data();
    let d = DepthFirstSearch::new(&g, 0);
    let mut list = d.path_to(1);
    assert_eq!(Some(0), list.pop());
    assert_eq!(Some(2), list.pop());
    assert_eq!(Some(1), list.pop());
    assert_eq!(None, list.pop());
}

#[test]
fn breadth_first_paths_has_path_to_test() {
    let g = graph_data();
    let d = BreadthFirstPaths::new(&g, 1);
    assert!(d.has_path_to(0));
}

#[test]
fn breadth_first_paths_path_to_test() {
    let g = graph_data();
    let d = BreadthFirstPaths::new(&g, 0);
    let mut list = d.path_to(1);
    assert_eq!(Some(0), list.pop());
    assert_eq!(Some(1), list.pop());
    assert_eq!(None, list.pop());
}

#[test]
fn searches_mark_the_same_vertices() {
    let g = two_islands();
    for s in 0..7 {
        let d = DepthFirstSearch::new(&g, s);
        let b = BreadthFirstPaths::new(&g, s);
        for v in 0..7 {
            assert_eq!(d.has_path_to(v), b.has_path_to(v));
        }
    }
    let d = DepthFirstSearch::new(&g, 0);
    assert!(d.has_path_to(2));
    assert!(!d.has_path_to(3));
    assert!(!d.has_path_to(4));
}

#[test]
fn unreachable_vertex_has_empty_path() {
    let g = two_islands();
    let d = DepthFirstSearch::new(&g, 0);
    let b = BreadthFirstPaths::new(&g, 0);
    assert_eq!(Vec::<usize>::new(), d.path_to(5));
    assert_eq!(Vec::<usize>::new(), b.path_to(5));
    assert_eq!(vec![0], d.path_to(0));
    assert_eq!(vec![0], b.path_to(0));
}

#[test]
fn breadth_first_path_is_never_longer() {
    let g = simple_graph();
    let d = DepthFirstSearch::new(&g, 0);
    let b = BreadthFirstPaths::new(&g, 0);
    for v in 0..6 {
        assert!(b.path_to(v).len() <= d.path_to(v).len());
    }
    assert_eq!(vec![4, 2, 0], b.path_to(4));
    assert_eq!(vec![3, 2, 0], b.path_to(3));
    assert_eq!(vec![5, 0], b.path_to(5));
    assert_eq!(vec![5, 3, 2, 0], d.path_to(5));
}

#[test]
fn connected_test() {
    let g = graph_data();
    let d = CC::new(&g);
    assert!(d.connected(0, 1));
}

#[test]
fn cc_count_test() {
    let g = graph_data();
    let d = CC::new(&g);
    assert_eq!(1, d.count());
}

#[test]
fn cc_id_test() {
    let g = graph_data();
    let d = CC::new(&g);
    assert_eq!(0, d.id(1));
}

#[test]
fn components_are_numbered_by_smallest_vertex() {
    let g = two_islands();
    let c = CC::new(&g);
    assert_eq!(3, c.count());
    assert_eq!(vec![0, 0, 0, 1, 2, 2, 2], (0..7).map(|v| c.id(v)).collect::<Vec<usize>>());
    assert!(c.connected(4, 6));
    assert!(!c.connected(2, 4));
    assert!(!c.connected(3, 0));
    assert_eq!(0, CC::new(&Graph::new(0)).count());
}

#[test]
fn cycle_has_cycle_test() {
    let c = Cycle::new(&graph_data());
    assert!(c.has_cycle());
}

#[test]
fn forests_have_no_cycle() {
    assert!(!Cycle::new(&two_islands()).has_cycle());
    assert!(!Cycle::new(&Graph::new(3)).has_cycle());
    assert!(Cycle::new(&simple_graph()).has_cycle());
}

#[test]
fn self_loops_and_parallel_edges_are_cycles() {
    let mut g = Graph::new(3);
    g.add_edge(0, 0);
    assert!(Cycle::new(&g).has_cycle());
    let mut g = Graph::new(3);
    g.add_edge(0, 1);
    g.add_edge(2, 2);
    assert!(Cycle::new(&g).has_cycle());
    let mut g = Graph::new(3);
    g.add_edge(1, 2);
    g.add_edge(2, 1);
    assert!(Cycle::new(&g).has_cycle());
    let mut g = Graph::new(3);
    g.add_edge(0, 1);
    g.add_edge(1, 2);
    g.add_edge(2, 0);
    assert!(Cycle::new(&g).has_cycle());
}

#[test]
fn two_color_test() {
    let c = TwoColor::new(&graph_data());
    assert!(!c.is_bipartite());
}

#[test]
fn scenario_components_and_colours() {
    let g = simple_graph();
    assert_eq!(1, CC::new(&g).count());
    assert!(!TwoColor::new(&g).is_bipartite());
}

#[test]
fn paths_and_even_cycles_are_bipartite() {
    assert!(TwoColor::new(&two_islands()).is_bipartite());
    assert!(TwoColor::new(&Graph::new(0)).is_bipartite());
    let mut g = Graph::new(4);
    g.add_edge(0, 1);
    g.add_edge(1, 2);
    g.add_edge(2, 3);
    g.add_edge(3, 0);
    assert!(TwoColor::new(&g).is_bipartite());
    g.add_edge(0, 2);
    assert!(!TwoColor::new(&g).is_bipartite());
    let mut g = Graph::new(2);
    g.add_edge(1, 1);
    assert!(!TwoColor::new(&g).is_bipartite());
}
