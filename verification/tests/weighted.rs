use graphs::directed_edge::DirectedEdge;
use graphs::edge::Edge;
use graphs::edge_weighted_digraph::EdgeWeightedDigraph;
use graphs::edge_weighted_graph::EdgeWeightedGraph;
use graphs::kruskal_mst::KruskalMST;
use graphs::lazy_prim_mst::LazyPrimMST;
use graphs::min_pq::MinPQ;
use graphs::prim_mst::{EdgeIndex, PrimMST};

/// The key of a weight that is not negative: keys are ordered as the weights are.
fn key(weight: f64) -> u64 {
    weight.to_bits()
}

fn tiny() -> EdgeWeightedGraph {
    let mut g = EdgeWeightedGraph::new(8);
    let edges = [
        (4, 5, 35),
        (4, 7, 37),
        (5, 7, 28),
        (0, 7, 16),
        (1, 5, 32),
        (0, 4, 38),
        (2, 3, 17),
        (1, 7, 19),
        (0, 2, 26),
        (1, 2, 36),
        (1, 3, 29),
        (2, 7, 34),
        (6, 2, 40),
        (3, 6, 52),
        (6, 0, 58),
        (6, 4, 93),
    ];
    for (v, w, weight) in edges {
        g.add_edge(Edge::new(v, w, weight));
    }
    g
}

fn total(edges: &[Edge]) -> u128 {
    edges.iter().map(|e| e.weight() as u128).sum()
}

fn sorted(mut edges: Vec<Edge>) -> Vec<(u64, usize, usize)> {
    let mut keys: Vec<(u64, usize, usize)> =
        edges.drain(..).map(|e| (e.weight(), e.v.min(e.w), e.v.max(e.w))).collect();
    keys.sort();
    keys
}

#[test]
fn other_test() {
    let e = Edge::new(2, 3, key(0.85));
    assert_eq!(Some(3), e.other(2));
}

#[test]
fn edge_knows_its_ends() {
    let e = Edge::new(2, 3, 85);
    assert_eq!(2, e.either());
    assert_eq!(Some(2), e.other(3));
    assert_eq!(None, e.other(4));
    assert_eq!(85, e.weight());
    let loop_edge = Edge::new(5, 5, 1);
    assert_eq!(Some(5), loop_edge.other(5));
}

#[test]
fn directed_edge_knows_its_ends() {
    let d = DirectedEdge::new(1, 2, key(5.6));
    assert_eq!(1, d.from());
    assert_eq!(2, d.to());
    assert_eq!(5.6, f64::from_bits(d.weight()));
}

#[test]
fn edge_weighted_graph_test() {
    let edges = || vec![Edge::new(1, 2, key(0.5)), Edge::new(1, 4, key(0.7)), Edge::new(2, 3, key(0.6))];
    let mut g = EdgeWeightedGraph::new(5);
    for e in edges() {
        g.add_edge(e);
    }
    let list: Vec<Edge> = g.edges();
    assert_eq!(edges(), list);
}

#[test]
fn weighted_graph_lists_edges_by_vertex() {
    let mut g = EdgeWeightedGraph::new(4);
    g.add_edge(Edge::new(3, 1, 7));
    g.add_edge(Edge::new(0, 3, 2));
    g.add_edge(Edge::new(2, 2, 9));
    g.add_edge(Edge::new(1, 0, 4));
    assert_eq!(4, g.v());
    assert_eq!(4, g.e());
    assert_eq!(vec![Edge::new(0, 3, 2), Edge::new(1, 0, 4)], g.adj(0));
    assert_eq!(vec![Edge::new(3, 1, 7), Edge::new(1, 0, 4)], g.adj(1));
    assert_eq!(vec![Edge::new(2, 2, 9), Edge::new(2, 2, 9)], g.adj(2));
    assert_eq!(vec![Edge::new(3, 1, 7), Edge::new(0, 3, 2)], g.adj(3));
    // every edge between two distinct vertices once, seen from its lower end
    assert_eq!(vec![Edge::new(0, 3, 2), Edge::new(1, 0, 4), Edge::new(3, 1, 7)], g.edges());
}

#[test]
fn weighted_digraph_lists_edges_by_start() {
    let mut g = EdgeWeightedDigraph::new(3);
    g.add_edge(DirectedEdge::new(2, 0, 5));
    g.add_edge(DirectedEdge::new(0, 1, 3));
    g.add_edge(DirectedEdge::new(2, 1, 8));
    assert_eq!(3, g.v());
    assert_eq!(3, g.e());
    assert_eq!(&[DirectedEdge::new(0, 1, 3)], g.adj(0));
    assert!(g.adj(1).is_empty());
    assert_eq!(&[DirectedEdge::new(2, 0, 5), DirectedEdge::new(2, 1, 8)], g.adj(2));
    assert_eq!(
        vec![DirectedEdge::new(0, 1, 3), DirectedEdge::new(2, 0, 5), DirectedEdge::new(2, 1, 8)],
        g.edges()
    );
}

#[test]
fn min_pq_insert() {
    let mut q = MinPQ::new(4);
    q.insert(8);
    q.insert(4);
    q.insert(2);

    assert_eq!(&[2, 8, 4], q.as_slice());
}

#[test]
fn min_pq_delete_max() {
    let mut q = MinPQ::new(4);
    q.insert(8);
    q.insert(4);
    q.insert(2);

    let v = q.delete_min();
    assert_eq!(Some(2), v);
    assert_eq!(&[4, 8], q.as_slice());
}

#[test]
fn queue_hands_out_items_in_ascending_order() {
    let mut q: MinPQ<u64> = MinPQ::new(0);
    assert!(q.is_empty());
    assert_eq!(None, q.delete_min());
    for x in [5, 3, 9, 3, 1, 7, 8, 2, 6] {
        q.insert(x);
    }
    assert_eq!(9, q.len());
    let mut out = vec![];
    while let Some(x) = q.delete_min() {
        out.push(x);
    }
    assert_eq!(vec![1, 2, 3, 3, 5, 6, 7, 8, 9], out);
    assert!(q.is_empty());
}

#[test]
fn update_replaces_the_entry_of_a_slot() {
    let mut q: MinPQ<EdgeIndex> = MinPQ::new(4);
    q.insert(EdgeIndex { v: 1, weight: 50 });
    q.insert(EdgeIndex { v: 2, weight: 30 });
    q.insert(EdgeIndex { v: 3, weight: 40 });
    assert!(!q.update(EdgeIndex { v: 4, weight: 1 }));
    assert_eq!(3, q.len());
    // a lighter entry moves up, a heavier one moves down
    assert!(q.update(EdgeIndex { v: 1, weight: 10 }));
    assert!(q.update(EdgeIndex { v: 2, weight: 60 }));
    assert_eq!(3, q.len());
    assert_eq!(Some(EdgeIndex { v: 1, weight: 10 }), q.delete_min());
    assert_eq!(Some(EdgeIndex { v: 3, weight: 40 }), q.delete_min());
    assert_eq!(Some(EdgeIndex { v: 2, weight: 60 }), q.delete_min());
    assert_eq!(None, q.delete_min());
}

#[test]
fn kruskal_takes_edges_in_ascending_order() {
    let mst = KruskalMST::new(&tiny()).edges();
    assert_eq!(
        vec![
            Edge::new(0, 7, 16),
            Edge::new(2, 3, 17),
            Edge::new(1, 7, 19),
            Edge::new(0, 2, 26),
            Edge::new(5, 7, 28),
            Edge::new(4, 5, 35),
            Edge::new(6, 2, 40),
        ],
        mst
    );
    assert_eq!(181, total(&mst));
}

#[test]
fn lazy_prim_grows_the_tree_from_vertex_zero() {
    let mst = LazyPrimMST::new(&tiny()).edges();
    // the edge chosen last comes first
    assert_eq!(
        vec![
            Edge::new(6, 2, 40),
            Edge::new(4, 5, 35),
            Edge::new(5, 7, 28),
            Edge::new(2, 3, 17),
            Edge::new(0, 2, 26),
            Edge::new(1, 7, 19),
            Edge::new(0, 7, 16),
        ],
        mst
    );
    assert_eq!(181, total(&mst));
}

#[test]
fn eager_prim_grows_the_tree_from_vertex_zero() {
    let mst = PrimMST::new(&tiny()).edges();
    assert_eq!(
        vec![
            Edge::new(0, 7, 16),
            Edge::new(1, 7, 19),
            Edge::new(0, 2, 26),
            Edge::new(2, 3, 17),
            Edge::new(5, 7, 28),
            Edge::new(4, 5, 35),
            Edge::new(6, 2, 40),
        ],
        mst
    );
    assert_eq!(181, total(&mst));
}

#[test]
fn spanning_trees_weigh_the_same() {
    // a connected graph with many ties
    let mut g = EdgeWeightedGraph::new(6);
    let edges = [
        (0, 1, 2),
        (1, 2, 2),
        (2, 0, 2),
        (2, 3, 1),
        (3, 4, 3),
        (4, 5, 3),
        (5, 3, 3),
        (0, 5, 4),
        (1, 4, 4),
        (2, 2, 0),
        (0, 1, 2),
    ];
    for (v, w, weight) in edges {
        g.add_edge(Edge::new(v, w, weight));
    }
    let kruskal = KruskalMST::new(&g).edges();
    let lazy = LazyPrimMST::new(&g).edges();
    let eager = PrimMST::new(&g).edges();
    assert_eq!(5, kruskal.len());
    assert_eq!(5, lazy.len());
    assert_eq!(5, eager.len());
    assert_eq!(11, total(&kruskal));
    assert_eq!(11, total(&lazy));
    assert_eq!(11, total(&eager));
}

#[test]
fn weights_given_as_keys_of_floats() {
    let mut g = EdgeWeightedGraph::new(4);
    for (v, w, weight) in [(0, 1, 0.5), (1, 2, 0.25), (2, 0, 0.125), (2, 3, 1.5), (3, 0, 2.0)] {
        g.add_edge(Edge::new(v, w, key(weight)));
    }
    let expect = vec![(key(0.125), 0, 2), (key(0.25), 1, 2), (key(1.5), 2, 3)];
    assert_eq!(expect, sorted(KruskalMST::new(&g).edges()));
    assert_eq!(expect, sorted(LazyPrimMST::new(&g).edges()));
    assert_eq!(expect, sorted(PrimMST::new(&g).edges()));
    let weight: f64 = KruskalMST::new(&g).edges().iter().map(|e| f64::from_bits(e.weight())).sum();
    assert_eq!(1.875, weight);
}

#[test]
fn disconnected_graph_gives_a_forest_or_the_tree_of_vertex_zero() {
    let mut g = EdgeWeightedGraph::new(6);
    for (v, w, weight) in [(0, 1, 5), (1, 2, 1), (2, 0, 3), (3, 4, 2), (4, 5, 2), (5, 3, 9)] {
        g.add_edge(Edge::new(v, w, weight));
    }
    let kruskal = KruskalMST::new(&g).edges();
    assert_eq!(
        vec![Edge::new(1, 2, 1), Edge::new(3, 4, 2), Edge::new(4, 5, 2), Edge::new(2, 0, 3)],
        kruskal
    );
    let expect = vec![(1, 1, 2), (3, 0, 2)];
    assert_eq!(expect, sorted(LazyPrimMST::new(&g).edges()));
    assert_eq!(expect, sorted(PrimMST::new(&g).edges()));
}

#[test]
fn graph_without_edges_has_an_empty_tree() {
    let g = EdgeWeightedGraph::new(3);
    assert!(KruskalMST::new(&g).edges().is_empty());
    assert!(LazyPrimMST::new(&g).edges().is_empty());
    assert!(PrimMST::new(&g).edges().is_empty());
    assert!(KruskalMST::new(&EdgeWeightedGraph::new(0)).edges().is_empty());
}

#[test]
fn heaviest_possible_edge_is_still_taken() {
    let mut g = EdgeWeightedGraph::new(2);
    g.add_edge(Edge::new(0, 1, u64::MAX));
    assert_eq!(vec![Edge::new(0, 1, u64::MAX)], PrimMST::new(&g).edges());
    assert_eq!(vec![Edge::new(0, 1, u64::MAX)], LazyPrimMST::new(&g).edges());
    assert_eq!(vec![Edge::new(0, 1, u64::MAX)], KruskalMST::new(&g).edges());
}

#[test]
fn sinking_goes_left_first_and_then_right() {
    let mut q: MinPQ<u64> = MinPQ::new(8);
    for x in [0, 2, 1, 9] {
        q.insert(x);
    }
    assert_eq!(&[0, 2, 1, 9], q.as_slice());
    // the last item replaces the first and sinks past 2 on the left; then 2, which came
    // up, sinks past 1 on the right
    assert_eq!(Some(0), q.delete_min());
    assert_eq!(&[1, 9, 2], q.as_slice());
    assert_eq!(Some(1), q.delete_min());
    assert_eq!(&[2, 9], q.as_slice());
}

#[test]
fn kruskal_keeps_one_edge_fewer_than_vertices_in_each_part() {
    // two triangles, a pair and a vertex alone: nine vertices in four parts
    let mut g = EdgeWeightedGraph::new(9);
    for (v, w, weight) in [(0, 1, 4), (1, 2, 2), (0, 2, 7), (3, 4, 1), (4, 5, 1), (3, 5, 1), (6, 7, 9)] {
        g.add_edge(Edge::new(v, w, weight));
    }
    let forest = KruskalMST::new(&g).edges();
    assert_eq!(9 - 4, forest.len());
    assert_eq!(4 + 2 + 1 + 1 + 9, total(&forest));

    let empty = EdgeWeightedGraph::new(3);
    assert_eq!(0, KruskalMST::new(&empty).edges().len());
}
