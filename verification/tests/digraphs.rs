use graphs::depth_first_order::DepthFirstOrder;
use graphs::digraph::Digraph;
use graphs::directed_cycle::DirectedCycle;
use graphs::directed_dfs::DirectedDFS;
use graphs::kosaraju_scc::KosarajuSCC;
use graphs::topological::Topological;
use graphs::transitive_closure::TransitiveClosure;

fn triangle(n: usize) -> Digraph {
    let mut g = Digraph::new(n);
    g.add_edge(1, 2);
    g.add_edge(2, 3);
    g.add_edge(3, 1);
    g
}

fn chain() -> Digraph {
    let mut g = Digraph::new(5);
    g.add_edge(1, 2);
    g.add_edge(2, 3);
    g.add_edge(3, 4);
    g
}

fn branches() -> Digraph {
    let mut g = Digraph::new(7);
    g.add_edge(1, 2);
    g.add_edge(1, 3);
    g.add_edge(2, 4);
    g.add_edge(3, 5);
    g
}

#[test]
fn directed_dfs_test() {
    let mut g = Digraph::new(6);
    g.add_edge(1, 3);
    g.add_edge(3, 5);
    g.add_edge(5, 1);
    let d = DirectedDFS::new(&g, 1);
    assert!(d.marked(1));
}

#[test]
fn directed_dfs_follows_edges_forward_only() {
    let g = chain();
    let d = DirectedDFS::new(&g, 3);
    assert_eq!(
        vec![false, false, false, true, true],
        (0..5).map(|v| d.marked(v)).collect::<Vec<bool>>()
    );
}

#[test]
fn directed_cycle_has_cycle_test() {
    let d = DirectedCycle::new(&triangle(5));
    assert!(d.has_cycle());
}

#[test]
fn cycle_test() {
    let d = DirectedCycle::new(&triangle(5));
    let c = d.cycle();
    let mut c = c.iter();
    assert_eq!(Some(&3), c.next());
    assert_eq!(Some(&1), c.next());
    assert_eq!(Some(&2), c.next());
    assert_eq!(Some(&3), c.next());
    assert_eq!(None, c.next());
}

#[test]
fn acyclic_digraph_has_no_cycle() {
    let d = DirectedCycle::new(&chain());
    assert!(!d.has_cycle());
    assert!(d.cycle().is_empty());
    let d = DirectedCycle::new(&Digraph::new(0));
    assert!(!d.has_cycle());
}

#[test]
fn self_loop_is_a_directed_cycle() {
    let mut g = chain();
    g.add_edge(4, 4);
    let d = DirectedCycle::new(&g);
    assert!(d.has_cycle());
    assert_eq!(vec![4, 4], d.cycle());
}

#[test]
fn pre_test() {
    let d = DepthFirstOrder::new(&branches());
    assert_eq!(&[0, 1, 2, 4, 3, 5, 6], d.pre());
}

#[test]
fn post_test() {
    let d = DepthFirstOrder::new(&branches());
    assert_eq!(&[0, 4, 2, 5, 3, 1, 6], d.post());
}

#[test]
fn reverse_post_test() {
    let d = DepthFirstOrder::new(&branches());
    let post: Vec<usize> = d.reverse_post();
    assert_eq!(&[6, 1, 3, 5, 2, 4, 0], &post[..]);
}

#[test]
fn is_dag_test() {
    let t = Topological::new(&chain());
    assert!(t.is_dag());
}

#[test]
fn order_test() {
    let t = Topological::new(&chain());
    assert_eq!(&[1, 2, 3, 4, 0], t.order());
}

#[test]
fn cyclic_digraph_has_no_order() {
    let t = Topological::new(&triangle(5));
    assert!(!t.is_dag());
    assert!(t.order().is_empty());
}

#[test]
fn order_puts_every_edge_forward() {
    let mut g = Digraph::new(6);
    let edges = [(5, 0), (5, 2), (4, 0), (4, 1), (2, 3), (3, 1)];
    for (v, w) in edges {
        g.add_edge(v, w);
    }
    let t = Topological::new(&g);
    assert!(t.is_dag());
    let order = t.order();
    assert_eq!(&[5, 4, 2, 3, 1, 0], order);
    for (v, w) in edges {
        let i = order.iter().position(|&x| x == v).unwrap();
        let j = order.iter().position(|&x| x == w).unwrap();
        assert!(i < j);
    }
}

#[test]
fn strongly_connected_test() {
    let k = KosarajuSCC::new(&triangle(4));
    assert!(k.strongly_connected(1, 2));
    assert!(k.strongly_connected(3, 2));
    assert!(k.strongly_connected(1, 3));
}

#[test]
fn kosaraju_scc_count_test() {
    let k = KosarajuSCC::new(&triangle(4));
    assert_eq!(2, k.count());
}

#[test]
fn kosaraju_scc_id_test() {
    let k = KosarajuSCC::new(&triangle(4));
    assert_eq!(0, k.id(1));
    assert_eq!(0, k.id(2));
    assert_eq!(0, k.id(3));
}

#[test]
fn one_way_edges_do_not_join_components() {
    let mut g = Digraph::new(5);
    g.add_edge(0, 1);
    g.add_edge(1, 0);
    g.add_edge(1, 2);
    g.add_edge(2, 3);
    g.add_edge(3, 2);
    let k = KosarajuSCC::new(&g);
    assert_eq!(3, k.count());
    assert!(k.strongly_connected(0, 1));
    assert!(k.strongly_connected(2, 3));
    assert!(!k.strongly_connected(1, 2));
    assert!(!k.strongly_connected(4, 0));
    // no edge leads to a higher number
    assert!(k.id(2) < k.id(1));
}

#[test]
fn transitive_closure_test() {
    let mut g = Digraph::new(5);
    g.add_edge(1, 2);
    g.add_edge(2, 3);
    let t = TransitiveClosure::new(&g);
    assert!(t.reachable(1, 3));
}

#[test]
fn closure_is_one_way() {
    let mut g = Digraph::new(5);
    g.add_edge(1, 2);
    g.add_edge(2, 3);
    let t = TransitiveClosure::new(&g);
    assert!(!t.reachable(3, 1));
    assert!(t.reachable(4, 4));
    assert!(!t.reachable(0, 1));
}

#[test]
fn digraph_without_vertices_is_acyclic() {
    let t = Topological::new(&Digraph::new(0));
    assert!(t.is_dag());
    assert!(t.order().is_empty());
    let t = Topological::new(&Digraph::new(3));
    assert!(t.is_dag());
    assert_eq!(&[2, 1, 0], t.order());
}
