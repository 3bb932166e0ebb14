use graphs::digraph::Digraph;
use graphs::graph::Graph;
use graphs::union_find::UF;

#[test]
fn graph_stores_each_edge_at_both_ends() {
    let mut g = Graph::new(4);
    assert_eq!(4, g.v());
    assert_eq!(0, g.e());
    g.add_edge(0, 1);
    g.add_edge(0, 3);
    g.add_edge(2, 2);
    assert_eq!(3, g.e());
    assert_eq!(&[1, 3], g.adj(0));
    assert_eq!(&[0], g.adj(1));
    assert_eq!(&[2, 2], g.adj(2));
    assert_eq!(&[0], g.adj(3));
}

#[test]
fn digraph_stores_each_edge_at_its_start() {
    let mut g = Digraph::new(3);
    g.add_edge(0, 1);
    g.add_edge(0, 2);
    g.add_edge(2, 0);
    assert_eq!(3, g.v());
    assert_eq!(3, g.e());
    assert_eq!(&[1, 2], g.adj(0));
    assert!(g.adj(1).is_empty());
    assert_eq!(&[0], g.adj(2));
}

#[test]
fn reverse_turns_every_edge_around() {
    let mut g = Digraph::new(4);
    g.add_edge(0, 1);
    g.add_edge(2, 1);
    g.add_edge(0, 1);
    g.add_edge(3, 0);
    g.add_edge(1, 1);
    let r = g.reverse();
    assert_eq!(4, r.v());
    assert_eq!(5, r.e());
    assert_eq!(&[3], r.adj(0));
    assert_eq!(&[0, 0, 1, 2], r.adj(1));
    assert!(r.adj(2).is_empty());
    assert!(r.adj(3).is_empty());
    // reversing leaves the digraph itself as it was
    assert_eq!(&[1, 1], g.adj(0));
}

#[test]
fn union_find_starts_with_singletons() {
    let u = UF::new(5);
    assert_eq!(5, u.len());
    assert_eq!(5, u.count());
    for i in 0..5 {
        assert_eq!(i, u.find(i));
    }
    assert!(!u.connected(0, 1));
    assert!(u.connected(3, 3));
    assert_eq!(0, UF::new(0).count());
}

#[test]
fn union_connects_and_counts() {
    let mut u = UF::new(6);
    u.union(0, 1);
    assert!(u.connected(0, 1));
    assert_eq!(5, u.count());
    u.union(1, 0);
    assert_eq!(5, u.count());
    u.union(2, 3);
    u.union(0, 3);
    assert_eq!(3, u.count());
    assert!(u.connected(1, 2));
    assert!(!u.connected(1, 4));
    u.union(4, 5);
    u.union(5, 1);
    assert_eq!(1, u.count());
    for i in 0..6 {
        assert!(u.connected(0, i));
    }
}

#[test]
fn union_keeps_the_root_of_the_larger_tree() {
    let mut u = UF::new(5);
    // on a tie the root of the first argument stays
    u.union(3, 4);
    assert_eq!(3, u.find(4));
    u.union(0, 3);
    // {3, 4} is larger than {0}
    assert_eq!(3, u.find(0));
    u.union(1, 2);
    u.union(2, 0);
    // {0, 3, 4} is larger than {1, 2}
    assert_eq!(3, u.find(1));
    assert_eq!(3, u.find(2));
    assert_eq!(1, u.count());
}
