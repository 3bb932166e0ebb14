use graphs::breadth_first_paths::BreadthFirstPaths;
use graphs::cc::CC;
use graphs::cycle::Cycle;
use graphs::depth_first_order::DepthFirstOrder;
use graphs::depth_first_search::DepthFirstSearch;
use graphs::digraph::Digraph;
use graphs::directed_cycle::DirectedCycle;
use graphs::edge::Edge;
use graphs::edge_weighted_graph::EdgeWeightedGraph;
use graphs::graph::Graph;
use graphs::kosaraju_scc::KosarajuSCC;
use graphs::kruskal_mst::KruskalMST;
use graphs::lazy_prim_mst::LazyPrimMST;
use graphs::prim_mst::PrimMST;
use graphs::topological::Topological;
use graphs::transitive_closure::TransitiveClosure;
use graphs::two_color::TwoColor;
use graphs::union_find::UF;

/// A small generator of numbers that look random and are the same in every run.
struct Numbers(u64);

impl Numbers {
    fn next(&mut self, bound: usize) -> usize {
        self.0 = self.0.wrapping_mul(6364136223846793005).wrapping_add(1442695040888963407);
        ((self.0 >> 33) as usize) % bound
    }
}

fn pairs(numbers: &mut Numbers, n: usize, count: usize) -> Vec<(usize, usize)> {
    (0..count).map(|_| (numbers.next(n), numbers.next(n))).collect()
}

/// For each pair of vertices whether the second can be reached from the first, and over
/// how many edges at least.
fn distances(n: usize, edges: &[(usize, usize)], both_ways: bool) -> Vec<Vec<Option<usize>>> {
    let mut d = vec![vec![None; n]; n];
    for v in 0..n {
        d[v][v] = Some(0);
    }
    for &(v, w) in edges {
        if v != w {
            d[v][w] = Some(1);
            if both_ways {
                d[w][v] = Some(1);
            }
        }
    }
    for k in 0..n {
        for i in 0..n {
            for j in 0..n {
                if let (Some(a), Some(b)) = (d[i][k], d[k][j]) {
                    if d[i][j].map_or(true, |c| a + b < c) {
                        d[i][j] = Some(a + b);
                    }
                }
            }
        }
    }
    d
}

#[test]
fn undirected_searches_agree_with_all_pairs_distances() {
    let mut numbers = Numbers(7);
    for round in 0..60 {
        let n = 1 + numbers.next(9);
        let edges = pairs(&mut numbers, n, round % 14);
        let mut g = Graph::new(n);
        for &(v, w) in &edges {
            g.add_edge(v, w);
        }
        let d = distances(n, &edges, true);
        let cc = CC::new(&g);
        for s in 0..n {
            let dfs = DepthFirstSearch::new(&g, s);
            let bfs = BreadthFirstPaths::new(&g, s);
            for v in 0..n {
                assert_eq!(d[s][v].is_some(), dfs.has_path_to(v));
                assert_eq!(d[s][v].is_some(), bfs.has_path_to(v));
                assert_eq!(d[s][v].is_some(), cc.connected(s, v));
                assert_eq!(d[s][v].map_or(0, |k| k + 1), bfs.path_to(v).len());
                for path in [dfs.path_to(v), bfs.path_to(v)] {
                    if let (Some(first), Some(last)) = (path.first(), path.last()) {
                        assert_eq!((v, s), (*first, *last));
                    }
                    for step in path.windows(2) {
                        assert!(g.adj(step[1]).contains(&step[0]));
                    }
                }
            }
        }
        let components = (0..n).filter(|&v| (0..v).all(|u| d[u][v].is_none())).count();
        assert_eq!(components, cc.count());
    }
}

#[test]
fn cycle_and_colouring_agree_with_counting_and_trying() {
    let mut numbers = Numbers(11);
    for round in 0..80 {
        let n = 1 + numbers.next(7);
        let edges = pairs(&mut numbers, n, round % 9);
        let mut g = Graph::new(n);
        for &(v, w) in &edges {
            g.add_edge(v, w);
        }
        // a graph is a forest exactly when it has as many edges as vertices less components
        let components = CC::new(&g).count();
        assert_eq!(edges.len() + components != n, Cycle::new(&g).has_cycle());
        // try every colouring
        let proper = (0..1u32 << n).any(|c| edges.iter().all(|&(v, w)| (c >> v) & 1 != (c >> w) & 1));
        assert_eq!(proper, TwoColor::new(&g).is_bipartite());
    }
}

#[test]
fn digraph_algorithms_agree_with_all_pairs_reachability() {
    let mut numbers = Numbers(13);
    for round in 0..80 {
        let n = 1 + numbers.next(8);
        let edges = pairs(&mut numbers, n, round % 12);
        let mut g = Digraph::new(n);
        for &(v, w) in &edges {
            g.add_edge(v, w);
        }
        let d = distances(n, &edges, false);
        let closure = TransitiveClosure::new(&g);
        let scc = KosarajuSCC::new(&g);
        for v in 0..n {
            for w in 0..n {
                assert_eq!(d[v][w].is_some(), closure.reachable(v, w));
                assert_eq!(d[v][w].is_some() && d[w][v].is_some(), scc.strongly_connected(v, w));
            }
        }
        for &(v, w) in &edges {
            assert!(scc.id(w) <= scc.id(v));
        }
        let cyclic = edges.iter().any(|&(v, w)| d[w][v].is_some());
        let found = DirectedCycle::new(&g);
        assert_eq!(cyclic, found.has_cycle());
        let cycle = found.cycle();
        assert_eq!(cyclic, !cycle.is_empty());
        if cyclic {
            assert_eq!(cycle.first(), cycle.last());
            for step in cycle.windows(2) {
                assert!(g.adj(step[0]).contains(&step[1]));
            }
        }
        let order = DepthFirstOrder::new(&g);
        let mut pre = order.pre().to_vec();
        let mut post = order.post().to_vec();
        pre.sort();
        post.sort();
        assert_eq!((0..n).collect::<Vec<usize>>(), pre);
        assert_eq!((0..n).collect::<Vec<usize>>(), post);
        let sorted = Topological::new(&g);
        assert_eq!(!cyclic, sorted.is_dag());
        if cyclic {
            assert!(sorted.order().is_empty());
        } else {
            assert_eq!(order.reverse_post(), sorted.order());
            for &(v, w) in &edges {
                let i = sorted.order().iter().position(|&x| x == v).unwrap();
                let j = sorted.order().iter().position(|&x| x == w).unwrap();
                assert!(i < j);
            }
        }
    }
}

#[test]
fn union_find_agrees_with_relabelling() {
    let mut numbers = Numbers(17);
    for _ in 0..40 {
        let n = 1 + numbers.next(12);
        let mut uf = UF::new(n);
        let mut label: Vec<usize> = (0..n).collect();
        for _ in 0..numbers.next(20) {
            let (p, q) = (numbers.next(n), numbers.next(n));
            let before = uf.count();
            let joined = uf.connected(p, q);
            assert_eq!(label[p] == label[q], joined);
            uf.union(p, q);
            assert!(uf.connected(p, q));
            assert_eq!(if joined { before } else { before - 1 }, uf.count());
            let (from, to) = (label[p], label[q]);
            for l in label.iter_mut() {
                if *l == from {
                    *l = to;
                }
            }
        }
        for p in 0..n {
            for q in 0..n {
                assert_eq!(label[p] == label[q], uf.connected(p, q));
            }
        }
    }
}

/// The weight of the lightest set of edges that connects whatever the graph connects
/// among the vertices for which `scope` holds, found by trying every set of edges.
fn lightest(n: usize, edges: &[(usize, usize, u64)], scope: &dyn Fn(usize) -> bool) -> u64 {
    let plain: Vec<(usize, usize)> = edges.iter().map(|&(v, w, _)| (v, w)).collect();
    let whole = distances(n, &plain, true);
    let mut best = u64::MAX;
    for set in 0..1usize << edges.len() {
        let chosen: Vec<(usize, usize)> =
            (0..edges.len()).filter(|i| (set >> i) & 1 == 1).map(|i| plain[i]).collect();
        let part = distances(n, &chosen, true);
        let covers = (0..n).all(|v| {
            (0..n).all(|w| !scope(v) || !scope(w) || whole[v][w].is_none() || part[v][w].is_some())
        });
        if covers {
            let weight = (0..edges.len()).filter(|i| (set >> i) & 1 == 1).map(|i| edges[i].2).sum();
            best = best.min(weight);
        }
    }
    best
}

#[test]
fn spanning_trees_are_as_light_as_any_set_of_edges_that_connects() {
    let mut numbers = Numbers(19);
    for round in 0..40 {
        let n = 1 + numbers.next(6);
        let edges: Vec<(usize, usize, u64)> = (0..round % 9)
            .map(|_| (numbers.next(n), numbers.next(n), numbers.next(5) as u64))
            .collect();
        let mut g = EdgeWeightedGraph::new(n);
        for &(v, w, weight) in &edges {
            g.add_edge(Edge::new(v, w, weight));
        }
        let total = |edges: Vec<Edge>| -> u64 { edges.iter().map(|e| e.weight()).sum() };
        let plain: Vec<(usize, usize)> = edges.iter().map(|&(v, w, _)| (v, w)).collect();
        let whole = distances(n, &plain, true);
        assert_eq!(lightest(n, &edges, &|_| true), total(KruskalMST::new(&g).edges()));
        let near = |v: usize| whole[0][v].is_some();
        assert_eq!(lightest(n, &edges, &near), total(LazyPrimMST::new(&g).edges()));
        assert_eq!(lightest(n, &edges, &near), total(PrimMST::new(&g).edges()));
        let forest = KruskalMST::new(&g).edges();
        assert!(forest.windows(2).all(|pair| pair[0].weight() <= pair[1].weight()));
        let components = (0..n).filter(|&v| (0..v).all(|u| whole[u][v].is_none())).count();
        assert_eq!(n - components, forest.len());
    }
}
