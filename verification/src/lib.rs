//! Vertex-indexed graphs and the classic algorithms on them, with sorting and symbol
//! tables beside them, all with proved contracts.
//!
//! Vertices are the numbers `0..V`. Graphs are built edge by edge and then handed to the
//! algorithms by shared reference; what an algorithm finds is an object of its own that
//! answers queries and never changes.
//!
//! - Representations: [`graph`], [`digraph`], [`edge`], [`directed_edge`],
//!   [`edge_weighted_graph`], [`edge_weighted_digraph`], and [`symbol_graph`] for graphs
//!   whose vertices have names.
//! - What the contracts speak of: walks and reachability in [`paths`], the record of a
//!   depth-first traversal in [`dfs`], search trees in [`tree`], sets of weighted edges
//!   in [`spanning`].
//! - Undirected graphs: [`depth_first_search`], [`breadth_first_paths`], [`cc`],
//!   [`cycle`], [`two_color`].
//! - Digraphs: [`directed_dfs`], [`transitive_closure`], [`directed_cycle`],
//!   [`depth_first_order`], [`topological`], [`kosaraju_scc`].
//! - Minimum spanning trees: [`kruskal_mst`], [`lazy_prim_mst`], [`prim_mst`], on top of
//!   [`union_find`] and [`min_pq`].
//! - Sorting arrays of integers: the methods of [`sort`], each of which gives the same
//!   entries in ascending order; beside them a binary heap, a maximum priority queue and
//!   heap sort on items with keys.
//! - Symbol tables from integers to integers: the tables of [`search`], each of which is
//!   seen as a map.
//!
//! Every function comes with a contract, and every contract is proved. A vertex out of
//! range is excluded by the `requires` of the function that would take it.

pub mod breadth_first_paths;
pub mod cc;
pub mod cycle;
pub mod depth_first_order;
pub mod depth_first_search;
pub mod dfs;
pub mod digraph;
pub mod directed_cycle;
pub mod directed_dfs;
pub mod directed_edge;
pub mod edge;
pub mod edge_weighted_digraph;
pub mod edge_weighted_graph;
pub mod graph;
pub mod kosaraju_scc;
pub mod kruskal_mst;
pub mod lazy_prim_mst;
pub mod min_pq;
pub mod paths;
pub mod prim_mst;
pub mod search;
pub mod sort;
pub mod spanning;
pub mod symbol_graph;
pub mod topological;
pub mod transitive_closure;
pub mod tree;
pub mod two_color;
pub mod union_find;
