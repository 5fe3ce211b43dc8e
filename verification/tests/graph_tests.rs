use kyopro_lib::graph::tsort::tsort;
use kyopro_lib::graph::wip::{AdjListBuilder, Builder};
use kyopro_lib::graph::{Graph, LabeledGraph};
use kyopro_lib::graph::scc::strongly_connected_components;
use kyopro_lib::graph::low_link::{two_edge_connected_components, LowLink};
use kyopro_lib::graph::hld::Hld;

#[test]
fn mod_edges() {
    const N: usize = 10;
    let mut g = Graph::builder(N);
    g.edge(1, 2);
    g.edge(3, 4);
    g.extend(vec![(1, 5), (6, 3), (1, 3)]);
    let g = g.build();
    let mut es = Vec::new();
    let mut it = g.edges();
    while let Some(e) = it.next() {
        es.push(e);
    }
    es.sort();
    assert_eq!(es, [(1, 2), (1, 3), (1, 5), (3, 4), (6, 3)]);
}

#[test]
fn labeled_graph_rows() {
    let mut b = LabeledGraph::builder(3);
    b.edge(0, 1, 10u32);
    b.edge(0, 2, 20u32);
    b.bi_edge(1, 2, 5u32);
    let g = b.build();
    assert_eq!(g.len(), 3);
    assert_eq!(g.get(0), &[(2, 20), (1, 10)]);
    assert_eq!(g.get(1), &[(2, 5)]);
    assert_eq!(g.get(2), &[(1, 5)]);
    let mut it = g.edges();
    assert_eq!(it.size_hint(), (4, Some(4)));
    assert_eq!(it.next(), Some((0, 2, &20)));
    assert_eq!(it.next(), Some((0, 1, &10)));
    assert_eq!(it.next(), Some((1, 2, &5)));
    assert_eq!(it.next(), Some((2, 1, &5)));
    assert_eq!(it.next(), None);
}

#[test]
fn jagged_builder_keeps_order() {
    let mut b = Builder::new(3);
    b.push(2, 'a');
    b.push(0, 'b');
    b.push(2, 'c');
    let a = b.build();
    assert_eq!(a.len(), 3);
    assert_eq!(a.row(0), &['b']);
    assert_eq!(a.row(1), &[] as &[char]);
    assert_eq!(a.row(2), &['a', 'c']);
    assert_eq!(a.row(7), &[] as &[char]);
    assert!(!a.is_empty());
    let mut b = AdjListBuilder::new(4);
    b.bi_edge(0, 1);
    b.extend_bi_edges(vec![(1, 2), (3, 0)]);
    let g = b.build();
    assert_eq!(g.neighbors(0), &[1, 3]);
    assert_eq!(g.neighbors(1), &[0, 2]);
    let mut it = g.iter();
    assert_eq!(it.next().unwrap(), &[1, 3]);
}

#[test]
fn tsort_orders_dag_and_detects_cycle() {
    let mut b = Graph::builder(5);
    b.edge(0, 2);
    b.edge(2, 1);
    b.edge(4, 3);
    b.edge(3, 1);
    let g = b.build();
    let order = tsort(&g).unwrap();
    let pos = |v: usize| order.iter().position(|&x| x == v).unwrap();
    assert!(pos(0) < pos(2) && pos(2) < pos(1) && pos(4) < pos(3) && pos(3) < pos(1));
    let mut c = Graph::builder(3);
    c.edge(0, 1);
    c.edge(1, 2);
    c.edge(2, 0);
    assert_eq!(tsort(&c.build()), None);
    let mut l = Graph::builder(2);
    l.edge(1, 1);
    assert_eq!(tsort(&l.build()), None);
}

#[test]
fn graph_edges() {
    use_graph_module_edges();
}

fn use_graph_module_edges() {
    const N: usize = 10;
    let mut g = kyopro_lib::graph::graph::Graph::builder(N);
    g.edge(1, 2);
    g.edge(3, 4);
    g.edge(1, 5);
    g.edge(6, 3);
    g.edge(1, 3);
    let g = g.build();
    let mut es = Vec::new();
    let mut it = g.edges();
    while let Some(e) = it.next() {
        es.push(e);
    }
    es.sort();
    assert_eq!(es, [(1, 2), (1, 3), (1, 5), (3, 4), (6, 3)]);
}

#[test]
fn graph_module_builder_builds_twice() {
    let mut b = kyopro_lib::graph::graph::LabeledGraph::builder(2);
    b.edge(0, 1, 7u8);
    let g1 = b.build();
    b.bi_edge(0, 1, 9u8);
    let g2 = b.build();
    assert_eq!(g1.get(0), &[(1, 7)]);
    assert_eq!(g2.get(0), &[(1, 9), (1, 7)]);
    assert_eq!(g2.get(1), &[(0, 9)]);
}

use kyopro_lib::graph2::graph_ext::GraphExt;
use kyopro_lib::graph2::tree::Tree;
use kyopro_lib::graph2::{AdjList, Graph as Graph2};

#[test]
fn adj_list_rows_in_order() {
    let mut b = AdjList::<u64>::builder(4);
    b.labeled_edge(0, 1, 5);
    b.labeled_edge(0, 2, 1);
    b.labeled_bi_edge(2, 3, 7);
    b.extend_labeled(vec![(1, 3, 2), (0, 3, 9)]);
    let g = b.build();
    assert_eq!(g.len(), 4);
    assert_eq!(g.edge_count(), 6);
    assert_eq!(g.adj(0), &[(1, 5), (2, 1), (3, 9)]);
    assert_eq!(g.adj(2), &[(3, 7)]);
    assert_eq!(g.adj(3), &[(2, 7)]);
    let mut it = g.iter();
    let mut rows = 0;
    while let Some(_) = it.next() {
        rows += 1;
    }
    assert_eq!(rows, 4);
}

#[test]
fn graph_ext_tsort() {
    let g = AdjList::from_edges(5, vec![(0, 2), (2, 1), (4, 0), (3, 1)]);
    let order = g.tsort().unwrap();
    let pos = |v: usize| order.iter().position(|&x| x == v).unwrap();
    assert_eq!(order.len(), 5);
    for (u, v) in [(0, 2), (2, 1), (4, 0), (3, 1)] {
        assert!(pos(u) < pos(v));
    }
    let c = AdjList::from_edges(3, vec![(0, 1), (1, 2), (2, 0)]);
    assert_eq!(c.tsort(), None);
}

#[test]
fn graph_ext_djikstra_and_bfs() {
    let g = AdjList::from_labeled_edges(5, vec![(0, 1, 4u64), (0, 2, 1), (2, 1, 2), (1, 3, 5), (2, 3, 8)]);
    assert_eq!(g.djikstra(0, 10), vec![Some(10), Some(13), Some(11), Some(18), None]);
    let h = AdjList::from_edges(5, vec![(0, 1), (1, 2), (0, 3), (3, 2)]);
    assert_eq!(h.dist_bfs(0), vec![0, 1, 2, 1, usize::MAX]);
}

#[test]
fn tree_counts_and_diameter() {
    // 0 - 1 - 2 - 3, and 1 - 4 - 5
    let t = AdjList::from_bi_edges(6, vec![(0, 1), (1, 2), (2, 3), (1, 4), (4, 5)]);
    assert_eq!(t.subtree_vertex_count(0), vec![6, 5, 2, 1, 2, 1]);
    let p = t.diameter(0);
    assert_eq!(p.len(), 5);
    let mut ends = vec![p[0], p[4]];
    ends.sort();
    assert_eq!(ends, vec![3, 5]);
}

#[test]
fn scc_components_in_topological_order() {
    let g = vec![vec![1], vec![0, 2], vec![3], vec![2], vec![]];
    assert_eq!(strongly_connected_components(&g), (3, vec![1, 1, 2, 2, 0]));
    let g = vec![vec![1], vec![0, 2], vec![3], vec![2]];
    assert_eq!(strongly_connected_components(&g), (2, vec![0, 0, 1, 1]));
}

#[test]
fn bridges_and_two_edge_components() {
    let es = [(0, 1), (1, 2), (2, 0), (2, 3), (3, 4)];
    let mut g = vec![vec![]; 5];
    for &(u, v) in &es {
        g[u].push(v);
        g[v].push(u);
    }
    let ll = LowLink::new(&g);
    assert!(!ll.is_bridge(0, 1));
    assert!(!ll.is_bridge(2, 0));
    assert!(ll.is_bridge(2, 3));
    assert!(ll.is_bridge(4, 3));
    assert_eq!(two_edge_connected_components(&g), vec![0, 0, 0, 1, 2]);
    // a doubled edge is no bridge for the components
    let mut h = g.clone();
    h[3].push(4);
    h[4].push(3);
    assert_eq!(two_edge_connected_components(&h), vec![0, 0, 0, 1, 1]);
}

#[test]
fn hld_lowest_common_ancestor() {
    let es = [(0, 1), (0, 2), (1, 3), (1, 4), (2, 5), (4, 6)];
    let mut g = vec![vec![]; 7];
    for &(u, v) in &es {
        g[u].push(v);
        g[v].push(u);
    }
    let hld = Hld::new(&g, 0);
    assert_eq!(hld.lca(3, 4), 1);
    assert_eq!(hld.lca(6, 3), 1);
    assert_eq!(hld.lca(3, 5), 0);
    assert_eq!(hld.lca(4, 1), 1);
    assert_eq!(hld.lca(5, 5), 5);
    assert_eq!(hld.lca(6, 2), 0);
    assert_eq!(hld.lca(6, 4), 4);
}

#[test]
fn hld_lca_deepest_common_ancestor() {
    let g = vec![vec![1, 2], vec![0, 3, 4], vec![0, 5], vec![1], vec![1], vec![2]];
    let h = Hld::new(&g, 0);
    assert_eq!(h.lca(3, 4), 1);
    assert_eq!(h.lca(3, 5), 0);
    assert_eq!(h.lca(4, 1), 1);
    assert_eq!(h.lca(2, 2), 2);
    assert_eq!(h.lca(5, 2), 2);
}

#[test]
fn scc_indices_follow_edges() {
    let g = vec![vec![1], vec![0, 2], vec![]];
    assert_eq!(strongly_connected_components(&g), (2, vec![0, 0, 1]));
    let g = vec![vec![1, 3], vec![2], vec![0, 4], vec![4], vec![5], vec![3], vec![6]];
    let (k, c) = strongly_connected_components(&g);
    assert_eq!(k, 3);
    for u in 0..g.len() {
        assert!(c[u] < k);
        for &v in &g[u] {
            assert!(c[u] <= c[v]);
        }
    }
    assert_eq!(c[0], c[1]);
    assert_eq!(c[1], c[2]);
    assert_eq!(c[3], c[4]);
    assert_eq!(c[4], c[5]);
    assert_ne!(c[0], c[3]);
}
