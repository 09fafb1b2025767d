use graph_engine::aggregate::{bellman_ford, task_9_2};
use graph_engine::classify::{
    count_edges, get_nodes_with_color, graph_have_cycle, has_directed_cycle, is_a_forest, is_a_tree,
    neighbours, task_5_18, GraphType,
};
use graph_engine::connectivity::task_6_4;
use graph_engine::cycles::{cycle_from, ColorNode};
use graph_engine::degree::{task_1_4, task_2_4, task_3_5};
use graph_engine::graph::Graph;
use graph_engine::intersection::task_4_6;
use graph_engine::limited_path::{deikstra, task_8_1};
use graph_engine::node::{Edge, Node};
use graph_engine::search::{search, Arcs};
use graph_engine::spanning::task_7_kraskal;
use graph_engine::GraphKindError;
use std::collections::HashMap;

fn graph(directed: bool, nodes: &[u32], edges: &[(u32, u32, u32)]) -> Graph<u32> {
    let mut g: Graph<u32> = Graph::empty(directed);
    for &id in nodes {
        g.add_node(Node::new(id, id)).unwrap();
    }
    for &(u, v, w) in edges {
        g.add_edge(&Node::new(u, u), &Edge::new(&v, w, &v)).unwrap();
    }
    g
}

fn weight(g: &Graph<u32>, u: u32, v: u32) -> Option<u32> {
    g.get_adjacency(&u).and_then(|a| a.get(v)).map(|e| e.weight)
}

fn edge_total(g: &Graph<u32>) -> usize {
    g.node_ids().iter().map(|id| g.get_adjacency(id).unwrap().len()).sum()
}

#[test]
fn degrees_of_a_small_directed_graph() {
    let g = graph(true, &[1, 2, 3], &[(1, 2, 5), (1, 3, 2), (2, 3, 1)]);
    assert_eq!(task_2_4(&g, &3).unwrap(), 2);
    assert_eq!(task_2_4(&g, &2).unwrap(), 1);
    assert_eq!(task_2_4(&g, &1).unwrap(), 0);
    let mut table = task_3_5(&g).unwrap();
    table.sort();
    assert_eq!(table, vec![(1, 2), (2, 1), (3, 0)]);
    assert_eq!(task_1_4(&g, &3), 2);
    assert_eq!(task_1_4(&g, &9), 0);
}

#[test]
fn a_loop_counts_for_the_in_degree_but_not_for_the_strict_one() {
    let g = graph(true, &[1, 2], &[(1, 1, 1), (2, 1, 1)]);
    assert_eq!(task_2_4(&g, &1).unwrap(), 2);
    assert_eq!(task_1_4(&g, &1), 1);
}

#[test]
fn degrees_need_a_directed_graph() {
    let g = graph(false, &[1, 2], &[(1, 2, 1)]);
    assert_eq!(task_2_4(&g, &1).err().unwrap().kind(), GraphKindError::GraphMustBeDirected);
    assert_eq!(task_3_5(&g).err().unwrap().kind(), GraphKindError::GraphMustBeDirected);
    assert_eq!(task_1_4(&g, &1), 1);
}

#[test]
fn connectivity_of_two_pairs_and_of_a_chain() {
    let mut g = graph(false, &[1, 2, 3, 4], &[(1, 2, 1), (3, 4, 1)]);
    assert_eq!(task_6_4(&g).unwrap(), false);
    g.add_edge(&Node::new(2, 2), &Edge::new(&3, 1, &3)).unwrap();
    assert_eq!(task_6_4(&g).unwrap(), true);
}

#[test]
fn connectivity_edge_cases() {
    assert_eq!(task_6_4(&graph(false, &[], &[])).unwrap(), true);
    assert_eq!(task_6_4(&graph(false, &[7], &[])).unwrap(), true);
    assert_eq!(task_6_4(&graph(false, &[7, 8], &[])).unwrap(), false);
    let e = task_6_4(&graph(true, &[1], &[])).err().unwrap();
    assert_eq!(e.kind(), GraphKindError::GraphMustBeUndirected);
}

#[test]
fn search_meets_what_is_reachable_and_gives_the_way() {
    let g = graph(true, &[1, 2, 3, 4, 5], &[(1, 2, 1), (2, 3, 1), (1, 4, 1), (4, 3, 1), (5, 1, 1)]);
    let t = search(&g, 1, None);
    assert_eq!(t.count(), 4);
    assert!(t.reached(3));
    assert!(!t.reached(5));
    assert_eq!(t.nodes()[0], 1);
    let p = t.path_to(3);
    assert_eq!(p.len(), 3);
    assert_eq!(p[0], 1);
    assert_eq!(p[2], 3);
    assert!(g.contains_edge(p[0], p[1]) && g.contains_edge(p[1], p[2]));
    assert_eq!(t.path_to(1), vec![1]);
    let stopped = search(&g, 1, Some(2));
    assert!(stopped.reached(2));
    assert!(!stopped.reached(3));
    let mut s = g.successors(1);
    s.sort();
    assert_eq!(s, vec![2, 4]);
    assert!(g.successors(77).is_empty());
}

#[test]
fn four_nodes_and_three_edges_without_a_cycle_are_a_tree() {
    let mut g = graph(true, &[1, 2, 3, 4], &[(1, 2, 1), (1, 3, 1), (3, 4, 1)]);
    assert_eq!(task_5_18(&g).unwrap(), GraphType::Tree);
    assert!(is_a_tree(&g));
    g.add_edge(&Node::new(4, 4), &Edge::new(&1, 1, &1)).unwrap();
    assert_eq!(task_5_18(&g).unwrap(), GraphType::Default);
    assert!(!is_a_tree(&g));
    assert!(!is_a_forest(&g));
}

#[test]
fn two_separate_trees_are_a_forest() {
    let g = graph(true, &[1, 2, 3, 4, 5], &[(1, 2, 1), (1, 3, 1), (4, 5, 1)]);
    assert_eq!(task_5_18(&g).unwrap(), GraphType::Forest);
    assert!(is_a_forest(&g));
    assert!(!is_a_tree(&g));
}

#[test]
fn classification_edge_cases() {
    assert_eq!(task_5_18(&graph(true, &[], &[])).unwrap(), GraphType::Forest);
    assert_eq!(task_5_18(&graph(true, &[1], &[])).unwrap(), GraphType::Tree);
    assert_eq!(task_5_18(&graph(true, &[1], &[(1, 1, 1)])).unwrap(), GraphType::Default);
    assert_eq!(task_5_18(&graph(true, &[1, 2, 3], &[])).unwrap(), GraphType::Forest);
    // two ways from 1 to 3: no cycle along the edges, but not one edge fewer than nodes
    let diamond = graph(true, &[1, 2, 3], &[(1, 2, 1), (2, 3, 1), (1, 3, 1)]);
    assert_eq!(task_5_18(&diamond).unwrap(), GraphType::Default);
    let e = task_5_18(&graph(false, &[1], &[])).err().unwrap();
    assert_eq!(e.kind(), GraphKindError::GraphMustBeDirected);
}

#[test]
fn edge_count_and_neighbour_table() {
    let g = graph(true, &[1, 2, 3], &[(1, 2, 1), (2, 3, 1), (1, 3, 1), (3, 9, 1)]);
    assert_eq!(count_edges(&g), 4);
    let t = neighbours(&g);
    let mut of3 = t.successors(3);
    of3.sort();
    assert_eq!(of3, vec![1, 2]);
    assert!(t.successors(9).is_empty());
}

#[test]
fn cycle_search_with_a_colour_table() {
    let g = graph(true, &[1, 2, 3, 4], &[(1, 2, 1), (2, 3, 1), (3, 2, 1), (4, 1, 1)]);
    assert!(has_directed_cycle(&g));
    let mut colors = get_nodes_with_color(&g);
    assert_eq!(colors.len(), 4);
    assert!(colors.values().all(|c| *c == ColorNode::White));
    assert_eq!(graph_have_cycle(&g, &1, &mut colors).unwrap(), true);
    let mut colors = get_nodes_with_color(&g);
    let e = graph_have_cycle(&g, &9, &mut colors).err().unwrap();
    assert_eq!(e.kind(), GraphKindError::NodeNotFound);

    let dag = graph(true, &[1, 2, 3, 4], &[(1, 2, 1), (2, 3, 1), (1, 3, 1)]);
    assert!(!has_directed_cycle(&dag));
    let mut colors: HashMap<u32, ColorNode> = HashMap::new();
    assert!(!cycle_from(&dag, 1, &mut colors));
    assert_eq!(colors.get(&1), Some(&ColorNode::Black));
    assert_eq!(colors.get(&3), Some(&ColorNode::Black));
    assert_eq!(colors.get(&4), None);
    assert!(!cycle_from(&dag, 4, &mut colors));
    assert_eq!(colors.get(&4), Some(&ColorNode::Black));
    assert_eq!(graph_have_cycle(&dag, &2, &mut colors).unwrap(), false);
}

#[test]
fn spanning_forest_of_a_triangle_with_a_tail() {
    let g = graph(false, &[1, 2, 3, 4, 5], &[(1, 2, 3), (2, 3, 4), (3, 1, 5), (3, 4, 6)]);
    let t = task_7_kraskal(&g).unwrap();
    assert!(!t.get_is_directed());
    let mut ids = t.node_ids();
    ids.sort();
    assert_eq!(ids, vec![1, 2, 3, 4, 5]);
    // three edges span the four connected nodes; each stands with its mirror
    assert_eq!(edge_total(&t), 6);
    assert_eq!(weight(&t, 3, 4), Some(6));
    assert_eq!(weight(&t, 4, 3), Some(6));
    assert_eq!(t.get_adjacency(&5).unwrap().len(), 0);
    for (u, v) in [(1u32, 2u32), (2, 3), (3, 1), (3, 4)] {
        assert!(search(&t, u, Some(v)).reached(v));
    }
    for (u, v, w) in [(1u32, 2u32, 3u32), (2, 3, 4), (3, 1, 5)] {
        if t.contains_edge(u, v) {
            assert_eq!(weight(&t, u, v), Some(w));
            assert_eq!(weight(&t, v, u), Some(w));
        }
    }
    assert_eq!(t.get_node(&4).unwrap().value, 4);
}

#[test]
fn spanning_forest_drops_loops_and_refuses_what_it_cannot_span() {
    let g = graph(false, &[1, 2], &[(1, 1, 9), (1, 2, 1)]);
    let t = task_7_kraskal(&g).unwrap();
    assert!(!t.contains_edge(1, 1));
    assert!(t.contains_edge(1, 2) && t.contains_edge(2, 1));
    let e = task_7_kraskal(&graph(true, &[1], &[])).err().unwrap();
    assert_eq!(e.kind(), GraphKindError::GraphMustBeUndirected);
    let mut dangling = graph(true, &[1], &[(1, 2, 1)]);
    dangling.to_undirected();
    let e = task_7_kraskal(&dangling).err().unwrap();
    assert_eq!(e.kind(), GraphKindError::NodeNotFound);
    assert_eq!(task_7_kraskal(&graph(false, &[], &[])).unwrap().len(), 0);
}

#[test]
fn reach_within_a_weight_limit() {
    let g = graph(false, &[1, 2, 3, 4], &[(1, 2, 5), (2, 3, 5), (1, 3, 20), (3, 4, 1)]);
    assert_eq!(task_8_1(&g, 1, 3, 10).unwrap(), true);
    assert_eq!(task_8_1(&g, 1, 3, 9).unwrap(), false);
    assert_eq!(task_8_1(&g, 1, 4, 11).unwrap(), true);
    assert_eq!(task_8_1(&g, 1, 4, 10).unwrap(), false);
    assert_eq!(task_8_1(&g, 1, 1, 0).unwrap(), true);
    assert_eq!(task_8_1(&g, 1, 9, u32::MAX).unwrap(), false);
    assert_eq!(task_8_1(&g, 9, 9, 0).unwrap(), true);
    assert_eq!(task_8_1(&g, 9, 1, u32::MAX).unwrap(), false);
    let e = task_8_1(&graph(true, &[1], &[]), 1, 1, 0).err().unwrap();
    assert_eq!(e.kind(), GraphKindError::GraphMustBeUndirected);
}

#[test]
fn weights_beyond_the_limit_do_not_wrap() {
    let g = graph(true, &[1, 2, 3], &[(1, 2, u32::MAX), (2, 3, u32::MAX)]);
    assert!(deikstra(&g, 1, 2, u32::MAX));
    assert!(!deikstra(&g, 1, 3, u32::MAX));
    assert!(!deikstra(&g, 1, 2, u32::MAX - 1));
    let z = graph(true, &[1, 2], &[(1, 2, 0), (2, 1, 0)]);
    assert!(deikstra(&z, 1, 2, 0));
}

#[test]
fn total_of_shortest_ways() {
    let g = graph(false, &[1, 2, 3, 4], &[(1, 2, 5), (2, 3, 5), (1, 3, 20)]);
    // from 1: 2 at 5, 3 at 10; 4 is out of reach
    assert_eq!(bellman_ford(&g, &1), 15);
    assert_eq!(bellman_ford(&g, &2), 10);
    assert_eq!(bellman_ford(&g, &3), 15);
    assert_eq!(bellman_ford(&g, &4), 0);
    assert_eq!(bellman_ford(&g, &9), 0);
    assert_eq!(task_9_2(&g, &10).unwrap(), 2);
    assert_eq!(task_9_2(&g, &9).unwrap(), -1);
    let x = task_9_2(&g, &15).unwrap();
    assert!(x == 1 || x == 2 || x == 3);
    let e = task_9_2(&graph(true, &[1], &[]), &1).err().unwrap();
    assert_eq!(e.kind(), GraphKindError::GraphMustBeUndirected);
    assert_eq!(task_9_2(&graph(false, &[], &[]), &1).unwrap(), -1);
}

#[test]
fn long_chain_needs_every_round() {
    let nodes: Vec<u32> = (1..=6).collect();
    let g = graph(true, &nodes, &[(6, 5, 1), (5, 4, 1), (4, 3, 1), (3, 2, 1), (2, 1, 1)]);
    // the ways lead to node 1: 1 + 2 + 3 + 4 + 5
    assert_eq!(bellman_ford(&g, &1), 15);
    assert_eq!(bellman_ford(&g, &6), 0);
    let big = graph(true, &[1, 2, 3], &[(3, 2, u32::MAX), (2, 1, u32::MAX)]);
    assert_eq!(bellman_ford(&big, &1), 3 * (u32::MAX as u128));
}

#[test]
fn intersection_of_two_directed_graphs() {
    let mut a = graph(true, &[1, 2, 3, 4], &[(1, 2, 5), (2, 3, 6), (3, 4, 7), (1, 3, 1)]);
    let mut b: Graph<u32> = Graph::empty(true);
    for id in [1, 2, 3, 9] {
        b.add_node(Node::new(id, id + 1000)).unwrap();
    }
    b.add_edge(&Node::new(1, 0), &Edge::new(&2, 50, &77)).unwrap();
    b.add_edge(&Node::new(2, 0), &Edge::new(&3, 60, &78)).unwrap();
    b.add_edge(&Node::new(3, 0), &Edge::new(&4, 70, &79)).unwrap();
    b.add_edge(&Node::new(3, 0), &Edge::new(&1, 1, &80)).unwrap();
    let t = task_4_6(&mut a, &mut b).unwrap();
    assert!(t.get_is_directed());
    let mut ids = t.node_ids();
    ids.sort();
    assert_eq!(ids, vec![1, 2, 3]);
    assert_eq!(t.get_node(&1).unwrap().value, 1);
    assert_eq!(edge_total(&t), 2);
    assert_eq!(weight(&t, 1, 2), Some(50));
    assert_eq!(weight(&t, 2, 3), Some(60));
    assert_eq!(t.get_adjacency(&1).unwrap().get(2).unwrap().node.value, 77);
    assert!(!t.contains_edge(3, 4));
    assert!(!t.contains_edge(1, 3));
}

#[test]
fn intersection_makes_both_directed_where_they_differ() {
    let mut a = graph(false, &[1, 2], &[(1, 2, 5)]);
    let mut b = graph(true, &[1, 2], &[(2, 1, 9)]);
    let t = task_4_6(&mut a, &mut b).unwrap();
    assert!(a.get_is_directed());
    assert!(b.get_is_directed());
    assert!(t.get_is_directed());
    assert_eq!(edge_total(&t), 1);
    assert_eq!(weight(&t, 2, 1), Some(9));
    assert_eq!(edge_total(&a), 2);

    let mut c = graph(false, &[1, 2, 3], &[(1, 2, 5), (2, 3, 5)]);
    let mut d = graph(false, &[1, 2, 3], &[(1, 2, 8)]);
    let u = task_4_6(&mut c, &mut d).unwrap();
    assert!(!u.get_is_directed());
    assert!(!c.get_is_directed());
    assert_eq!(weight(&u, 1, 2), Some(8));
    assert_eq!(weight(&u, 2, 1), Some(8));
    assert_eq!(edge_total(&u), 2);
}
