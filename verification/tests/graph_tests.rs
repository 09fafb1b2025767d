use graph_engine::adjacency::Adjacency;
use graph_engine::graph::Graph;
use graph_engine::node::{Edge, Node};
use graph_engine::{GraphError, GraphKindError};

fn node(id: u32) -> Node<u32> {
    Node::new(id, id * 100)
}

fn edge(to: u32, w: u32) -> Edge<u32> {
    Edge::new(&to, w, &(to * 100))
}

fn ids_of(g: &Graph<u32>) -> Vec<u32> {
    let mut ids = g.node_ids();
    ids.sort();
    ids
}

fn adjacency_ids(g: &Graph<u32>) -> Vec<u32> {
    let mut out = Vec::new();
    let mut it = g.iter();
    while let Some((id, _)) = it.next() {
        out.push(id);
    }
    out.sort();
    out
}

fn weight(g: &Graph<u32>, u: u32, v: u32) -> Option<u32> {
    g.get_adjacency(&u).and_then(|a| a.get(v)).map(|e| e.weight)
}

#[test]
fn node_and_edge_constructors() {
    let n = Node::new(7, "x".to_string());
    assert_eq!(n.number, 7);
    assert_eq!(n.value, "x");
    let e = Edge::new(&3, 9, &"y".to_string());
    assert_eq!(e.node.number, 3);
    assert_eq!(e.weight, 9);
    assert_eq!(e.node.value, "y");
    let c = e.clone();
    assert_eq!(c.node.number, 3);
    assert_eq!(c.weight, 9);
    assert_eq!(c.node.value, "y");
    assert!(e.same_edge(&Edge::new(&3, 1, &"z".to_string())));
    assert!(!e.same_edge(&Edge::new(&4, 9, &"y".to_string())));
    let d: Node<u32> = Node::default();
    assert_eq!(d.number, 0);
    let de: Edge<u32> = Edge::default();
    assert_eq!((de.node.number, de.weight), (0, 0));
}

#[test]
fn error_carries_kind_description_and_message() {
    let e = GraphError::new(GraphKindError::NodeNotFound, "no 5");
    assert_eq!(e.kind(), GraphKindError::NodeNotFound);
    assert_eq!(e.description(), "no 5");
    assert_eq!(e.message(), "this node not found in graph.\nDescription: no 5");
    assert_eq!(
        GraphError::new(GraphKindError::NodeAlreadyExist, "").message(),
        "this node already exist in graph.\nDescription: "
    );
    assert_eq!(
        GraphError::new(GraphKindError::GraphMustBeDirected, "d").message(),
        "this graph must be directed.\nDescription: d"
    );
    assert_eq!(
        GraphError::new(GraphKindError::GraphMustBeUndirected, "u").message(),
        "this graph must be undirected.\nDescription: u"
    );
    assert_eq!(
        GraphError::new(GraphKindError::SerializationFailure, "s").message(),
        "this snapshot is not a graph.\nDescription: s"
    );
}

#[test]
fn adjacency_keeps_one_edge_per_target() {
    let mut a: Adjacency<u32> = Adjacency::new(edge(2, 5));
    assert_eq!(a.len(), 1);
    a.push(edge(3, 1));
    a.push(edge(2, 8));
    assert_eq!(a.len(), 2);
    assert_eq!(a.get(2).unwrap().weight, 8);
    assert_eq!(a.edge(0).node.number, 2);
    assert_eq!(a.edge(1).node.number, 3);
    assert_eq!(a.targets(), vec![2, 3]);
    assert!(a.contains(&edge(3, 77)));
    assert!(!a.contains(&edge(4, 1)));
    assert_eq!(a.position(3), Some(1));
    assert_eq!(a.position(9), None);
    let gone = a.delete(2).unwrap().unwrap();
    assert_eq!(gone.weight, 8);
    assert_eq!(a.len(), 1);
    assert_eq!(a.delete(2).err().unwrap().kind(), GraphKindError::NodeNotFound);
    assert!(a.take(9).is_none());
    assert_eq!(a.take(3).unwrap().weight, 1);
    assert_eq!(a.len(), 0);
    let e: Adjacency<u32> = Adjacency::default();
    assert_eq!(e.len(), 0);
}

#[test]
fn adjacency_cursor_walks_in_order() {
    let mut a: Adjacency<u32> = Adjacency::empty();
    a.push(edge(4, 1));
    a.push(edge(1, 2));
    let mut it = a.iter();
    assert_eq!(it.next().unwrap().node.number, 4);
    assert_eq!(it.next().unwrap().node.number, 1);
    assert!(it.next().is_none());
    assert!(it.next().is_none());
    assert!(Adjacency::from_edges(vec![edge(1, 1), edge(1, 2)]).is_none());
    let b = Adjacency::from_edges(vec![edge(1, 1), edge(2, 2)]).unwrap();
    assert_eq!(b.into_edges().len(), 2);
}

#[test]
fn node_table_and_adjacency_table_keep_the_same_keys() {
    let mut g: Graph<u32> = Graph::empty(true);
    assert_eq!(ids_of(&g), adjacency_ids(&g));
    for id in [5, 1, 9, 3] {
        g.add_node(node(id)).unwrap();
        assert_eq!(ids_of(&g), adjacency_ids(&g));
    }
    g.add_edge(&node(5), &edge(1, 2)).unwrap();
    g.add_edge(&node(9), &edge(5, 2)).unwrap();
    assert_eq!(ids_of(&g), adjacency_ids(&g));
    g.delete_edge(&node(5), &1).unwrap();
    assert_eq!(ids_of(&g), adjacency_ids(&g));
    g.delete_node(&node(5)).unwrap();
    assert_eq!(ids_of(&g), vec![1, 3, 9]);
    assert_eq!(adjacency_ids(&g), vec![1, 3, 9]);
    assert!(g.delete_node(&node(5)).is_err());
    assert_eq!(ids_of(&g), adjacency_ids(&g));
    assert_eq!(g.len(), 3);
}

#[test]
fn add_node_refuses_a_second_node_with_the_same_id() {
    let mut g: Graph<u32> = Graph::empty(false);
    g.add_node(Node::new(1, 10)).unwrap();
    let e = g.add_node(Node::new(1, 20)).err().unwrap();
    assert_eq!(e.kind(), GraphKindError::NodeAlreadyExist);
    assert_eq!(g.get_node(&1).unwrap().value, 10);
    assert_eq!(g.len(), 1);
    assert!(g.get_node(&2).is_none());
    assert!(g.get_adjacency(&2).is_none());
    assert_eq!(g.get_adjacency(&1).unwrap().len(), 0);
}

#[test]
fn add_edge_in_a_directed_graph_goes_one_way() {
    let mut g: Graph<u32> = Graph::empty(true);
    g.add_node(node(1)).unwrap();
    g.add_node(node(2)).unwrap();
    g.add_edge(&node(1), &edge(2, 7)).unwrap();
    assert!(g.contains_edge(1, 2));
    assert!(!g.contains_edge(2, 1));
    assert_eq!(weight(&g, 1, 2), Some(7));
    // the target of a directed edge need not be a node
    g.add_edge(&node(1), &edge(40, 1)).unwrap();
    assert!(g.contains_edge(1, 40));
    let e = g.add_edge(&node(3), &edge(1, 1)).err().unwrap();
    assert_eq!(e.kind(), GraphKindError::NodeNotFound);
}

#[test]
fn adding_an_edge_twice_keeps_the_latest() {
    let mut g: Graph<u32> = Graph::empty(true);
    g.add_node(node(1)).unwrap();
    g.add_node(node(2)).unwrap();
    g.add_edge(&node(1), &edge(2, 7)).unwrap();
    g.add_edge(&node(1), &Edge::new(&2, 3, &555)).unwrap();
    let a = g.get_adjacency(&1).unwrap();
    assert_eq!(a.len(), 1);
    assert_eq!(a.get(2).unwrap().weight, 3);
    assert_eq!(a.get(2).unwrap().node.value, 555);
}

#[test]
fn undirected_edges_come_with_their_mirror() {
    let mut g: Graph<u32> = Graph::empty(false);
    g.add_node(node(1)).unwrap();
    g.add_node(node(2)).unwrap();
    g.add_node(node(3)).unwrap();
    g.add_edge(&Node::new(1, 11), &edge(2, 4)).unwrap();
    assert_eq!(weight(&g, 1, 2), Some(4));
    assert_eq!(weight(&g, 2, 1), Some(4));
    assert_eq!(g.get_adjacency(&2).unwrap().get(1).unwrap().node.value, 11);
    g.add_edge(&node(2), &edge(1, 9)).unwrap();
    assert_eq!(weight(&g, 1, 2), Some(9));
    assert_eq!(weight(&g, 2, 1), Some(9));
    // a missing target is refused, and nothing changes
    let e = g.add_edge(&node(1), &edge(8, 1)).err().unwrap();
    assert_eq!(e.kind(), GraphKindError::NodeNotFound);
    assert_eq!(g.get_adjacency(&1).unwrap().len(), 1);
    let e = g.add_edge(&node(8), &edge(1, 1)).err().unwrap();
    assert_eq!(e.kind(), GraphKindError::NodeNotFound);
    assert_eq!(g.get_adjacency(&1).unwrap().len(), 1);
}

#[test]
fn deleting_one_half_of_an_undirected_edge_removes_both() {
    let mut g: Graph<u32> = Graph::empty(false);
    for id in 1..=3 {
        g.add_node(node(id)).unwrap();
    }
    g.add_edge(&node(1), &edge(2, 4)).unwrap();
    g.add_edge(&node(2), &edge(3, 6)).unwrap();
    let (first, second) = g.delete_edge(&node(2), &1).unwrap();
    assert_eq!(first.unwrap().node.number, 1);
    assert_eq!(second.unwrap().node.number, 2);
    assert!(!g.contains_edge(1, 2));
    assert!(!g.contains_edge(2, 1));
    assert!(g.contains_edge(2, 3));
    assert!(g.contains_edge(3, 2));
    let e = g.delete_edge(&node(1), &2).err().unwrap();
    assert_eq!(e.kind(), GraphKindError::NodeNotFound);
    assert!(g.delete_edge(&node(9), &2).is_err());
}

#[test]
fn delete_edge_in_a_directed_graph_returns_the_edge_alone() {
    let mut g: Graph<u32> = Graph::empty(true);
    g.add_node(node(1)).unwrap();
    g.add_node(node(2)).unwrap();
    g.add_edge(&node(1), &edge(2, 4)).unwrap();
    g.add_edge(&node(2), &edge(1, 5)).unwrap();
    let (first, second) = g.delete_edge(&node(1), &2).unwrap();
    assert_eq!(first.unwrap().weight, 4);
    assert!(second.is_none());
    assert!(g.contains_edge(2, 1));
}

#[test]
fn a_missing_mirror_fails_the_deletion_and_changes_nothing() {
    let mut g: Graph<u32> = Graph::empty(true);
    g.add_node(node(1)).unwrap();
    g.add_node(node(2)).unwrap();
    g.add_edge(&node(1), &edge(2, 4)).unwrap();
    g.to_undirected();
    assert!(!g.get_is_directed());
    let e = g.delete_edge(&node(1), &2).err().unwrap();
    assert_eq!(e.kind(), GraphKindError::NodeNotFound);
    assert!(g.contains_edge(1, 2));
    g.to_directed();
    assert!(g.get_is_directed());
    assert!(g.delete_edge(&node(1), &2).is_ok());
}

#[test]
fn a_loop_in_an_undirected_graph_is_its_own_mirror() {
    let mut g: Graph<u32> = Graph::empty(false);
    g.add_node(node(1)).unwrap();
    g.add_edge(&Node::new(1, 42), &edge(1, 3)).unwrap();
    let a = g.get_adjacency(&1).unwrap();
    assert_eq!(a.len(), 1);
    assert_eq!(a.get(1).unwrap().weight, 3);
    assert_eq!(a.get(1).unwrap().node.value, 42);
    let (first, second) = g.delete_edge(&node(1), &1).unwrap();
    assert_eq!(first.unwrap().weight, 3);
    assert!(second.is_none());
    assert_eq!(g.get_adjacency(&1).unwrap().len(), 0);
}

#[test]
fn delete_node_scrubs_every_edge_that_leads_to_it() {
    let mut g: Graph<u32> = Graph::empty(true);
    for id in 1..=4 {
        g.add_node(node(id)).unwrap();
    }
    g.add_edge(&node(1), &edge(3, 1)).unwrap();
    g.add_edge(&node(2), &edge(3, 1)).unwrap();
    g.add_edge(&node(3), &edge(3, 1)).unwrap();
    g.add_edge(&node(3), &edge(4, 2)).unwrap();
    g.add_edge(&node(1), &edge(2, 1)).unwrap();
    let removed = g.delete_node(&node(3)).unwrap();
    assert_eq!(removed.targets(), vec![4]);
    assert_eq!(ids_of(&g), vec![1, 2, 4]);
    assert!(!g.contains_edge(1, 3));
    assert!(!g.contains_edge(2, 3));
    assert!(g.contains_edge(1, 2));
    let e = g.delete_node(&node(3)).err().unwrap();
    assert_eq!(e.kind(), GraphKindError::NodeNotFound);
}

#[test]
fn new_without_a_seed_is_empty() {
    let g: Graph<u32> = Graph::new(None, Adjacency::new(edge(2, 1)), true);
    assert_eq!(g.len(), 0);
    assert!(g.get_is_directed());
    assert!(g.get_some_node_index().is_none());
    let d: Graph<u32> = Graph::default();
    assert!(!d.get_is_directed());
    assert_eq!(d.len(), 0);
}

#[test]
fn new_with_a_seed_in_a_directed_graph_holds_the_seed_alone() {
    let g: Graph<u32> = Graph::new(Some(node(1)), Adjacency::new(edge(2, 5)), true);
    assert_eq!(ids_of(&g), vec![1]);
    assert_eq!(adjacency_ids(&g), vec![1]);
    assert_eq!(weight(&g, 1, 2), Some(5));
    assert_eq!(g.get_some_node_index(), Some(1));
}

#[test]
fn new_with_a_seed_in_an_undirected_graph_brings_the_targets_in() {
    let g: Graph<u32> = Graph::new(Some(Node::new(1, 10)), Adjacency::new(Edge::new(&2, 5, &20)), false);
    assert_eq!(ids_of(&g), vec![1, 2]);
    assert_eq!(adjacency_ids(&g), vec![1, 2]);
    assert_eq!(weight(&g, 1, 2), Some(5));
    assert_eq!(weight(&g, 2, 1), Some(5));
    assert_eq!(g.get_node(&2).unwrap().value, 20);
    assert_eq!(g.get_adjacency(&2).unwrap().get(1).unwrap().node.value, 10);
    let l: Graph<u32> = Graph::new(Some(node(1)), Adjacency::new(edge(1, 5)), false);
    assert_eq!(ids_of(&l), vec![1]);
    assert_eq!(weight(&l, 1, 1), Some(5));
}

#[test]
fn cursor_hands_out_every_node_once_and_starts_again() {
    let mut g: Graph<u32> = Graph::empty(true);
    for id in [3, 1, 2] {
        g.add_node(node(id)).unwrap();
    }
    g.add_edge(&node(1), &edge(2, 1)).unwrap();
    assert_eq!(adjacency_ids(&g), vec![1, 2, 3]);
    assert_eq!(adjacency_ids(&g), vec![1, 2, 3]);
    let mut it = g.iter();
    let mut degrees = Vec::new();
    while let Some((id, a)) = it.next() {
        degrees.push((id, a.len()));
    }
    degrees.sort();
    assert_eq!(degrees, vec![(1, 1), (2, 0), (3, 0)]);
    assert!(it.next().is_none());
}
