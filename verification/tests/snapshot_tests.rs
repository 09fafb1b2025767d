use graph_engine::graph::Graph;
use graph_engine::node::{Edge, Node};
use graph_engine::snapshot::GraphSnapshot;
use graph_engine::GraphKindError;

fn sample(directed: bool) -> Graph<String> {
    let mut g: Graph<String> = Graph::empty(directed);
    for (id, v) in [(1u32, "a"), (2, "b"), (3, "c")] {
        g.add_node(Node::new(id, v.to_string())).unwrap();
    }
    g.add_edge(&Node::new(1, "a".to_string()), &Edge::new(&2, 7, &"b".to_string())).unwrap();
    g.add_edge(&Node::new(2, "b".to_string()), &Edge::new(&3, 4, &"c".to_string())).unwrap();
    g
}

fn edges_of(g: &Graph<String>) -> Vec<(u32, u32, u32, String)> {
    let mut out = Vec::new();
    let mut it = g.iter();
    while let Some((id, a)) = it.next() {
        for i in 0..a.len() {
            let e = a.edge(i);
            out.push((id, e.node.number, e.weight, e.node.value.clone()));
        }
    }
    out.sort();
    out
}

fn nodes_of(g: &Graph<String>) -> Vec<(u32, String)> {
    let mut out: Vec<(u32, String)> =
        g.node_ids().into_iter().map(|id| (id, g.get_node(&id).unwrap().value.clone())).collect();
    out.sort();
    out
}

#[test]
fn snapshot_round_trip_gives_the_graph_again() {
    for directed in [true, false] {
        let g = sample(directed);
        let s = g.to_snapshot();
        assert_eq!(s.is_directed, directed);
        assert_eq!(s.nodes.len(), 3);
        assert_eq!(s.adjacency.len(), 3);
        let h = Graph::from_snapshot(s).unwrap();
        assert_eq!(h.get_is_directed(), directed);
        assert_eq!(nodes_of(&h), nodes_of(&g));
        assert_eq!(edges_of(&h), edges_of(&g));
    }
}

#[test]
fn duplicate_copies_nodes_edges_and_flag() {
    let g = sample(false);
    let h = g.duplicate();
    assert_eq!(h.get_is_directed(), false);
    assert_eq!(nodes_of(&h), nodes_of(&g));
    assert_eq!(edges_of(&h), edges_of(&g));
    assert_eq!(edges_of(&h).len(), 4);
}

#[test]
fn empty_snapshot_is_an_empty_graph() {
    let s: GraphSnapshot<String> = GraphSnapshot { nodes: vec![], adjacency: vec![], is_directed: true };
    let g = Graph::from_snapshot(s).unwrap();
    assert_eq!(g.len(), 0);
    assert!(g.get_is_directed());
}

fn n(id: u32) -> Node<String> {
    Node::new(id, String::new())
}

fn e(to: u32) -> Edge<String> {
    Edge::new(&to, 1, &String::new())
}

fn refused(s: GraphSnapshot<String>) {
    let err = Graph::from_snapshot(s).err().unwrap();
    assert_eq!(err.kind(), GraphKindError::SerializationFailure);
}

#[test]
fn snapshot_with_a_node_under_another_id_is_refused() {
    refused(GraphSnapshot { nodes: vec![(1, n(2))], adjacency: vec![(1, vec![])], is_directed: true });
}

#[test]
fn snapshot_with_a_node_twice_is_refused() {
    refused(GraphSnapshot {
        nodes: vec![(1, n(1)), (1, n(1))],
        adjacency: vec![(1, vec![])],
        is_directed: true,
    });
}

#[test]
fn snapshot_with_an_adjacency_twice_is_refused() {
    refused(GraphSnapshot {
        nodes: vec![(1, n(1))],
        adjacency: vec![(1, vec![]), (1, vec![])],
        is_directed: true,
    });
}

#[test]
fn snapshot_with_differing_keys_is_refused() {
    refused(GraphSnapshot { nodes: vec![(1, n(1))], adjacency: vec![], is_directed: true });
    refused(GraphSnapshot { nodes: vec![], adjacency: vec![(1, vec![])], is_directed: true });
    refused(GraphSnapshot {
        nodes: vec![(1, n(1)), (2, n(2))],
        adjacency: vec![(1, vec![]), (3, vec![])],
        is_directed: false,
    });
}

#[test]
fn snapshot_with_parallel_edges_is_refused() {
    refused(GraphSnapshot {
        nodes: vec![(1, n(1))],
        adjacency: vec![(1, vec![e(2), e(2)])],
        is_directed: true,
    });
}

#[test]
fn snapshot_keeps_the_order_of_edges() {
    let s = GraphSnapshot {
        nodes: vec![(1, n(1)), (2, n(2))],
        adjacency: vec![(2, vec![]), (1, vec![e(9), e(2), e(5)])],
        is_directed: true,
    };
    let g = Graph::from_snapshot(s).unwrap();
    assert_eq!(g.get_adjacency(&1).unwrap().targets(), vec![9, 2, 5]);
    assert_eq!(g.get_adjacency(&2).unwrap().len(), 0);
}
