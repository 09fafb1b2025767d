use graph_engine::graph::Graph;
use graph_engine::max_flow::{build_capacity_and_flow, residual, task_11, MaxFlow};
use graph_engine::node::{Edge, Node};
use graph_engine::GraphKindError;
use std::collections::HashMap;

fn network() -> Graph<u32> {
    let mut g: Graph<u32> = Graph::empty(true);
    for id in 1..=6u32 {
        g.add_node(Node::new(id, id * 10)).unwrap();
    }
    let arcs: [(u32, u32, u32); 9] = [
        (1, 2, 7),
        (1, 3, 4),
        (2, 3, 4),
        (2, 5, 2),
        (3, 4, 4),
        (3, 5, 8),
        (4, 6, 12),
        (5, 4, 4),
        (5, 6, 5),
    ];
    for (u, v, w) in arcs {
        g.add_edge(&Node::new(u, 0), &Edge::new(&v, w, &0)).unwrap();
    }
    g
}

fn run_to_end(engine: &mut MaxFlow) -> u64 {
    let mut guard = 0;
    while engine.next_step() {
        guard += 1;
        assert!(guard < 100);
    }
    engine.accumulated_flow()
}

#[test]
fn textbook_network_steps_to_its_maximum_flow() {
    let g = network();
    let mut engine = build_capacity_and_flow(&g, 1, 6).unwrap();
    assert_eq!(engine.accumulated_flow(), 0);
    assert_eq!(engine.step_count(), 0);
    assert!(!engine.terminal());
    let total = run_to_end(&mut engine);
    // The cut between {1, 2} and the rest has capacity 4 + 4 + 2.
    assert_eq!(total, 10);
    assert!(engine.terminal());
    assert!(engine.current_path().is_none());
    assert!(!engine.next_step());
    assert_eq!(engine.accumulated_flow(), 10);
}

#[test]
fn first_step_takes_a_shortest_path() {
    let g = network();
    let mut engine = build_capacity_and_flow(&g, 1, 6).unwrap();
    assert!(engine.next_step());
    let p = engine.current_path().unwrap().clone();
    assert_eq!(p.len(), 4);
    assert_eq!(p[0], 1);
    assert_eq!(p[3], 6);
    assert_eq!(engine.step_count(), 1);
    let b = engine.accumulated_flow();
    assert!(b > 0);
    for w in 0..p.len() - 1 {
        assert_eq!(engine.flow_between(p[w], p[w + 1]), b as i64);
        assert_eq!(engine.flow_between(p[w + 1], p[w]), -(b as i64));
        assert_eq!(
            engine.residual_between(p[w], p[w + 1]),
            engine.capacity_between(p[w], p[w + 1]) as u64 - b
        );
    }
}

#[test]
fn reset_then_run_gives_the_same_flow() {
    let g = network();
    let mut engine = build_capacity_and_flow(&g, 1, 6).unwrap();
    let first = engine.run();
    engine.reset();
    assert_eq!(engine.accumulated_flow(), 0);
    assert_eq!(engine.step_count(), 0);
    assert!(!engine.terminal());
    assert_eq!(engine.flow_between(1, 2), 0);
    assert_eq!(engine.capacity_between(1, 2), 7);
    let second = engine.run();
    assert_eq!(first, second);
    assert_eq!(second, 10);
}

#[test]
fn retarget_keeps_capacities() {
    let g = network();
    let mut engine = build_capacity_and_flow(&g, 1, 6).unwrap();
    engine.run();
    engine.retarget(2, 4);
    assert_eq!(engine.get_source(), 2);
    assert_eq!(engine.get_sink(), 4);
    assert_eq!(engine.capacity_between(3, 5), 8);
    // 2 -> 3 -> 4 carries 4, 2 -> 5 -> 4 carries 2.
    assert_eq!(engine.run(), 6);
}

#[test]
fn source_equal_to_sink_is_terminal_at_once() {
    let g = network();
    let mut engine = build_capacity_and_flow(&g, 3, 3).unwrap();
    assert!(!engine.next_step());
    assert!(engine.terminal());
    assert_eq!(engine.accumulated_flow(), 0);
}

#[test]
fn task_11_runs_to_completion() {
    let g = network();
    assert_eq!(task_11(&g, 1, 6).unwrap(), 10);
    assert_eq!(task_11(&g, 6, 1).unwrap(), 0);
}

#[test]
fn engine_refuses_an_undirected_graph() {
    let g: Graph<u32> = Graph::empty(false);
    assert_eq!(build_capacity_and_flow(&g, 1, 2).err().unwrap().kind(), GraphKindError::GraphMustBeDirected);
    assert_eq!(task_11(&g, 1, 2).err().unwrap().kind(), GraphKindError::GraphMustBeDirected);
}

#[test]
fn residual_formula() {
    let mut cap: HashMap<u64, u32> = HashMap::new();
    let mut flow: HashMap<u64, i64> = HashMap::new();
    let k = |u: u64, v: u64| u * 0x1_0000_0000 + v;
    cap.insert(k(1, 2), 7);
    flow.insert(k(1, 2), 3);
    flow.insert(k(2, 1), -3);
    flow.insert(k(4, 5), 6);
    assert_eq!(residual(&cap, &flow, 1, 2), 4);
    assert_eq!(residual(&cap, &flow, 2, 1), 0);
    assert_eq!(residual(&cap, &flow, 4, 5), 6);
    assert_eq!(residual(&cap, &flow, 8, 9), 0);
    flow.insert(k(1, 2), 9);
    assert_eq!(residual(&cap, &flow, 1, 2), 0);
}

#[test]
fn textbook_network_step_by_step() {
    let g = network();
    let mut engine = build_capacity_and_flow(&g, 1, 6).unwrap();
    let expected: [(&[u32], u64); 4] = [
        (&[1, 2, 5, 6], 2),
        (&[1, 3, 4, 6], 6),
        (&[1, 2, 3, 5, 6], 9),
        (&[1, 2, 3, 5, 4, 6], 10),
    ];
    for (i, (path, total)) in expected.iter().enumerate() {
        assert_eq!(engine.bfs_find_path().unwrap().as_slice(), *path);
        assert!(engine.next_step());
        assert_eq!(engine.current_path().unwrap().as_slice(), *path);
        assert_eq!(engine.accumulated_flow(), *total);
        assert_eq!(engine.step_count(), i as u64 + 1);
        assert!(!engine.terminal());
    }
    assert!(engine.bfs_find_path().is_none());
    assert!(!engine.next_step());
    assert!(engine.terminal());
    assert_eq!(engine.step_count(), 4);
    assert_eq!(engine.flow_between(1, 2), 6);
    assert_eq!(engine.flow_between(2, 1), -6);
    assert_eq!(engine.flow_between(2, 5), 2);
    assert_eq!(engine.flow_between(5, 4), 1);
    assert_eq!(engine.residual_between(1, 2), 1);
    assert_eq!(engine.residual_between(2, 3), 0);
    assert_eq!(engine.residual_between(3, 2), 0);
}

#[test]
fn engine_takes_the_largest_ids_and_weights() {
    let top = u32::MAX;
    let mut g: Graph<u32> = Graph::empty(true);
    for id in [0, top - 1, top] {
        g.add_node(Node::new(id, 0)).unwrap();
    }
    g.add_edge(&Node::new(0, 0), &Edge::new(&(top - 1), top, &0)).unwrap();
    g.add_edge(&Node::new(top - 1, 0), &Edge::new(&top, top, &0)).unwrap();
    g.add_edge(&Node::new(0, 0), &Edge::new(&top, top, &0)).unwrap();
    let mut engine = build_capacity_and_flow(&g, 0, top).unwrap();
    assert_eq!(engine.capacity_between(top - 1, top), top);
    assert_eq!(engine.run(), 2 * top as u64);
    assert_eq!(engine.step_count(), 2);
    assert_eq!(engine.flow_between(top, 0), -(top as i64));
}

#[test]
fn a_step_takes_flow_back() {
    // the second path goes back along 2 -> 3, which the first step filled
    let mut g: Graph<u32> = Graph::empty(true);
    for id in 1..=6u32 {
        g.add_node(Node::new(id, 0)).unwrap();
    }
    for (u, v) in [(1u32, 2u32), (2, 3), (3, 6), (1, 4), (4, 3), (2, 5), (5, 6)] {
        g.add_edge(&Node::new(u, 0), &Edge::new(&v, 1, &0)).unwrap();
    }
    let mut engine = build_capacity_and_flow(&g, 1, 6).unwrap();
    assert!(engine.next_step());
    assert_eq!(engine.current_path().unwrap().as_slice(), &[1, 2, 3, 6]);
    assert_eq!(engine.flow_between(2, 3), 1);
    assert_eq!(engine.room_between(2, 3), 0);
    assert_eq!(engine.room_between(3, 2), 1);
    assert_eq!(engine.residual_between(3, 2), 0);
    assert!(engine.next_step());
    assert_eq!(engine.current_path().unwrap().as_slice(), &[1, 4, 3, 2, 5, 6]);
    assert_eq!(engine.flow_between(2, 3), 0);
    assert_eq!(engine.flow_between(3, 2), 0);
    assert_eq!(engine.accumulated_flow(), 2);
    assert!(!engine.next_step());
    assert_eq!(engine.accumulated_flow(), 2);
    assert!(engine.terminal());
}

fn crossed_network() -> Graph<u32> {
    let mut g: Graph<u32> = Graph::empty(true);
    for id in 1..=8u32 {
        g.add_node(Node::new(id, 0)).unwrap();
    }
    for (u, v) in [(1u32, 2u32), (2, 3), (3, 6), (1, 4), (4, 7), (7, 3), (2, 5), (5, 8), (8, 6)] {
        g.add_edge(&Node::new(u, 0), &Edge::new(&v, 1, &0)).unwrap();
    }
    g
}

#[test]
fn crossed_network_reaches_its_maximum_by_taking_flow_back() {
    let g = crossed_network();
    let mut engine = build_capacity_and_flow(&g, 1, 6).unwrap();
    assert!(engine.next_step());
    assert_eq!(engine.current_path().unwrap().as_slice(), &[1, 2, 3, 6]);
    assert_eq!(engine.accumulated_flow(), 1);
    assert!(engine.next_step());
    assert_eq!(engine.current_path().unwrap().as_slice(), &[1, 4, 7, 3, 2, 5, 8, 6]);
    assert_eq!(engine.accumulated_flow(), 2);
    let (flow, steps) = (engine.accumulated_flow(), engine.step_count());
    assert!(!engine.next_step());
    assert!(engine.terminal());
    assert!(engine.current_path().is_none());
    assert_eq!((engine.accumulated_flow(), engine.step_count()), (flow, steps));
    assert!(engine.bfs_find_path().is_none());
    assert_eq!(engine.flow_between(2, 3), 0);
    // the cut around the source is full
    assert_eq!(engine.room_between(1, 2), 0);
    assert_eq!(engine.room_between(1, 4), 0);
}

#[test]
fn task_11_gives_the_maximum_of_the_crossed_network() {
    let g = crossed_network();
    assert_eq!(task_11(&g, 1, 6).unwrap(), 2);
    assert_eq!(task_11(&g, 1, 1).unwrap(), 0);
    assert_eq!(task_11(&g, 6, 1).unwrap(), 0);
    assert_eq!(task_11(&g, 2, 6).unwrap(), 2);
}
