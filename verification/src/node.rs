//! Nodes and edges: the atomic records of a graph.

use vstd::prelude::*;

verus! {

/// A node: an id and an opaque payload. Identity is the id alone.
#[derive(Debug)]
pub struct Node<T> {
    pub number: u32,
    pub value: T,
}

/// An edge: the node it leads to, and a weight.
///
/// Two edges with the same target id count as the same edge, so an adjacency
/// holds at most one edge per target.
#[derive(Debug)]
pub struct Edge<T> {
    pub node: Node<T>,
    pub weight: u32,
}

/// `b` may be what cloning `a` gives: the same id, and a payload cloned from `a`'s.
pub open spec fn node_cloned<T: Clone>(a: Node<T>, b: Node<T>) -> bool {
    &&& b.number == a.number
    &&& cloned(a.value, b.value)
}

/// `b` may be what cloning `a` gives: the same weight, and a target cloned from `a`'s.
pub open spec fn edge_cloned<T: Clone>(a: Edge<T>, b: Edge<T>) -> bool {
    &&& b.weight == a.weight
    &&& node_cloned(a.node, b.node)
}

impl<T> Node<T> {
    /// A node with the given id and payload.
    pub fn new(index: u32, value: T) -> (n: Self)
        ensures
            n.number == index,
            n.value == value,
    {
        Self { number: index, value }
    }
}

impl<T: Clone> Clone for Node<T> {
    fn clone(&self) -> (n: Self)
        ensures
            node_cloned(*self, n),
    {
        Node { number: self.number, value: self.value.clone() }
    }
}

impl<T: Default> Default for Node<T> {
    /// The node 0 with the default payload.
    fn default() -> (n: Self)
        ensures
            n.number == 0,
            call_ensures(T::default, (), n.value),
    {
        Node { number: 0, value: T::default() }
    }
}

impl<T: Clone> Edge<T> {
    /// An edge of the given weight to the node `number`, whose payload is cloned from `value`.
    pub fn new(number: &u32, weight: u32, value: &T) -> (e: Self)
        ensures
            e.weight == weight,
            e.node.number == *number,
            cloned(*value, e.node.value),
    {
        Self { weight, node: Node::new(*number, value.clone()) }
    }
}

impl<T> Edge<T> {
    /// The id of the node this edge leads to.
    pub open spec fn target(&self) -> u32 {
        self.node.number
    }

    /// Whether two edges are the same edge: whether they lead to the same node.
    pub fn same_edge(&self, other: &Self) -> (b: bool)
        ensures
            b == (self.target() == other.target()),
    {
        self.node.number == other.node.number
    }
}

impl<T: Clone> Clone for Edge<T> {
    fn clone(&self) -> (e: Self)
        ensures
            edge_cloned(*self, e),
    {
        Edge { node: self.node.clone(), weight: self.weight }
    }
}

impl<T: Default> Default for Edge<T> {
    /// An edge of weight 0 to the node 0 with the default payload.
    fn default() -> (e: Self)
        ensures
            e.weight == 0,
            e.node.number == 0,
            call_ensures(T::default, (), e.node.value),
    {
        Edge { node: Node::default(), weight: 0 }
    }
}

} // verus!
