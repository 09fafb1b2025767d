//! Error values reported by graph operations and algorithms.

use vstd::prelude::*;
use vstd::string::StringExecFns;

verus! {

/// The reason an operation was refused.
#[derive(Debug, Clone, Copy, PartialEq, Eq, Structural)]
pub enum GraphKindError {
    /// A node with the same id is already in the graph.
    NodeAlreadyExist,
    /// An operation named a node or an edge that the graph does not hold.
    NodeNotFound,
    /// The algorithm needs a directed graph and was given an undirected one.
    GraphMustBeDirected,
    /// The algorithm needs an undirected graph and was given a directed one.
    GraphMustBeUndirected,
    /// A snapshot does not describe a well-formed graph.
    SerializationFailure,
}

/// An error kind with a free-form description.
#[derive(Debug)]
pub struct GraphError {
    kind: GraphKindError,
    description: String,
}

/// The sentence that introduces an error of the given kind.
pub open spec fn kind_text(kind: GraphKindError) -> Seq<char> {
    match kind {
        GraphKindError::NodeAlreadyExist => "this node already exist in graph."@,
        GraphKindError::NodeNotFound => "this node not found in graph."@,
        GraphKindError::GraphMustBeDirected => "this graph must be directed."@,
        GraphKindError::GraphMustBeUndirected => "this graph must be undirected."@,
        GraphKindError::SerializationFailure => "this snapshot is not a graph."@,
    }
}

impl GraphError {
    /// The kind of this error.
    pub closed spec fn spec_kind(&self) -> GraphKindError {
        self.kind
    }

    /// The description given when the error was made.
    pub closed spec fn spec_description(&self) -> Seq<char> {
        self.description@
    }

    /// The text shown for this error: the sentence of its kind, then the description.
    pub open spec fn spec_message(&self) -> Seq<char> {
        kind_text(self.spec_kind()) + "\nDescription: "@ + self.spec_description()
    }

    /// An error of the given kind, with a description.
    pub fn new(kind: GraphKindError, description: &str) -> (e: Self)
        ensures
            e.spec_kind() == kind,
            e.spec_description() == description@,
    {
        Self { kind, description: String::from_str(description) }
    }

    /// The kind of this error.
    #[verifier::when_used_as_spec(spec_kind)]
    pub fn kind(&self) -> (k: GraphKindError)
        ensures
            k == self.spec_kind(),
    {
        self.kind
    }

    /// The description given when the error was made.
    pub fn description(&self) -> (d: &str)
        ensures
            d@ == self.spec_description(),
    {
        self.description.as_str()
    }

    /// Renders the error as one string.
    pub fn message(&self) -> (m: String)
        ensures
            m@ == self.spec_message(),
    {
        let head: &str = match self.kind {
            GraphKindError::NodeAlreadyExist => "this node already exist in graph.",
            GraphKindError::NodeNotFound => "this node not found in graph.",
            GraphKindError::GraphMustBeDirected => "this graph must be directed.",
            GraphKindError::GraphMustBeUndirected => "this graph must be undirected.",
            GraphKindError::SerializationFailure => "this snapshot is not a graph.",
        };
        let mut m = String::from_str(head);
        m.append("\nDescription: ");
        m.append(self.description.as_str());
        m
    }
}

} // verus!
