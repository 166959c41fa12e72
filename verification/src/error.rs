use vstd::prelude::*;

verus! {

/// The ways in which an operation on a graph can fail.
#[derive(Clone, Copy, Debug, PartialEq, Eq, Structural)]
pub enum GraphError {
    /// A vertex index does not name a vertex of the graph.
    OutOfRange,
    /// The weight matrix does not have one row and one column per vertex.
    NotSquare,
    /// The weight matrix of an undirected algorithm's input is not symmetric.
    NotSymmetric,
    /// An edge weight below zero was met.
    NegativeWeight,
    /// The graph falls into several components where one is needed.
    Disconnected,
    /// A perfect matching was asked for an odd number of vertices.
    OddVertexCount,
    /// Some vertex has odd degree, or the graph is not connected.
    NoEulerianCircuit,
}

impl GraphError {
    /// The text shown to a user for this error.
    pub fn message(&self) -> (text: &'static str)
        ensures
            text@ == match *self {
                GraphError::OutOfRange => "Index out of range!"@,
                GraphError::NotSquare => "Graph is not squared!"@,
                GraphError::NotSymmetric => "Graph is not symmetric!"@,
                GraphError::NegativeWeight => "Graph has a negative edge weight!"@,
                GraphError::Disconnected => "Graph is not connected!"@,
                GraphError::OddVertexCount => "Odd number of vertices to match!"@,
                GraphError::NoEulerianCircuit => "Graph does not have an eulerian path!"@,
            },
    {
        match self {
            GraphError::OutOfRange => "Index out of range!",
            GraphError::NotSquare => "Graph is not squared!",
            GraphError::NotSymmetric => "Graph is not symmetric!",
            GraphError::NegativeWeight => "Graph has a negative edge weight!",
            GraphError::Disconnected => "Graph is not connected!",
            GraphError::OddVertexCount => "Odd number of vertices to match!",
            GraphError::NoEulerianCircuit => "Graph does not have an eulerian path!",
        }
    }
}

} // verus!
