//! Graph algorithms for the travelling salesman problem on dense weight
//! matrices: shortest paths, minimum spanning trees, perfect matchings,
//! Eulerian circuits and tour construction, each with a machine-checked
//! contract.

pub mod christofides;
pub mod edge;
pub mod error;
pub mod euler;
pub mod forest;
pub mod graph;
pub mod kruskal;
pub mod marks;
pub mod matching;
pub mod metric;
pub mod perms;
pub mod prim;
pub mod queue;
pub mod route;
pub mod shortest;
pub mod spanning;
pub mod text;
pub mod tour;
pub mod walks;
