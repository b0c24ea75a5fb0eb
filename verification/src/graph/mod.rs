pub mod dijkstra;
pub mod functional_graph;

pub use dijkstra::dijkstra;
pub use functional_graph::FunctionalGraph;
