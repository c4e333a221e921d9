pub mod circuit;
pub mod connector;
pub mod container;
pub mod draw;
pub mod edge_list;
pub mod function_box;
pub mod gate;
pub mod interaction;
pub mod laws;
pub mod persistence;
pub mod propagation;
pub mod wire_graph;
