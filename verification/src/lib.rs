//! Entity-relation diagrams: the graph model, the line tokenizer of the
//! diagram notation, and the integer side of the inertia placer that lays a
//! graph out on a grid.

pub mod domain_model;
pub mod image_generation;
