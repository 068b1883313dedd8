//! Strategies that assign grid positions to the entities of a graph.

pub mod inertia;
