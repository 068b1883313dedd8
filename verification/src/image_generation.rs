//! Turning a graph into a picture.

pub mod placers;
