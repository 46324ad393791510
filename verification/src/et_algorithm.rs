//! The burn graph, its sectors and the burning itself.

pub mod algorithm;
pub mod burntime;
pub mod exposure;
pub mod front;
pub mod graph;
pub mod link;
pub mod sector;
pub mod vertex;
