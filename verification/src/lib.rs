//! A genetic-algorithm route optimizer: it evolves variable-length closed
//! walks over a fixed city catalog, scoring each walk by the population it
//! covers minus penalties for excess distance, wrong endpoints and visits to
//! excluded cities.

pub mod domain;
pub mod score;
pub mod rng;
pub mod variation;
pub mod engine;
pub mod connections;
pub mod find_subset;
pub mod tsp;
pub mod playground;
