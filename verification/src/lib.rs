//! Route planning over an airway network: the navigation graph with its
//! A* search, route text generation, and the pure decoding and assembly
//! steps that sit between the navigation database and the HTTP service.

pub mod database;
pub mod finder;
pub mod graph;
pub mod search;
pub mod models;
