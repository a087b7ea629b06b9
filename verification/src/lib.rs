use vstd::prelude::*;

pub mod config;
pub mod debugger;
pub mod forge;
pub mod graph;
pub mod position_tracker;
pub mod server;
pub mod symbol_indexer;
pub mod text;
pub mod tracer;

verus! {

} // verus!
