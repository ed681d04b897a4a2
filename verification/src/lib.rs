use vstd::prelude::*;

pub mod policy;
pub mod table;
pub mod model;
pub mod capbit;
pub mod keys;
pub mod order;
pub mod text;
pub mod entity_id;
pub mod constants;
pub mod error;
pub mod labels;
pub mod mask_store;
pub mod read;
pub mod write;
pub mod entity;
pub mod bootstrap;
pub mod graph;
pub mod system_cap;
pub mod protected;
pub mod auth;
pub mod hex;
pub mod db;
pub mod sorting;
pub mod planner;
pub mod laws;

verus! {

} // verus!
