//! Verified cortex: the context, memory and loop decisions of an LLM side-car.

use vstd::prelude::*;

pub mod app;
pub mod app_laws;
pub mod context;
pub mod context_laws;
pub mod context_unified;
pub mod count;
pub mod executor;
pub mod executor_laws;
pub mod golden;
pub mod grounding;
pub mod grounding_laws;
pub mod hashing;
pub mod index;
pub mod index_laws;
pub mod kstorage;
pub mod lattice;
pub mod learning_laws;
pub mod llm;
pub mod lut;
pub mod lut_laws;
pub mod message;
pub mod order;
pub mod passthrough;
pub mod role;
pub mod role_laws;
pub mod route;
pub mod storage_laws;
pub mod text;
pub mod text_laws;
pub mod tid;
pub mod tree;
pub mod tree_laws;
pub mod turn_laws;
pub mod unified_laws;
pub mod views;
pub mod wire;
pub mod wire_laws;
pub mod working_set;

verus! {

/// The LLM token id.
pub type TokenId = u32;

} // verus!
