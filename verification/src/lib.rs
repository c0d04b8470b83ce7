//! Verified core of the KerML/SysML text frontend: compilation stage codes,
//! bounded authenticated hashing, publication audit gates, receipt schema
//! checks, reviewed correction planning, dependency-driven reference
//! refinement, project path bookkeeping and revision history, the first
//! refusals of a Systems library preparation, source checkpoint authentication,
//! identity retirement and authored compilation decisions, all over plain
//! canonical identities.
use vstd::prelude::*;

pub mod ids;
pub mod stage;
pub mod digest;
pub mod text;
pub mod library;
pub mod publication;
pub mod comment;
pub mod model;
pub mod refinement;
pub mod source;
pub mod table;
pub mod corrections;
pub mod json;
pub mod receipt;
pub mod authority;
pub mod frontier;
pub mod facade;
pub mod project;
pub mod checkpoint;
pub mod retirement;
pub mod compile;
pub mod audit;
pub mod bindings;
pub mod order;
pub mod provenance;
pub mod systems;

verus! {
}
