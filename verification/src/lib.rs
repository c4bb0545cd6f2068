//! Workspace-query library: feature resolution by transitive closure,
//! example-target selection, publish-order planning, and package lookups,
//! each with a verified contract.

use vstd::prelude::*;

pub mod names;
pub mod features;
pub mod examples;
pub mod publish;
pub mod lookup;
pub mod args;

verus! {

} // verus!
