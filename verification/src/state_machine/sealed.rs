use vstd::prelude::*;

verus! {

/// Seals [`crate::ParentState`]: only `Top` and `Super` name a parent.
pub trait SealedParentState {}

/// Marker that every type carries, so that any marker type can name its state.
pub trait SealedStateRef {}

/// Seals [`crate::state_machine::RunState`]: only `Init` and `Run` are phases.
pub trait Sealed {}

} // verus!
