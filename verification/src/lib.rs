pub mod actor;
pub mod fixed_vec;
pub mod state_machine;

pub use crate::state_machine::{
    Action, Callback, HsmError, ParentState, State, StateDef, StateMachine, StateMachineDef,
    StateRef, StateTree, Super, Top, TreeError, MAX_NEST_DEPTH,
};
