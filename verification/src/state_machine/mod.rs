mod defs;
pub mod balance;
pub mod callbacks;
pub mod laws;
mod runtime;
mod sealed;
mod tree;

pub use self::defs::{
    Action, Callback, HsmError, ParentState, State, StateDef, StateMachineDef, StateRef, Super,
    Top, TreeError, MAX_NEST_DEPTH,
};
pub use self::runtime::{
    after_calls, after_exits, descend, dispatch_along, dispatch_spec, enter_all, exit_all,
    handler_calls, initial_spec, nested_step, step_calls, transition_spec, Init, Outcome, Run,
    RunState, StateMachine,
};
pub use self::sealed::{Sealed, SealedParentState, SealedStateRef};
pub use self::tree::{first_common, StateTree};
