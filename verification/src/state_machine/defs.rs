use vstd::prelude::*;

use super::sealed::{SealedParentState, SealedStateRef};
use super::tree::StateTree;

verus! {

/// The deepest nesting of states that a [`StateTree`] accepts. A top state has depth 1.
pub const MAX_NEST_DEPTH: usize = 8;

/// A state of a hierarchical state machine, named by its index in the [`StateTree`]
/// that defines the hierarchy.
#[derive(Clone, Copy, Debug, PartialEq, Eq, Structural)]
pub struct State {
    pub id: usize,
}

impl State {
    /// The state with index `id`.
    pub fn new(id: usize) -> (s: State)
        ensures
            s.id == id,
    {
        State { id }
    }

    /// The index of the state.
    pub fn id(&self) -> (id: usize)
        ensures
            id == self.id,
    {
        self.id
    }
}

/// How a state handler responded to an event.
#[derive(Clone, Copy, Debug, PartialEq, Eq, Structural)]
pub enum Action {
    /// The handler did not handle the event; it is offered to the parent state next.
    Unhandled,
    /// The handler dealt with the event; it is offered to no other state.
    Handled,
    /// The handler dealt with the event and asks for a transition to the given state.
    Transition(State),
}

/// One call that the runtime made into the user's state machine definition.
#[derive(Clone, Copy, Debug, PartialEq, Eq, Structural)]
pub enum Callback {
    /// The overall initial transition, [`StateMachineDef::initial`].
    TopInitial,
    /// The initial transition of a state, [`StateDef::initial_transition`].
    Initial(State),
    /// The entry action of a state.
    Entry(State),
    /// The event handler of a state.
    Handler(State),
    /// The exit action of a state.
    Exit(State),
}

/// Why the runtime refused to go on.
#[derive(Clone, Copy, Debug, PartialEq, Eq, Structural)]
pub enum HsmError {
    /// No state of the active configuration handled the event.
    UnhandledEvent,
    /// The initial transition of `from` named `to`, which is not a state nested inside `from`.
    InvalidInitialTransition { from: State, to: State },
    /// A transition named a state that the state tree does not hold.
    UnknownState(State),
}

/// Why a state could not be added to a [`StateTree`].
#[derive(Clone, Copy, Debug, PartialEq, Eq, Structural)]
pub enum TreeError {
    /// The parent is not a state of the tree.
    UnknownParent,
    /// The state would be nested deeper than [`MAX_NEST_DEPTH`].
    NestTooDeep,
}

/// Implemented by the user for the "context" object of a state machine: the event type,
/// the hierarchy of states and the overall initial transition.
pub trait StateMachineDef: Sized {
    /// Event type
    type Event;

    /// The hierarchy of states of this state machine.
    fn state_tree() -> StateTree;

    /// The state that [`StateMachineDef::initial`] names when run on this context.
    spec fn top_initial_target(&self) -> State;

    /// This context after [`StateMachineDef::initial`] has run on it; by default the context
    /// is left as it was.
    open spec fn after_top_initial(&self) -> Self {
        *self
    }

    /// Overall state machine initial transition (executed exactly once per state machine).
    fn initial(&mut self) -> (target: State)
        ensures
            target == old(self).top_initial_target(),
            *final(self) == old(self).after_top_initial(),
    ;
}

/// Implemented by the user for the behaviour of the states: initial transitions, entry and
/// exit actions and event handlers, each given the state it runs for.
///
/// Each method comes with spec functions that say, of a context, what the method returns on it
/// and what it leaves of it; an implementation meets them. The spec functions default to a
/// no-op: no initial transition, a context left as it was, and an event left unhandled, so
/// that an implementation that does nothing need only write the methods.
pub trait StateDef: StateMachineDef {
    /// What [`StateDef::initial_transition`] names for `state` when run on this context.
    open spec fn initial_of(&self, state: State) -> Option<State> {
        None
    }

    /// This context after the initial transition of `state` has run on it.
    open spec fn after_initial(&self, state: State) -> Self {
        *self
    }

    /// This context after the entry action of `state` has run on it.
    open spec fn after_entry(&self, state: State) -> Self {
        *self
    }

    /// What the handler of `state` answers to `event` on this context.
    open spec fn action_of(&self, state: State, event: &Self::Event) -> Action {
        Action::Unhandled
    }

    /// This context after the handler of `state` has run on `event`.
    open spec fn after_handler(&self, state: State, event: &Self::Event) -> Self {
        *self
    }

    /// This context after the exit action of `state` has run on it.
    open spec fn after_exit(&self, state: State) -> Self {
        *self
    }

    /// Specify initial transition actions and return the target of the initial transition, which
    /// can be `None` if there is no initial transition.
    fn initial_transition(&mut self, state: State) -> (next: Option<State>)
        ensures
            next == old(self).initial_of(state),
            *final(self) == old(self).after_initial(state),
    ;

    /// Define any entry actions
    fn entry(&mut self, state: State)
        ensures
            *final(self) == old(self).after_entry(state),
    ;

    /// Event handler for any events
    fn handler(&mut self, state: State, event: &Self::Event) -> (action: Action)
        ensures
            action == old(self).action_of(state, event),
            *final(self) == old(self).after_handler(state, event),
    ;

    /// Define any exit actions
    fn exit(&mut self, state: State)
        ensures
            *final(self) == old(self).after_exit(state),
    ;
}

/// The parent named when a state is added to a [`StateTree`]: `Top` or `Super`.
pub trait ParentState: SealedParentState {
    /// The parent state, `None` for a topmost state.
    spec fn parent_spec(&self) -> Option<State>;

    /// The parent state, `None` for a topmost state.
    fn parent(&self) -> (p: Option<State>)
        ensures
            p == self.parent_spec(),
    ;
}

/// Names the parent of a state that is nested inside another state.
pub struct Super(pub State);

/// Names a topmost state, one with no parent.
pub struct Top;

impl SealedParentState for Super {}

impl SealedParentState for Top {}

impl ParentState for Super {
    open spec fn parent_spec(&self) -> Option<State> {
        Some(self.0)
    }

    fn parent(&self) -> (p: Option<State>) {
        Some(self.0)
    }
}

impl ParentState for Top {
    open spec fn parent_spec(&self) -> Option<State> {
        None
    }

    fn parent(&self) -> (p: Option<State>) {
        None
    }
}

/// Maps a marker type of the user's to the state that it stands for.
pub trait StateRef: SealedStateRef {
    /// Returns the state that the marker type stands for.
    fn state() -> State;
}

impl<S> SealedStateRef for S {}

} // verus!
