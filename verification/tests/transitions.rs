use hsm_rs::{
    Action, HsmError, State, StateDef, StateMachine, StateMachineDef, StateRef, StateTree, Super,
    Top,
};

enum TestEvent {
    A,
    B,
    C,
    D,
    E,
    F,
    G,
    H,
}

#[derive(Debug, PartialEq)]
enum Trace {
    TopInitial,
    S0Entry,
    S0Initial,
    S0Handler,
    S0Exit,
    S1Entry,
    S1Initial,
    S1Handler,
    S1Exit,
    S11Entry,
    S11Initial,
    S11Handler,
    S11Exit,
    S2Entry,
    S2Initial,
    S2Handler,
    S2Exit,
    S21Entry,
    S21Initial,
    S21Handler,
    S21Exit,
    S211Entry,
    S211Initial,
    S211Handler,
    S211Exit,
}

enum InitialTransitionTestType {
    Standard,
    Deep,
    InvalidSelf,
    InvalidSibling,
    InvalidAncestor,
}

struct TestActor {
    trace: Vec<Trace>,
    foo: bool,
    initial_transition_test_type: InitialTransitionTestType,
}

impl TestActor {
    fn new(initial_transition_test_type: InitialTransitionTestType) -> Self {
        Self {
            trace: Vec::new(),
            foo: false,
            initial_transition_test_type,
        }
    }

    fn record(&mut self, trace: Trace) {
        self.trace.push(trace);
    }
}

impl Default for TestActor {
    fn default() -> Self {
        Self::new(InitialTransitionTestType::Standard)
    }
}

struct S0;
struct S1;
struct S11;
struct S2;
struct S21;
struct S211;

const S0_ID: usize = 0;
const S1_ID: usize = 1;
const S11_ID: usize = 2;
const S2_ID: usize = 3;
const S21_ID: usize = 4;
const S211_ID: usize = 5;

impl StateRef for S0 {
    fn state() -> State {
        State::new(S0_ID)
    }
}

impl StateRef for S1 {
    fn state() -> State {
        State::new(S1_ID)
    }
}

impl StateRef for S11 {
    fn state() -> State {
        State::new(S11_ID)
    }
}

impl StateRef for S2 {
    fn state() -> State {
        State::new(S2_ID)
    }
}

impl StateRef for S21 {
    fn state() -> State {
        State::new(S21_ID)
    }
}

impl StateRef for S211 {
    fn state() -> State {
        State::new(S211_ID)
    }
}

impl StateMachineDef for TestActor {
    type Event = TestEvent;

    fn state_tree() -> StateTree {
        let mut tree = StateTree::new();
        assert_eq!(tree.add(Top).unwrap(), S0::state());
        assert_eq!(tree.add(Super(S0::state())).unwrap(), S1::state());
        assert_eq!(tree.add(Super(S1::state())).unwrap(), S11::state());
        assert_eq!(tree.add(Super(S0::state())).unwrap(), S2::state());
        assert_eq!(tree.add(Super(S2::state())).unwrap(), S21::state());
        assert_eq!(tree.add(Super(S21::state())).unwrap(), S211::state());
        tree
    }

    fn top_initial_target(&self) -> State {
        match self.initial_transition_test_type {
            InitialTransitionTestType::Deep => S211::state(),
            _ => S0::state(),
        }
    }

    fn initial(&mut self) -> State {
        self.record(Trace::TopInitial);
        self.top_initial_target()
    }
}

impl StateDef for TestActor {
    fn initial_transition(&mut self, state: State) -> Option<State> {
        match state.id() {
            S0_ID => {
                self.record(Trace::S0Initial);
                Some(S1::state())
            }
            S1_ID => {
                self.record(Trace::S1Initial);
                match self.initial_transition_test_type {
                    InitialTransitionTestType::InvalidSelf => Some(S1::state()),
                    InitialTransitionTestType::InvalidSibling => Some(S2::state()),
                    InitialTransitionTestType::InvalidAncestor => Some(S0::state()),
                    _ => Some(S11::state()),
                }
            }
            S11_ID => {
                self.record(Trace::S11Initial);
                None
            }
            S2_ID => {
                self.record(Trace::S2Initial);
                Some(S21::state())
            }
            S21_ID => {
                self.record(Trace::S21Initial);
                Some(S211::state())
            }
            _ => {
                self.record(Trace::S211Initial);
                None
            }
        }
    }

    fn entry(&mut self, state: State) {
        let trace = match state.id() {
            S0_ID => Trace::S0Entry,
            S1_ID => Trace::S1Entry,
            S11_ID => Trace::S11Entry,
            S2_ID => Trace::S2Entry,
            S21_ID => Trace::S21Entry,
            _ => Trace::S211Entry,
        };
        self.record(trace);
    }

    fn exit(&mut self, state: State) {
        let trace = match state.id() {
            S0_ID => Trace::S0Exit,
            S1_ID => Trace::S1Exit,
            S11_ID => Trace::S11Exit,
            S2_ID => Trace::S2Exit,
            S21_ID => Trace::S21Exit,
            _ => Trace::S211Exit,
        };
        self.record(trace);
    }

    fn handler(&mut self, state: State, event: &TestEvent) -> Action {
        match state.id() {
            S0_ID => {
                self.record(Trace::S0Handler);
                match event {
                    TestEvent::E => Action::Transition(S211::state()),
                    _ => Action::Unhandled,
                }
            }
            S1_ID => {
                self.record(Trace::S1Handler);
                match event {
                    TestEvent::A => Action::Transition(S1::state()),
                    TestEvent::B => Action::Transition(S11::state()),
                    TestEvent::C => Action::Transition(S2::state()),
                    TestEvent::D => Action::Transition(S0::state()),
                    TestEvent::F => Action::Transition(S211::state()),
                    _ => Action::Unhandled,
                }
            }
            S11_ID => {
                self.record(Trace::S11Handler);
                match event {
                    TestEvent::H if self.foo => {
                        self.foo = false;
                        Action::Handled
                    }
                    TestEvent::G => Action::Transition(S211::state()),
                    _ => Action::Unhandled,
                }
            }
            S2_ID => {
                self.record(Trace::S2Handler);
                match event {
                    TestEvent::C => Action::Transition(S1::state()),
                    TestEvent::F => Action::Transition(S11::state()),
                    _ => Action::Unhandled,
                }
            }
            S21_ID => {
                self.record(Trace::S21Handler);
                match event {
                    TestEvent::B => Action::Transition(S211::state()),
                    TestEvent::H if !self.foo => {
                        self.foo = true;
                        Action::Transition(S21::state())
                    }
                    _ => Action::Unhandled,
                }
            }
            _ => {
                self.record(Trace::S211Handler);
                match event {
                    TestEvent::D => Action::Transition(S21::state()),
                    TestEvent::G => Action::Transition(S0::state()),
                    _ => Action::Unhandled,
                }
            }
        }
    }
}

fn start(test_actor: &mut TestActor) -> StateMachine<TestActor, hsm_rs::state_machine::Run> {
    StateMachine::default().initial(test_actor).unwrap()
}

#[test]
fn test_initial_transitions() {
    let mut test_actor = TestActor::default();
    let mut _sm = StateMachine::default().initial(&mut test_actor).unwrap();

    assert_eq!(
        test_actor.trace,
        vec![
            Trace::TopInitial,
            Trace::S0Entry,
            Trace::S0Initial,
            Trace::S1Entry,
            Trace::S1Initial,
            Trace::S11Entry,
            Trace::S11Initial,
        ]
    );
}

#[test]
fn test_self_transition_unguarded() {
    let mut test_actor = TestActor::default();
    let mut sm = start(&mut test_actor);

    test_actor.trace.clear();

    sm.dispatch(&mut test_actor, &TestEvent::A).unwrap();

    assert_eq!(
        test_actor.trace,
        vec![
            Trace::S11Handler,
            Trace::S1Handler,
            Trace::S11Exit,
            Trace::S1Exit,
            Trace::S1Entry,
            Trace::S1Initial,
            Trace::S11Entry,
            Trace::S11Initial,
        ]
    );
}

#[test]
fn test_transition_to_child() {
    let mut test_actor = TestActor::default();
    let mut sm = start(&mut test_actor);

    test_actor.trace.clear();

    sm.dispatch(&mut test_actor, &TestEvent::B).unwrap();

    assert_eq!(
        test_actor.trace,
        vec![
            Trace::S11Handler,
            Trace::S1Handler,
            Trace::S11Exit,
            Trace::S11Entry,
            Trace::S11Initial,
        ]
    );
}

#[test]
fn test_transition_from_nested_sibling_to_deeply_nested_sibling() {
    let mut test_actor = TestActor::default();
    let mut sm = start(&mut test_actor);

    test_actor.trace.clear();

    sm.dispatch(&mut test_actor, &TestEvent::C).unwrap();

    assert_eq!(
        test_actor.trace,
        vec![
            Trace::S11Handler,
            Trace::S1Handler,
            Trace::S11Exit,
            Trace::S1Exit,
            Trace::S2Entry,
            Trace::S2Initial,
            Trace::S21Entry,
            Trace::S21Initial,
            Trace::S211Entry,
            Trace::S211Initial,
        ]
    );
}

#[test]
fn test_transition_to_parent() {
    let mut test_actor = TestActor::default();
    let mut sm = start(&mut test_actor);

    test_actor.trace.clear();

    sm.dispatch(&mut test_actor, &TestEvent::D).unwrap();

    assert_eq!(
        test_actor.trace,
        vec![
            Trace::S11Handler,
            Trace::S1Handler,
            Trace::S11Exit,
            Trace::S1Exit,
            Trace::S0Initial,
            Trace::S1Entry,
            Trace::S1Initial,
            Trace::S11Entry,
            Trace::S11Initial,
        ]
    );
}

#[test]
fn test_transition_from_top_to_great_grandchild_from_other() {
    let mut test_actor = TestActor::default();
    let mut sm = start(&mut test_actor);

    test_actor.trace.clear();

    sm.dispatch(&mut test_actor, &TestEvent::E).unwrap();

    assert_eq!(
        test_actor.trace,
        vec![
            Trace::S11Handler,
            Trace::S1Handler,
            Trace::S0Handler,
            Trace::S11Exit,
            Trace::S1Exit,
            Trace::S2Entry,
            Trace::S21Entry,
            Trace::S211Entry,
            Trace::S211Initial,
        ]
    );
}

#[test]
fn test_transition_to_great_niece_nephew() {
    let mut test_actor = TestActor::default();
    let mut sm = start(&mut test_actor);

    test_actor.trace.clear();

    sm.dispatch(&mut test_actor, &TestEvent::F).unwrap();

    assert_eq!(
        test_actor.trace,
        vec![
            Trace::S11Handler,
            Trace::S1Handler,
            Trace::S11Exit,
            Trace::S1Exit,
            Trace::S2Entry,
            Trace::S21Entry,
            Trace::S211Entry,
            Trace::S211Initial,
        ]
    );
}

#[test]
fn test_transition_to_first_cousin_once_removed() {
    let mut test_actor = TestActor::default();
    let mut sm = start(&mut test_actor);

    test_actor.trace.clear();

    sm.dispatch(&mut test_actor, &TestEvent::G).unwrap();

    assert_eq!(
        test_actor.trace,
        vec![
            Trace::S11Handler,
            Trace::S11Exit,
            Trace::S1Exit,
            Trace::S2Entry,
            Trace::S21Entry,
            Trace::S211Entry,
            Trace::S211Initial,
        ]
    );
}

#[test]
fn test_unhandled_event_guard() {
    let mut test_actor = TestActor::default();
    let mut sm = start(&mut test_actor);

    test_actor.trace.clear();

    let result = sm.dispatch(&mut test_actor, &TestEvent::H);

    assert_eq!(
        test_actor.trace,
        vec![Trace::S11Handler, Trace::S1Handler, Trace::S0Handler,]
    );
    assert_eq!(result, Err(HsmError::UnhandledEvent));
}

#[test]
fn test_unhandled_event() {
    let mut test_actor = TestActor::default();
    let mut sm = start(&mut test_actor);
    sm.dispatch(&mut test_actor, &TestEvent::C).unwrap();

    test_actor.trace.clear();

    let result = sm.dispatch(&mut test_actor, &TestEvent::A);

    assert_eq!(
        test_actor.trace,
        vec![
            Trace::S211Handler,
            Trace::S21Handler,
            Trace::S2Handler,
            Trace::S0Handler,
        ]
    );
    assert_eq!(result, Err(HsmError::UnhandledEvent));
}

#[test]
fn test_transition_to_deeply_nested_child() {
    let mut test_actor = TestActor::default();
    let mut sm = start(&mut test_actor);
    sm.dispatch(&mut test_actor, &TestEvent::C).unwrap();

    test_actor.trace.clear();

    sm.dispatch(&mut test_actor, &TestEvent::B).unwrap();

    assert_eq!(
        test_actor.trace,
        vec![
            Trace::S211Handler,
            Trace::S21Handler,
            Trace::S211Exit,
            Trace::S211Entry,
            Trace::S211Initial,
        ]
    );
}

#[test]
fn test_transition_from_deeply_nested_sibling_to_nested_sibling() {
    let mut test_actor = TestActor::default();
    let mut sm = start(&mut test_actor);
    sm.dispatch(&mut test_actor, &TestEvent::C).unwrap();

    test_actor.trace.clear();

    sm.dispatch(&mut test_actor, &TestEvent::C).unwrap();

    assert_eq!(
        test_actor.trace,
        vec![
            Trace::S211Handler,
            Trace::S21Handler,
            Trace::S2Handler,
            Trace::S211Exit,
            Trace::S21Exit,
            Trace::S2Exit,
            Trace::S1Entry,
            Trace::S1Initial,
            Trace::S11Entry,
            Trace::S11Initial,
        ]
    );
}

#[test]
fn test_transition_from_deeply_nested_child_to_parent() {
    let mut test_actor = TestActor::default();
    let mut sm = start(&mut test_actor);
    sm.dispatch(&mut test_actor, &TestEvent::C).unwrap();

    test_actor.trace.clear();

    sm.dispatch(&mut test_actor, &TestEvent::D).unwrap();

    assert_eq!(
        test_actor.trace,
        vec![
            Trace::S211Handler,
            Trace::S211Exit,
            Trace::S21Initial,
            Trace::S211Entry,
            Trace::S211Initial,
        ]
    );
}

#[test]
fn test_transition_from_top_to_great_grandchild_from_self() {
    let mut test_actor = TestActor::default();
    let mut sm = start(&mut test_actor);
    sm.dispatch(&mut test_actor, &TestEvent::C).unwrap();

    test_actor.trace.clear();

    sm.dispatch(&mut test_actor, &TestEvent::E).unwrap();

    assert_eq!(
        test_actor.trace,
        vec![
            Trace::S211Handler,
            Trace::S21Handler,
            Trace::S2Handler,
            Trace::S0Handler,
            Trace::S211Exit,
            Trace::S21Exit,
            Trace::S2Exit,
            Trace::S2Entry,
            Trace::S21Entry,
            Trace::S211Entry,
            Trace::S211Initial,
        ]
    );
}

#[test]
fn test_transition_to_niece_nephew() {
    let mut test_actor = TestActor::default();
    let mut sm = start(&mut test_actor);
    sm.dispatch(&mut test_actor, &TestEvent::C).unwrap();

    test_actor.trace.clear();

    sm.dispatch(&mut test_actor, &TestEvent::F).unwrap();

    assert_eq!(
        test_actor.trace,
        vec![
            Trace::S211Handler,
            Trace::S21Handler,
            Trace::S2Handler,
            Trace::S211Exit,
            Trace::S21Exit,
            Trace::S2Exit,
            Trace::S1Entry,
            Trace::S11Entry,
            Trace::S11Initial,
        ]
    );
}

#[test]
fn test_transition_to_great_grandparent() {
    let mut test_actor = TestActor::default();
    let mut sm = start(&mut test_actor);
    sm.dispatch(&mut test_actor, &TestEvent::C).unwrap();

    test_actor.trace.clear();

    sm.dispatch(&mut test_actor, &TestEvent::G).unwrap();

    assert_eq!(
        test_actor.trace,
        vec![
            Trace::S211Handler,
            Trace::S211Exit,
            Trace::S21Exit,
            Trace::S2Exit,
            Trace::S0Initial,
            Trace::S1Entry,
            Trace::S1Initial,
            Trace::S11Entry,
            Trace::S11Initial,
        ]
    );
}

#[test]
fn test_self_transition_guard() {
    let mut test_actor = TestActor::default();
    let mut sm = start(&mut test_actor);
    sm.dispatch(&mut test_actor, &TestEvent::C).unwrap();

    test_actor.trace.clear();

    sm.dispatch(&mut test_actor, &TestEvent::H).unwrap();

    assert_eq!(
        test_actor.trace,
        vec![
            Trace::S211Handler,
            Trace::S21Handler,
            Trace::S211Exit,
            Trace::S21Exit,
            Trace::S21Entry,
            Trace::S21Initial,
            Trace::S211Entry,
            Trace::S211Initial,
        ]
    );
}

#[test]
fn test_handled_event_guard() {
    let mut test_actor = TestActor::default();
    let mut sm = start(&mut test_actor);
    sm.dispatch(&mut test_actor, &TestEvent::C).unwrap();
    sm.dispatch(&mut test_actor, &TestEvent::H).unwrap();
    sm.dispatch(&mut test_actor, &TestEvent::C).unwrap();

    test_actor.trace.clear();

    sm.dispatch(&mut test_actor, &TestEvent::H).unwrap();

    assert_eq!(test_actor.trace, vec![Trace::S11Handler,]);
}

#[test]
fn test_deep_initial() {
    let mut test_actor = TestActor::new(InitialTransitionTestType::Deep);
    let _sm = StateMachine::default().initial(&mut test_actor).unwrap();

    assert_eq!(
        test_actor.trace,
        vec![
            Trace::TopInitial,
            Trace::S0Entry,
            Trace::S2Entry,
            Trace::S21Entry,
            Trace::S211Entry,
            Trace::S211Initial,
        ]
    );
}

#[test]
#[should_panic(expected = "Initial transitions must be to a valid child state")]
fn test_invalid_initial_transition_to_self() {
    let mut test_actor = TestActor::new(InitialTransitionTestType::InvalidSelf);
    let _sm = StateMachine::default()
        .initial(&mut test_actor)
        .expect("Initial transitions must be to a valid child state");
}

#[test]
#[should_panic(expected = "Initial transitions must be to a valid child state")]
fn test_invalid_initial_transition_to_sibling() {
    let mut test_actor = TestActor::new(InitialTransitionTestType::InvalidSibling);
    let _sm = StateMachine::default()
        .initial(&mut test_actor)
        .expect("Initial transitions must be to a valid child state");
}

#[test]
#[should_panic(expected = "Initial transitions must be to a valid child state")]
fn test_invalid_initial_transition_to_ancestor() {
    let mut test_actor = TestActor::new(InitialTransitionTestType::InvalidAncestor);
    let _sm = StateMachine::default()
        .initial(&mut test_actor)
        .expect("Initial transitions must be to a valid child state");
}

struct DefaultActor;
struct DefaultState;

enum DefaultEvent {
    Event1,
}

impl StateRef for DefaultState {
    fn state() -> State {
        State::new(0)
    }
}

impl StateMachineDef for DefaultActor {
    type Event = DefaultEvent;

    fn state_tree() -> StateTree {
        let mut tree = StateTree::new();
        tree.add(Top).unwrap();
        tree
    }

    fn top_initial_target(&self) -> State {
        DefaultState::state()
    }

    fn initial(&mut self) -> State {
        self.top_initial_target()
    }
}

impl StateDef for DefaultActor {
    fn initial_transition(&mut self, _state: State) -> Option<State> {
        None
    }

    fn entry(&mut self, _state: State) {}

    fn handler(&mut self, _state: State, _event: &DefaultEvent) -> Action {
        Action::Unhandled
    }

    fn exit(&mut self, _state: State) {}
}

#[test]
fn test_default_handler() {
    let mut default_actor = DefaultActor {};

    assert!(matches!(
        <DefaultActor as StateDef>::handler(
            &mut default_actor,
            DefaultState::state(),
            &DefaultEvent::Event1
        ),
        Action::Unhandled
    ));
}

#[test]
fn test_default_entry() {
    let mut default_actor = DefaultActor {};
    <DefaultActor as StateDef>::entry(&mut default_actor, DefaultState::state());
}

#[test]
fn test_default_exit() {
    let mut default_actor = DefaultActor {};
    <DefaultActor as StateDef>::exit(&mut default_actor, DefaultState::state());
}

#[test]
fn test_state_clone() {
    assert!(DefaultState::state() == <State as Clone>::clone(&DefaultState::state()));
}

#[test]
fn test_active_state_lands_inside_transition_target() {
    let mut test_actor = TestActor::default();
    let mut sm = start(&mut test_actor);
    assert_eq!(sm.current_state(), Some(S11::state()));

    // to S2, whose initial transitions lead down to S211
    sm.dispatch(&mut test_actor, &TestEvent::C).unwrap();
    assert_eq!(sm.current_state(), Some(S211::state()));

    // local transition to the parent S21, whose initial transition re-enters S211
    sm.dispatch(&mut test_actor, &TestEvent::D).unwrap();
    assert_eq!(sm.current_state(), Some(S211::state()));

    // to S0, whose initial transitions lead down to S11
    sm.dispatch(&mut test_actor, &TestEvent::G).unwrap();
    assert_eq!(sm.current_state(), Some(S11::state()));

    // an unhandled event leaves the active state alone
    assert_eq!(
        sm.dispatch(&mut test_actor, &TestEvent::H),
        Err(HsmError::UnhandledEvent)
    );
    assert_eq!(sm.current_state(), Some(S11::state()));

    // the overall initial transition ran once, first
    let top_initials = test_actor
        .trace
        .iter()
        .filter(|t| **t == Trace::TopInitial)
        .count();
    assert_eq!(top_initials, 1);
    assert_eq!(test_actor.trace[0], Trace::TopInitial);
}

// +1 for an entry of the state with index `id`, -1 for its exit, 0 otherwise.
fn entry_balance(t: &Trace, id: usize) -> i32 {
    let (state, delta) = match t {
        Trace::S0Entry => (S0_ID, 1),
        Trace::S0Exit => (S0_ID, -1),
        Trace::S1Entry => (S1_ID, 1),
        Trace::S1Exit => (S1_ID, -1),
        Trace::S11Entry => (S11_ID, 1),
        Trace::S11Exit => (S11_ID, -1),
        Trace::S2Entry => (S2_ID, 1),
        Trace::S2Exit => (S2_ID, -1),
        Trace::S21Entry => (S21_ID, 1),
        Trace::S21Exit => (S21_ID, -1),
        Trace::S211Entry => (S211_ID, 1),
        Trace::S211Exit => (S211_ID, -1),
        _ => (usize::MAX, 0),
    };
    if state == id {
        delta
    } else {
        0
    }
}

#[test]
fn test_entries_and_exits_keep_the_active_chain() {
    let mut test_actor = TestActor::default();
    let mut sm = start(&mut test_actor);
    for event in [
        TestEvent::C,
        TestEvent::D,
        TestEvent::G,
        TestEvent::A,
        TestEvent::E,
        TestEvent::F,
        TestEvent::B,
    ] {
        let _ = sm.dispatch(&mut test_actor, &event);
    }
    // the active chain: the active state and its ancestors
    let parents = [None, Some(S0_ID), Some(S1_ID), Some(S0_ID), Some(S2_ID), Some(S21_ID)];
    let mut active = [false; 6];
    let mut cur = sm.current_state().map(|s| s.id());
    while let Some(c) = cur {
        active[c] = true;
        cur = parents[c];
    }
    for id in 0..6 {
        let balance: i32 = test_actor.trace.iter().map(|t| entry_balance(t, id)).sum();
        assert_eq!(balance, if active[id] { 1 } else { 0 }, "state {}", id);
    }
}
