use hsm_rs::{
    Action, HsmError, State, StateDef, StateMachine, StateMachineDef, StateTree, Super, Top,
    TreeError, MAX_NEST_DEPTH,
};

// 0: A (top) -- 1: A1 -- 2: A11
//            \- 3: A2
// 4: B (top) -- 5: B1
fn forest() -> StateTree {
    let mut tree = StateTree::new();
    assert_eq!(tree.add(Top), Ok(State::new(0)));
    assert_eq!(tree.add(Super(State::new(0))), Ok(State::new(1)));
    assert_eq!(tree.add(Super(State::new(1))), Ok(State::new(2)));
    assert_eq!(tree.add(Super(State::new(0))), Ok(State::new(3)));
    assert_eq!(tree.add(Top), Ok(State::new(4)));
    assert_eq!(tree.add(Super(State::new(4))), Ok(State::new(5)));
    tree
}

#[test]
fn tree_numbers_states_in_order_and_tracks_depth() {
    let tree = forest();
    assert_eq!(tree.len(), 6);
    assert!(tree.contains(State::new(5)));
    assert!(!tree.contains(State::new(6)));
    assert_eq!(tree.parent(State::new(2)), Some(State::new(1)));
    assert_eq!(tree.parent(State::new(4)), None);
    assert_eq!(tree.depth(State::new(0)), 1);
    assert_eq!(tree.depth(State::new(2)), 3);
    assert_eq!(tree.depth(State::new(5)), 2);
}

#[test]
fn tree_refuses_unknown_parent() {
    let mut tree = forest();
    assert_eq!(tree.add(Super(State::new(6))), Err(TreeError::UnknownParent));
    assert_eq!(tree.len(), 6);
}

#[test]
fn tree_refuses_nesting_too_deep() {
    let mut tree = StateTree::new();
    let mut parent = tree.add(Top).unwrap();
    for _ in 1..MAX_NEST_DEPTH {
        parent = tree.add(Super(parent)).unwrap();
    }
    assert_eq!(tree.depth(parent), MAX_NEST_DEPTH);
    assert_eq!(tree.add(Super(parent)), Err(TreeError::NestTooDeep));
    assert_eq!(tree.len(), MAX_NEST_DEPTH);
}

#[test]
fn boundary_is_parent_for_self_transition() {
    let tree = forest();
    assert_eq!(tree.boundary_of(Some(State::new(2)), State::new(2)), Some(State::new(1)));
    assert_eq!(tree.boundary_of(Some(State::new(0)), State::new(0)), None);
}

#[test]
fn boundary_is_lowest_common_ancestor() {
    let tree = forest();
    // siblings A11 and A2 meet in A
    assert_eq!(tree.boundary_of(Some(State::new(2)), State::new(3)), Some(State::new(0)));
    // to an ancestor: the ancestor itself
    assert_eq!(tree.boundary_of(Some(State::new(2)), State::new(0)), Some(State::new(0)));
    // to a descendant: the source itself
    assert_eq!(tree.boundary_of(Some(State::new(0)), State::new(2)), Some(State::new(0)));
    // different top states: no common ancestor
    assert_eq!(tree.boundary_of(Some(State::new(2)), State::new(5)), None);
    // no source
    assert_eq!(tree.boundary_of(None, State::new(5)), None);
}

#[test]
fn follow_initial_goes_on_only_to_nested_states() {
    let tree = forest();
    // no initial transition: nothing to follow
    assert_eq!(tree.follow_initial(State::new(0), None), Ok(None));
    // a child and a grandchild are followed
    assert_eq!(tree.follow_initial(State::new(0), Some(State::new(1))), Ok(Some(State::new(1))));
    assert_eq!(tree.follow_initial(State::new(0), Some(State::new(2))), Ok(Some(State::new(2))));
    // the state itself, a sibling, an ancestor and an unknown state are refused
    for to in [State::new(1), State::new(3), State::new(0), State::new(9)] {
        assert_eq!(
            tree.follow_initial(State::new(1), Some(to)),
            Err(HsmError::InvalidInitialTransition { from: State::new(1), to })
        );
    }
}

#[test]
fn entry_path_lists_target_and_ancestors_below_boundary() {
    let tree = forest();
    let path = tree.entry_path_of(State::new(2), Some(State::new(0)));
    assert_eq!(path.as_slice(), &[State::new(2), State::new(1)]);
    let path = tree.entry_path_of(State::new(2), None);
    assert_eq!(path.as_slice(), &[State::new(2), State::new(1), State::new(0)]);
    let path = tree.entry_path_of(State::new(0), Some(State::new(0)));
    assert_eq!(path.as_slice(), &[]);
}

#[test]
fn nesting_is_proper_descent() {
    let tree = forest();
    assert!(tree.is_nested_in(State::new(2), State::new(0)));
    assert!(!tree.is_nested_in(State::new(0), State::new(2)));
    assert!(!tree.is_nested_in(State::new(2), State::new(2)));
    assert!(!tree.is_nested_in(State::new(3), State::new(1)));
    assert!(!tree.is_nested_in(State::new(9), State::new(0)));
}

enum Ev {
    ToUnknown,
    ToTop,
}

struct Machine {
    log: Vec<String>,
    bad_initial: bool,
}

impl StateMachineDef for Machine {
    type Event = Ev;

    fn state_tree() -> StateTree {
        forest()
    }

    fn top_initial_target(&self) -> State {
        if self.bad_initial {
            State::new(1)
        } else {
            State::new(2)
        }
    }

    fn initial(&mut self) -> State {
        self.log.push("top-initial".to_string());
        self.top_initial_target()
    }
}

impl StateDef for Machine {
    fn initial_transition(&mut self, state: State) -> Option<State> {
        self.log.push(format!("initial {}", state.id()));
        if self.bad_initial && state == State::new(1) {
            Some(State::new(3))
        } else {
            None
        }
    }

    fn entry(&mut self, state: State) {
        self.log.push(format!("entry {}", state.id()));
    }

    fn exit(&mut self, state: State) {
        self.log.push(format!("exit {}", state.id()));
    }

    fn handler(&mut self, state: State, event: &Ev) -> Action {
        self.log.push(format!("handler {}", state.id()));
        match (state.id(), event) {
            (2, Ev::ToUnknown) => Action::Transition(State::new(42)),
            (1, Ev::ToTop) => Action::Transition(State::new(4)),
            _ => Action::Unhandled,
        }
    }
}

#[test]
fn transition_to_unknown_state_is_refused_with_nothing_done() {
    let mut m = Machine { log: Vec::new(), bad_initial: false };
    let mut sm = StateMachine::new().initial(&mut m).unwrap();
    assert_eq!(sm.current_state(), Some(State::new(2)));
    m.log.clear();
    assert_eq!(
        sm.dispatch(&mut m, &Ev::ToUnknown),
        Err(HsmError::UnknownState(State::new(42)))
    );
    assert_eq!(m.log, vec!["handler 2".to_string()]);
    assert_eq!(sm.current_state(), Some(State::new(2)));
}

#[test]
fn transition_across_top_states_exits_everything() {
    let mut m = Machine { log: Vec::new(), bad_initial: false };
    let mut sm = StateMachine::new().initial(&mut m).unwrap();
    m.log.clear();
    assert_eq!(sm.dispatch(&mut m, &Ev::ToTop), Ok(()));
    assert_eq!(
        m.log,
        vec![
            "handler 2".to_string(),
            "handler 1".to_string(),
            "exit 2".to_string(),
            "exit 1".to_string(),
            "exit 0".to_string(),
            "entry 4".to_string(),
            "initial 4".to_string(),
        ]
    );
    assert_eq!(sm.current_state(), Some(State::new(4)));
}

#[test]
fn initial_transition_to_a_sibling_is_refused() {
    let mut m = Machine { log: Vec::new(), bad_initial: true };
    let r = StateMachine::new().initial(&mut m);
    assert!(matches!(
        r,
        Err(HsmError::InvalidInitialTransition { from, to }) if from == State::new(1) && to == State::new(3)
    ));
    assert_eq!(
        m.log,
        vec![
            "top-initial".to_string(),
            "entry 0".to_string(),
            "entry 1".to_string(),
            "initial 1".to_string(),
        ]
    );
}
