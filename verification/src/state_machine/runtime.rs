use vstd::prelude::*;

use super::defs::{Action, Callback, HsmError, State, StateDef, StateMachineDef, MAX_NEST_DEPTH};
use super::sealed::Sealed;
use super::tree::StateTree;

verus! {

/// Sealed trait marker for [`Run`] and [`Init`]
pub trait RunState: Sealed {}

/// Marker for [`StateMachine`] indicating that it is in the `Init` phase.
pub struct Init {}

impl Sealed for Init {}

impl RunState for Init {}

/// Marker for [`StateMachine`] indicating that it is in the `Run` phase.
pub struct Run {}

impl Sealed for Run {}

impl RunState for Run {}

/// The calls made by one step of a transition: with `curr` active, a transition from `source`
/// to `target` exits the exit path, enters the entry path and then runs the initial transition
/// of `target`.
pub open spec fn step_calls(
    tree: StateTree,
    curr: Option<State>,
    source: Option<State>,
    target: State,
) -> Seq<Callback> {
    let b = tree.boundary(source, target);
    tree.exit_path(curr, b).map_values(|s: State| Callback::Exit(s)) + tree.entry_path(
        target,
        b,
    ).map_values(|s: State| Callback::Entry(s)) + seq![Callback::Initial(target)]
}

/// The handler calls for the states `xs`, in order.
pub open spec fn handler_calls(xs: Seq<State>) -> Seq<Callback> {
    xs.map_values(|s: State| Callback::Handler(s))
}

/// The context after the exit actions of `xs` have run on `ctx`, in order.
pub open spec fn exit_all<Sm: StateDef>(ctx: Sm, xs: Seq<State>) -> Sm
    decreases xs.len(),
{
    if xs.len() == 0 {
        ctx
    } else {
        exit_all(ctx, xs.drop_last()).after_exit(xs.last())
    }
}

/// The context after the entry actions of `xs` have run on `ctx`, in order.
pub open spec fn enter_all<Sm: StateDef>(ctx: Sm, xs: Seq<State>) -> Sm
    decreases xs.len(),
{
    if xs.len() == 0 {
        ctx
    } else {
        enter_all(ctx, xs.drop_last()).after_entry(xs.last())
    }
}

/// The active state once the exit path of a transition inside `boundary` has been exited:
/// the first state of the chain of `curr` that is not on the exit path, `None` when every
/// state of it is.
pub open spec fn after_exits(tree: StateTree, curr: Option<State>, boundary: Option<State>) -> Option<
    State,
> {
    let ch = tree.chain_opt(curr);
    let n = tree.exit_path(curr, boundary).len();
    if n < ch.len() {
        Some(ch[n as int])
    } else {
        None
    }
}

/// Whether an initial transition of `from` may go on to `to`: `to` is nested inside `from`
/// (for a tree built by [`StateTree::add`] the depth bounds follow from that).
pub open spec fn nested_step(tree: StateTree, to: State, from: State) -> bool {
    &&& tree.is_proper_descendant(to, from)
    &&& tree.depth_of(from) < tree.depth_of(to) <= MAX_NEST_DEPTH
}

/// What a run of the state machine leaves: the context, the active state, the calls made into
/// the definition, in order, and the result.
pub type Outcome<Sm> = (Sm, Option<State>, Seq<Callback>, Result<(), HsmError>);

/// `o` with the calls `first` made before it.
pub open spec fn after_calls<Sm>(first: Seq<Callback>, o: Outcome<Sm>) -> Outcome<Sm> {
    (o.0, o.1, first + o.2, o.3)
}

/// A transition from `source` to `target` in `tree`, with `curr` active and the context
/// `ctx`: it exits the exit path and enters the entry path, then runs the initial transition
/// of `target`. When that names no state, `target` is left active. When it names a state
/// nested inside `target`, the transition goes on from `target` to that state; any other
/// state is refused with [`HsmError::InvalidInitialTransition`], `target` being active.
pub open spec fn descend<Sm: StateDef>(
    tree: StateTree,
    ctx: Sm,
    curr: Option<State>,
    source: Option<State>,
    target: State,
) -> Outcome<Sm>
    decreases MAX_NEST_DEPTH - tree.depth_of(target),
{
    let b = tree.boundary(source, target);
    let entered = enter_all(exit_all(ctx, tree.exit_path(curr, b)), tree.entry_path(target, b));
    let settled = entered.after_initial(target);
    let calls = step_calls(tree, curr, source, target);
    match entered.initial_of(target) {
        None => (settled, Some(target), calls, Ok(())),
        Some(n) => if nested_step(tree, n, target) {
            after_calls(calls, descend(tree, settled, Some(target), Some(target), n))
        } else {
            (
                settled,
                Some(target),
                calls,
                Err(HsmError::InvalidInitialTransition { from: target, to: n }),
            )
        },
    }
}

/// A transition from `source` to `target`: one to a state outside the tree is refused with
/// [`HsmError::UnknownState`] and nothing done; otherwise it is [`descend`].
pub open spec fn transition_spec<Sm: StateDef>(
    tree: StateTree,
    ctx: Sm,
    curr: Option<State>,
    source: Option<State>,
    target: State,
) -> Outcome<Sm> {
    if !tree.has_state(target) {
        (ctx, curr, Seq::empty(), Err(HsmError::UnknownState(target)))
    } else {
        descend(tree, ctx, curr, source, target)
    }
}

/// The overall initial transition on the context `ctx`: [`StateMachineDef::initial`] runs,
/// then the transition to the state it names, from no source.
pub open spec fn initial_spec<Sm: StateDef>(tree: StateTree, ctx: Sm, curr: Option<State>) -> Outcome<
    Sm,
> {
    after_calls(
        seq![Callback::TopInitial],
        transition_spec(tree, ctx.after_top_initial(), curr, None, ctx.top_initial_target()),
    )
}

/// `event` offered to the handlers of the states `xs` in turn, with `curr` active: a handler
/// that handles it ends the dispatch; one that asks for a transition ends it with that
/// transition, from its own state; one that leaves it unhandled passes it on. When no handler
/// is left, the event is refused with [`HsmError::UnhandledEvent`].
pub open spec fn dispatch_along<Sm: StateDef>(
    tree: StateTree,
    ctx: Sm,
    curr: Option<State>,
    xs: Seq<State>,
    event: &Sm::Event,
) -> Outcome<Sm>
    decreases xs.len(),
{
    if xs.len() == 0 {
        (ctx, curr, Seq::empty(), Err(HsmError::UnhandledEvent))
    } else {
        let s = xs[0];
        let handled = ctx.after_handler(s, event);
        let call = seq![Callback::Handler(s)];
        match ctx.action_of(s, event) {
            Action::Handled => (handled, curr, call, Ok(())),
            Action::Transition(t) => after_calls(
                call,
                transition_spec(tree, handled, curr, Some(s), t),
            ),
            Action::Unhandled => after_calls(
                call,
                dispatch_along(tree, handled, curr, xs.drop_first(), event),
            ),
        }
    }
}

/// Dispatching `event` with `curr` active: it is offered to `curr` and then to its ancestors,
/// innermost first (see [`dispatch_along`]).
pub open spec fn dispatch_spec<Sm: StateDef>(
    tree: StateTree,
    ctx: Sm,
    curr: Option<State>,
    event: &Sm::Event,
) -> Outcome<Sm> {
    dispatch_along(tree, ctx, curr, tree.chain_opt(curr), event)
}

/// Runtime `StateMachine` object. Instatiates a state machine that can actually be used for
/// execution. The `Sm` (state machine) object implementing [`StateDef`] must be supplied.
///
/// Besides the active state, the machine keeps, for proofs only, the log of the calls it has
/// made into the user's definition: each call is logged where it is made.
pub struct StateMachine<Sm: StateDef, S: RunState = Init> {
    tree: StateTree,
    curr_state: Option<State>,
    calls: Ghost<Seq<Callback>>,
    _sm: std::marker::PhantomData<Sm>,
    _phase: std::marker::PhantomData<S>,
}

impl<Sm: StateDef, S: RunState> StateMachine<Sm, S> {
    #[verifier::type_invariant]
    spec fn active_in_tree(&self) -> bool {
        self.curr_state matches Some(c) ==> self.tree.has_state(c)
    }

    /// The hierarchy of states.
    pub closed spec fn tree(&self) -> StateTree {
        self.tree
    }

    /// The active state, `None` before the initial transition.
    pub closed spec fn current(&self) -> Option<State> {
        self.curr_state
    }

    /// The calls made so far into the user's definition, in order.
    pub closed spec fn calls(&self) -> Seq<Callback> {
        self.calls@
    }

    /// The active state, `None` before the initial transition.
    pub fn current_state(&self) -> (s: Option<State>)
        ensures
            s == self.current(),
            s matches Some(c) ==> self.tree().has_state(c),
    {
        proof {
            use_type_invariant(self);
        }
        self.curr_state
    }

    /// Exits the active state and its ancestors that lie strictly below `boundary`, innermost
    /// first.
    fn exit_below(&mut self, context: &mut Sm, boundary: Option<State>)
        requires
            boundary matches Some(x) ==> old(self).tree().has_state(x),
        ensures
            final(self).tree() == old(self).tree(),
            final(self).current() == after_exits(old(self).tree(), old(self).current(), boundary),
            final(self).calls() == old(self).calls() + old(self).tree().exit_path(
                old(self).current(),
                boundary,
            ).map_values(|s: State| Callback::Exit(s)),
            *final(context) == exit_all(
                *old(context),
                old(self).tree().exit_path(old(self).current(), boundary),
            ),
    {
        proof {
            use_type_invariant(&*self);
            use_type_invariant(&self.tree);
        }
        let ghost tree0 = self.tree;
        let ghost curr_start = self.curr_state;
        let ghost calls_start = self.calls@;
        let ghost ctx_start = *context;
        let d: usize = match boundary {
            Some(x) => self.tree.depth(x),
            None => 0,
        };
        let ghost mut exited: Seq<State> = Seq::empty();
        while self.tree.deeper_than(self.curr_state, d)
            invariant
                self.tree == tree0,
                tree0 == old(self).tree(),
                curr_start == old(self).current(),
                calls_start == old(self).calls(),
                ctx_start == *old(context),
                tree0.wf(),
                d == tree0.depth_opt(boundary),
                self.curr_state matches Some(c) ==> tree0.has_state(c),
                tree0.exit_path(curr_start, boundary) == exited + tree0.above(
                    tree0.chain_opt(self.curr_state),
                    d as nat,
                ),
                tree0.chain_opt(curr_start) == exited + tree0.chain_opt(self.curr_state),
                self.calls@ == calls_start + exited.map_values(|s: State| Callback::Exit(s)),
                *context == exit_all(ctx_start, exited),
            decreases tree0.depth_opt(self.curr_state),
        {
            let c = self.curr_state.unwrap();
            proof {
                tree0.lemma_above_step(self.curr_state, d as nat);
                tree0.lemma_chain_step(c);
            }
            context.exit(c);
            proof {
                assert(exited.push(c).drop_last() =~= exited);
                assert(exited.push(c).map_values(|s: State| Callback::Exit(s)) =~= exited.map_values(
                    |s: State| Callback::Exit(s),
                ).push(Callback::Exit(c)));
                assert(tree0.exit_path(curr_start, boundary) =~= exited.push(c) + tree0.above(
                    tree0.chain_opt(tree0.parent_of(c)),
                    d as nat,
                ));
                assert(tree0.chain_opt(curr_start) =~= exited.push(c) + tree0.chain_opt(
                    tree0.parent_of(c),
                ));
            }
            self.calls = Ghost(self.calls@.push(Callback::Exit(c)));
            self.curr_state = self.tree.parent(c);
            proof {
                exited = exited.push(c);
            }
        }
        proof {
            tree0.lemma_above_step(self.curr_state, d as nat);
            assert(exited + Seq::<State>::empty() =~= exited);
            if let Some(c) = self.curr_state {
                tree0.lemma_chain(c);
                assert(tree0.chain_opt(curr_start)[exited.len() as int] == c);
            }
        }
    }

    /// Enters the ancestors of `target` that lie strictly below `boundary`, outermost first,
    /// and then `target` itself when it lies below `boundary`.
    fn enter_down_to(&mut self, context: &mut Sm, target: State, boundary: Option<State>)
        requires
            old(self).tree().has_state(target),
            boundary matches Some(x) ==> old(self).tree().has_state(x),
        ensures
            final(self).tree() == old(self).tree(),
            final(self).current() == old(self).current(),
            final(self).calls() == old(self).calls() + old(self).tree().entry_path(
                target,
                boundary,
            ).map_values(|s: State| Callback::Entry(s)),
            *final(context) == enter_all(
                *old(context),
                old(self).tree().entry_path(target, boundary),
            ),
    {
        proof {
            use_type_invariant(&*self);
        }
        let ghost tree0 = self.tree;
        let ghost calls_start = self.calls@;
        let ghost ctx_start = *context;
        let path = self.tree.entry_path_of(target, boundary);
        let n = path.len();
        let mut i = n;
        while i > 0
            invariant
                self.tree == tree0,
                tree0 == old(self).tree(),
                calls_start == old(self).calls(),
                ctx_start == *old(context),
                self.curr_state == old(self).current(),
                self.curr_state matches Some(c) ==> tree0.has_state(c),
                i <= n,
                n == path@.len(),
                self.calls@ == calls_start + path@.subrange(i as int, n as int).reverse().map_values(
                    |s: State| Callback::Entry(s),
                ),
                *context == enter_all(ctx_start, path@.subrange(i as int, n as int).reverse()),
            decreases i,
        {
            i = i - 1;
            let s = *path.get(i).unwrap();
            context.entry(s);
            proof {
                let prev = path@.subrange(i + 1, n as int).reverse();
                assert(path@.subrange(i as int, n as int).reverse() =~= prev.push(s));
                assert(prev.push(s).drop_last() =~= prev);
                assert(path@.subrange(i as int, n as int).reverse().map_values(
                    |s: State| Callback::Entry(s),
                ) =~= prev.map_values(|s: State| Callback::Entry(s)).push(Callback::Entry(s)));
            }
            self.calls = Ghost(self.calls@.push(Callback::Entry(s)));
        }
        proof {
            assert(path@.subrange(0, n as int) =~= path@);
        }
    }

    /// Takes a transition from `source` to `target`, then follows initial transitions down.
    fn transition(&mut self, context: &mut Sm, source: Option<State>, target: State) -> (r: Result<
        (),
        HsmError,
    >)
        requires
            source matches Some(s) ==> old(self).tree().has_state(s),
        ensures
            final(self).tree() == old(self).tree(),
            ({
                let o = transition_spec(
                    old(self).tree(),
                    *old(context),
                    old(self).current(),
                    source,
                    target,
                );
                &&& *final(context) == o.0
                &&& final(self).current() == o.1
                &&& final(self).calls() == old(self).calls() + o.2
                &&& r == o.3
            }),
    {
        proof {
            use_type_invariant(&*self);
            use_type_invariant(&self.tree);
        }
        if !self.tree.contains(target) {
            proof {
                assert(self.calls@ + Seq::<Callback>::empty() =~= self.calls@);
            }
            return Err(HsmError::UnknownState(target));
        }
        let ghost tree0 = self.tree;
        let ghost calls0 = self.calls@;
        let ghost full = descend(tree0, *context, self.curr_state, source, target);
        let ghost mut done: Seq<Callback> = Seq::empty();
        let mut src = source;
        let mut tgt = target;
        loop
            invariant
                self.tree == tree0,
                tree0 == old(self).tree(),
                calls0 == old(self).calls(),
                full == descend(tree0, *old(context), old(self).current(), source, target),
                tree0.wf(),
                tree0.has_state(target),
                tree0.has_state(tgt),
                src matches Some(s) ==> tree0.has_state(s),
                self.curr_state matches Some(c) ==> tree0.has_state(c),
                self.calls@ == calls0 + done,
                ({
                    let o = descend(tree0, *context, self.curr_state, src, tgt);
                    &&& full.0 == o.0
                    &&& full.1 == o.1
                    &&& full.2 == done + o.2
                    &&& full.3 == o.3
                }),
            decreases MAX_NEST_DEPTH - tree0.depth_of(tgt),
        {
            let ghost ctx_start = *context;
            let ghost curr_start = self.curr_state;
            let ghost calls_start = self.calls@;
            let b = self.tree.boundary_of(src, tgt);
            self.exit_below(context, b);
            self.enter_down_to(context, tgt, b);
            proof {
                use_type_invariant(&*self);
            }
            let next = context.initial_transition(tgt);
            proof {
                let step = step_calls(tree0, curr_start, src, tgt);
                assert(self.calls@.push(Callback::Initial(tgt)) =~= calls_start + step);
            }
            self.calls = Ghost(self.calls@.push(Callback::Initial(tgt)));
            self.curr_state = Some(tgt);
            let ghost step = step_calls(tree0, curr_start, src, tgt);
            let ghost o = descend(tree0, ctx_start, curr_start, src, tgt);
            match self.tree.follow_initial(tgt, next) {
                Ok(None) => {
                    proof {
                        assert(o.0 == *context);
                        assert(o.1 == Some(tgt));
                        assert(o.2 == step);
                        assert(o.3 == Ok::<(), HsmError>(()));
                        assert(full.2 =~= (done + step) + Seq::<Callback>::empty());
                        assert(self.calls@ =~= calls0 + full.2);
                    }
                    return Ok(());
                },
                Ok(Some(n)) => {
                    proof {
                        tree0.lemma_nested_step(n, tgt);
                        assert(full.2 =~= (done + step) + descend(
                            tree0,
                            *context,
                            self.curr_state,
                            Some(tgt),
                            n,
                        ).2);
                        assert(self.calls@ =~= calls0 + (done + step));
                        done = done + step;
                    }
                    src = Some(tgt);
                    tgt = n;
                },
                Err(e) => {
                    proof {
                        tree0.lemma_nested_step(next.unwrap(), tgt);
                        assert(o.0 == *context);
                        assert(o.1 == Some(tgt));
                        assert(o.2 == step);
                        assert(full.2 =~= (done + step) + Seq::<Callback>::empty());
                        assert(self.calls@ =~= calls0 + full.2);
                    }
                    return Err(e);
                },
            }
        }
    }
}

impl<Sm: StateDef> StateMachine<Sm, Init> {
    /// A state machine before its initial transition, on the hierarchy of states of the
    /// definition: no state is active.
    #[must_use]
    pub fn new() -> (sm: Self)
        ensures
            sm.tree().wf(),
            sm.current() is None,
            sm.calls() == Seq::<Callback>::empty(),
    {
        let tree = Sm::state_tree();
        proof {
            use_type_invariant(&tree);
        }
        StateMachine {
            tree,
            curr_state: None,
            calls: Ghost(Seq::empty()),
            _sm: std::marker::PhantomData,
            _phase: std::marker::PhantomData,
        }
    }

    /// Runs the overall initial transition: asks the definition for the initial state, enters
    /// it from the top and follows initial transitions down. The machine is then running.
    pub fn initial(self, context: &mut Sm) -> (r: Result<StateMachine<Sm, Run>, HsmError>)
        ensures
            ({
                let o = initial_spec(self.tree(), *old(context), self.current());
                &&& *final(context) == o.0
                &&& match r {
                    Ok(m) => {
                        &&& o.3 is Ok
                        &&& m.tree() == self.tree()
                        &&& m.current() == o.1
                        &&& m.calls() == self.calls() + o.2
                    },
                    Err(e) => o.3 == Err::<(), HsmError>(e),
                }
            }),
    {
        let mut sm = self;
        proof {
            use_type_invariant(&sm);
        }
        let target = context.initial();
        sm.calls = Ghost(sm.calls@.push(Callback::TopInitial));
        let r = sm.transition(context, None, target);
        proof {
            let o = transition_spec(self.tree(), old(context).after_top_initial(), self.current(), None, target);
            assert(sm.calls@ =~= self.calls() + (seq![Callback::TopInitial] + o.2));
            use_type_invariant(&sm);
        }
        match r {
            Ok(()) => {
                let StateMachine { tree, curr_state, calls, .. } = sm;
                Ok(
                    StateMachine {
                        tree,
                        curr_state,
                        calls,
                        _sm: std::marker::PhantomData,
                        _phase: std::marker::PhantomData,
                    },
                )
            },
            Err(e) => Err(e),
        }
    }
}

impl<Sm: StateDef> StateMachine<Sm, Run> {
    /// Dispatches an event to the `StateMachine`: the handlers of the active state and its
    /// ancestors are offered the event in turn, until one handles it or asks for a
    /// transition, which is then taken.
    ///
    /// # Errors
    /// All events must be handled; one that no state handles is refused with
    /// [`HsmError::UnhandledEvent`]. A transition to a state outside the tree, or an
    /// initial transition to a state not nested in its source, is refused too.
    pub fn dispatch(&mut self, context: &mut Sm, event: &Sm::Event) -> (r: Result<(), HsmError>)
        ensures
            final(self).tree() == old(self).tree(),
            ({
                let o = dispatch_spec(old(self).tree(), *old(context), old(self).current(), event);
                &&& *final(context) == o.0
                &&& final(self).current() == o.1
                &&& final(self).calls() == old(self).calls() + o.2
                &&& r == o.3
            }),
    {
        proof {
            use_type_invariant(&*self);
            use_type_invariant(&self.tree);
        }
        let ghost tree0 = self.tree;
        let ghost curr0 = self.curr_state;
        let ghost calls0 = self.calls@;
        let ghost full = dispatch_spec(tree0, *context, curr0, event);
        let ghost mut seen: Seq<State> = Seq::empty();
        let mut state_opt = self.curr_state;
        while state_opt.is_some()
            invariant
                self.tree == tree0,
                tree0 == old(self).tree(),
                curr0 == old(self).current(),
                calls0 == old(self).calls(),
                full == dispatch_spec(tree0, *old(context), curr0, event),
                tree0.wf(),
                self.curr_state == curr0,
                curr0 matches Some(c) ==> tree0.has_state(c),
                state_opt matches Some(c) ==> tree0.has_state(c),
                self.calls@ == calls0 + handler_calls(seen),
                ({
                    let o = dispatch_along(tree0, *context, curr0, tree0.chain_opt(state_opt), event);
                    &&& full.0 == o.0
                    &&& full.1 == o.1
                    &&& full.2 == handler_calls(seen) + o.2
                    &&& full.3 == o.3
                }),
            decreases
                match state_opt {
                    Some(c) => c.id + 1,
                    None => 0,
                },
        {
            let s = state_opt.unwrap();
            let ghost ctx_start = *context;
            proof {
                tree0.lemma_chain_step(s);
                assert(tree0.chain(s)[0] == s);
            }
            let action = context.handler(s, event);
            proof {
                assert(handler_calls(seen.push(s)) =~= handler_calls(seen) + seq![Callback::Handler(s)]);
            }
            self.calls = Ghost(self.calls@.push(Callback::Handler(s)));
            proof {
                assert(self.calls@ =~= calls0 + handler_calls(seen.push(s)));
            }
            match action {
                Action::Handled => {
                    proof {
                        assert(self.calls@ =~= calls0 + full.2);
                    }
                    return Ok(());
                },
                Action::Transition(t) => {
                    let r = self.transition(context, Some(s), t);
                    proof {
                        assert(self.calls@ =~= calls0 + full.2);
                    }
                    return r;
                },
                Action::Unhandled => {
                    proof {
                        let rest = dispatch_along(
                            tree0,
                            *context,
                            curr0,
                            tree0.chain_opt(tree0.parent_of(s)),
                            event,
                        );
                        assert(full.2 =~= handler_calls(seen.push(s)) + rest.2);
                        seen = seen.push(s);
                    }
                    state_opt = self.tree.parent(s);
                },
            }
        }
        proof {
            assert(full.2 =~= handler_calls(seen) + Seq::<Callback>::empty());
        }
        Err(HsmError::UnhandledEvent)
    }
}

impl<Sm: StateDef> Default for StateMachine<Sm, Init> {
    fn default() -> (sm: Self)
        ensures
            sm.tree().wf(),
            sm.current() is None,
            sm.calls() == Seq::<Callback>::empty(),
    {
        Self::new()
    }
}

} // verus!
