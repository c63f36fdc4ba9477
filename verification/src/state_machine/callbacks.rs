use vstd::prelude::*;

use super::defs::{Action, Callback, HsmError, State, StateDef, MAX_NEST_DEPTH};
use super::laws::law_self_transition;
use super::runtime::{
    descend, dispatch_along, dispatch_spec, enter_all, exit_all, initial_spec, nested_step,
    transition_spec,
};
use super::tree::StateTree;

verus! {

/// The context after the definition's method for `call` has run on `ctx`; a handler is
/// handed `event`.
pub open spec fn run_call<Sm: StateDef>(ctx: Sm, call: Callback, event: &Sm::Event) -> Sm {
    match call {
        Callback::TopInitial => ctx.after_top_initial(),
        Callback::Initial(s) => ctx.after_initial(s),
        Callback::Entry(s) => ctx.after_entry(s),
        Callback::Handler(s) => ctx.after_handler(s, event),
        Callback::Exit(s) => ctx.after_exit(s),
    }
}

/// The context after the definition's methods for `calls` have run on `ctx`, in order.
pub open spec fn run_calls<Sm: StateDef>(ctx: Sm, calls: Seq<Callback>, event: &Sm::Event) -> Sm
    decreases calls.len(),
{
    if calls.len() == 0 {
        ctx
    } else {
        run_call(run_calls(ctx, calls.drop_last(), event), calls.last(), event)
    }
}

/// The first answer other than `Unhandled` that the handlers of `xs` give to `event`, each
/// handler running on the context the one before it left; `None` when all of them leave the
/// event unhandled.
pub open spec fn first_answer<Sm: StateDef>(ctx: Sm, xs: Seq<State>, event: &Sm::Event) -> Option<
    Action,
>
    decreases xs.len(),
{
    if xs.len() == 0 {
        None
    } else {
        match ctx.action_of(xs[0], event) {
            Action::Unhandled => first_answer(ctx.after_handler(xs[0], event), xs.drop_first(), event),
            a => Some(a),
        }
    }
}

/// Running two lists of calls is running the first, then the second.
pub proof fn lemma_run_calls_concat<Sm: StateDef>(
    ctx: Sm,
    a: Seq<Callback>,
    b: Seq<Callback>,
    event: &Sm::Event,
)
    ensures
        run_calls(ctx, a + b, event) == run_calls(run_calls(ctx, a, event), b, event),
    decreases b.len(),
{
    if b.len() == 0 {
        assert(a + b =~= a);
    } else {
        lemma_run_calls_concat(ctx, a, b.drop_last(), event);
        assert((a + b).drop_last() =~= a + b.drop_last());
        assert((a + b).last() == b.last());
    }
}

/// Running the exits of `xs` is running their exit actions.
pub proof fn lemma_run_exits<Sm: StateDef>(ctx: Sm, xs: Seq<State>, event: &Sm::Event)
    ensures
        run_calls(ctx, xs.map_values(|s: State| Callback::Exit(s)), event) == exit_all(ctx, xs),
    decreases xs.len(),
{
    if xs.len() > 0 {
        lemma_run_exits(ctx, xs.drop_last(), event);
        assert(xs.map_values(|s: State| Callback::Exit(s)).drop_last() =~= xs.drop_last().map_values(
            |s: State| Callback::Exit(s),
        ));
    }
}

/// Running the entries of `xs` is running their entry actions.
pub proof fn lemma_run_entries<Sm: StateDef>(ctx: Sm, xs: Seq<State>, event: &Sm::Event)
    ensures
        run_calls(ctx, xs.map_values(|s: State| Callback::Entry(s)), event) == enter_all(ctx, xs),
    decreases xs.len(),
{
    if xs.len() > 0 {
        lemma_run_entries(ctx, xs.drop_last(), event);
        assert(xs.map_values(|s: State| Callback::Entry(s)).drop_last() =~= xs.drop_last().map_values(
            |s: State| Callback::Entry(s),
        ));
    }
}

/// The first step of a transition: the exits, the entries and the initial transition of the
/// target, on the tree's paths.
pub open spec fn first_step_calls(
    tree: StateTree,
    curr: Option<State>,
    source: Option<State>,
    target: State,
) -> Seq<Callback> {
    let b = tree.boundary(source, target);
    tree.exit_path(curr, b).map_values(|s: State| Callback::Exit(s)) + tree.entry_path(
        target,
        b,
    ).map_values(|s: State| Callback::Entry(s)) + seq![Callback::Initial(target)]
}

/// A transition leaves the context that its calls leave, run in the order logged; it begins
/// with the exits of its exit path, the entries of its entry path and the initial transition
/// of the target.
pub proof fn lemma_descend_runs_its_calls<Sm: StateDef>(
    tree: StateTree,
    ctx: Sm,
    curr: Option<State>,
    source: Option<State>,
    target: State,
    event: &Sm::Event,
)
    ensures
        descend(tree, ctx, curr, source, target).0 == run_calls(
            ctx,
            descend(tree, ctx, curr, source, target).2,
            event,
        ),
        descend(tree, ctx, curr, source, target).2.len() >= first_step_calls(
            tree,
            curr,
            source,
            target,
        ).len(),
        descend(tree, ctx, curr, source, target).2.take(
            first_step_calls(tree, curr, source, target).len() as int,
        ) == first_step_calls(tree, curr, source, target),
    decreases MAX_NEST_DEPTH - tree.depth_of(target),
{
    let b = tree.boundary(source, target);
    let xs = tree.exit_path(curr, b);
    let ys = tree.entry_path(target, b);
    let ex = xs.map_values(|s: State| Callback::Exit(s));
    let en = ys.map_values(|s: State| Callback::Entry(s));
    let init = seq![Callback::Initial(target)];
    let calls = first_step_calls(tree, curr, source, target);
    let entered = enter_all(exit_all(ctx, xs), ys);
    let settled = entered.after_initial(target);
    lemma_run_exits(ctx, xs, event);
    lemma_run_entries(exit_all(ctx, xs), ys, event);
    lemma_run_calls_concat(ctx, ex, en, event);
    lemma_run_calls_concat(ctx, ex + en, init, event);
    assert(init.drop_last() =~= Seq::<Callback>::empty());
    assert(run_calls(entered, Seq::<Callback>::empty(), event) == entered);
    assert(run_calls(entered, init, event) == settled);
    assert(run_calls(ctx, calls, event) == settled);
    if let Some(n) = entered.initial_of(target) {
        if nested_step(tree, n, target) {
            let rest = descend(tree, settled, Some(target), Some(target), n);
            lemma_descend_runs_its_calls(tree, settled, Some(target), Some(target), n, event);
            lemma_run_calls_concat(ctx, calls, rest.2, event);
            assert((calls + rest.2).take(calls.len() as int) =~= calls);
        } else {
            assert(calls.take(calls.len() as int) =~= calls);
        }
    } else {
        assert(calls.take(calls.len() as int) =~= calls);
    }
}

/// Law: a transition leaves the context that the definition's methods leave when run in the
/// order of the calls it made: what a transition does to the context is its calls.
pub proof fn law_transition_runs_its_calls<Sm: StateDef>(
    tree: StateTree,
    ctx: Sm,
    curr: Option<State>,
    source: Option<State>,
    target: State,
    event: &Sm::Event,
)
    ensures
        transition_spec(tree, ctx, curr, source, target).0 == run_calls(
            ctx,
            transition_spec(tree, ctx, curr, source, target).2,
            event,
        ),
{
    if tree.has_state(target) {
        lemma_descend_runs_its_calls(tree, ctx, curr, source, target, event);
    }
}

/// Law: a transition to a state of the tree first exits the states of its exit path,
/// innermost first, then enters the states of its entry path, outermost first, and then
/// runs the target's initial transition; initial transitions of nested states may follow.
pub proof fn law_transition_begins_with_its_paths<Sm: StateDef>(
    tree: StateTree,
    ctx: Sm,
    curr: Option<State>,
    source: Option<State>,
    target: State,
)
    requires
        tree.has_state(target),
    ensures
        ({
            let calls = transition_spec(tree, ctx, curr, source, target).2;
            let b = tree.boundary(source, target);
            let first = tree.exit_path(curr, b).map_values(|s: State| Callback::Exit(s))
                + tree.entry_path(target, b).map_values(|s: State| Callback::Entry(s)) + seq![
                Callback::Initial(target),
            ];
            calls.len() >= first.len() && calls.take(first.len() as int) == first
        }),
{
    let event: &Sm::Event = arbitrary();
    lemma_descend_runs_its_calls(tree, ctx, curr, source, target, event);
}

/// Law: a self-transition of the active state, or of one of its ancestors, exits that state
/// and then enters it again, in that order, before anything else it enters; its context is
/// its calls run in order (see [`law_transition_runs_its_calls`]).
pub proof fn law_self_transition_exits_and_reenters<Sm: StateDef>(
    tree: StateTree,
    ctx: Sm,
    curr: State,
    t: State,
)
    requires
        tree.wf(),
        tree.has_state(curr),
        tree.chain(curr).contains(t),
    ensures
        ({
            let calls = transition_spec(tree, ctx, Some(curr), Some(t), t).2;
            let k = tree.exit_path(Some(curr), tree.parent_of(t)).len() as int;
            &&& k >= 1
            &&& calls.len() >= k + 2
            &&& calls[k - 1] == Callback::Exit(t)
            &&& calls[k] == Callback::Entry(t)
            &&& calls[k + 1] == Callback::Initial(t)
        }),
{
    law_self_transition(tree, curr, t);
    tree.lemma_on_chain(curr, t);
    law_transition_begins_with_its_paths(tree, ctx, Some(curr), Some(t), t);
    let b = tree.boundary(Some(t), t);
    let xs = tree.exit_path(Some(curr), b);
    let calls = transition_spec(tree, ctx, Some(curr), Some(t), t).2;
    let first = xs.map_values(|s: State| Callback::Exit(s)) + tree.entry_path(t, b).map_values(
        |s: State| Callback::Entry(s),
    ) + seq![Callback::Initial(t)];
    assert(calls[xs.len() - 1] == first[xs.len() - 1]);
    assert(calls[xs.len() as int] == first[xs.len() as int]);
    assert(calls[xs.len() as int + 1] == first[xs.len() as int + 1]);
}

/// A dispatch along `xs` leaves the context its calls leave, refuses the event exactly when
/// every handler leaves it unhandled, and when the first other answer is `Handled` it ends
/// there with success, keeping the active state.
pub proof fn lemma_dispatch_along_answers<Sm: StateDef>(
    tree: StateTree,
    ctx: Sm,
    curr: Option<State>,
    xs: Seq<State>,
    event: &Sm::Event,
)
    ensures
        dispatch_along(tree, ctx, curr, xs, event).0 == run_calls(
            ctx,
            dispatch_along(tree, ctx, curr, xs, event).2,
            event,
        ),
        dispatch_along(tree, ctx, curr, xs, event).3 == Err::<(), HsmError>(
            HsmError::UnhandledEvent,
        ) <==> first_answer(ctx, xs, event) is None,
        first_answer(ctx, xs, event) == Some(Action::Handled) ==> {
            &&& dispatch_along(tree, ctx, curr, xs, event).3 == Ok::<(), HsmError>(())
            &&& dispatch_along(tree, ctx, curr, xs, event).1 == curr
            &&& forall|i: int|
                0 <= i < dispatch_along(tree, ctx, curr, xs, event).2.len() ==> (
                #[trigger] dispatch_along(tree, ctx, curr, xs, event).2[i]) is Handler
        },
    decreases xs.len(),
{
    let o = dispatch_along(tree, ctx, curr, xs, event);
    if xs.len() > 0 {
        let s = xs[0];
        let handled = ctx.after_handler(s, event);
        let call = seq![Callback::Handler(s)];
        assert(call.drop_last() =~= Seq::<Callback>::empty());
        assert(run_calls(ctx, Seq::<Callback>::empty(), event) == ctx);
        assert(run_calls(ctx, call, event) == handled);
        match ctx.action_of(s, event) {
            Action::Handled => {},
            Action::Transition(t) => {
                let rest = transition_spec(tree, handled, curr, Some(s), t);
                law_transition_runs_its_calls(tree, handled, curr, Some(s), t, event);
                lemma_run_calls_concat(ctx, call, rest.2, event);
                if tree.has_state(t) {
                    super::laws::lemma_descend_not_unhandled(tree, handled, curr, Some(s), t);
                }
            },
            Action::Unhandled => {
                let tail = xs.drop_first();
                let rest = dispatch_along(tree, handled, curr, tail, event);
                lemma_dispatch_along_answers(tree, handled, curr, tail, event);
                lemma_run_calls_concat(ctx, call, rest.2, event);
                if first_answer(ctx, xs, event) == Some(Action::Handled) {
                    assert forall|i: int| 0 <= i < o.2.len() implies (#[trigger] o.2[i]) is Handler by {
                        if i > 0 {
                            assert(o.2[i] == rest.2[i - 1]);
                        }
                    }
                }
            },
        }
    }
}

/// Law: dispatching an event leaves the context that the definition's methods leave when run
/// in the order of the calls it made.
pub proof fn law_dispatch_runs_its_calls<Sm: StateDef>(
    tree: StateTree,
    ctx: Sm,
    curr: Option<State>,
    event: &Sm::Event,
)
    ensures
        dispatch_spec(tree, ctx, curr, event).0 == run_calls(
            ctx,
            dispatch_spec(tree, ctx, curr, event).2,
            event,
        ),
{
    lemma_dispatch_along_answers(tree, ctx, curr, tree.chain_opt(curr), event);
}

/// Law: an event is refused as unhandled exactly when every state of the active chain, from
/// the active state up, leaves it unhandled. When the first state that answers otherwise
/// answers `Handled`, whether it is the active state or one of its ancestors, dispatch
/// succeeds, keeps the active state and calls nothing but handlers.
pub proof fn law_dispatch_refuses_only_unanswered_events<Sm: StateDef>(
    tree: StateTree,
    ctx: Sm,
    curr: Option<State>,
    event: &Sm::Event,
)
    ensures
        dispatch_spec(tree, ctx, curr, event).3 == Err::<(), HsmError>(HsmError::UnhandledEvent)
            <==> first_answer(ctx, tree.chain_opt(curr), event) is None,
        first_answer(ctx, tree.chain_opt(curr), event) == Some(Action::Handled) ==> {
            &&& dispatch_spec(tree, ctx, curr, event).3 == Ok::<(), HsmError>(())
            &&& dispatch_spec(tree, ctx, curr, event).1 == curr
            &&& forall|i: int|
                0 <= i < dispatch_spec(tree, ctx, curr, event).2.len() ==> (
                #[trigger] dispatch_spec(tree, ctx, curr, event).2[i]) is Handler
        },
{
    lemma_dispatch_along_answers(tree, ctx, curr, tree.chain_opt(curr), event);
}

/// Law: the overall initial transition leaves the context that the definition's methods
/// leave when run in the order of the calls it made.
pub proof fn law_initial_runs_its_calls<Sm: StateDef>(
    tree: StateTree,
    ctx: Sm,
    curr: Option<State>,
    event: &Sm::Event,
)
    ensures
        initial_spec(tree, ctx, curr).0 == run_calls(ctx, initial_spec(tree, ctx, curr).2, event),
{
    let t = ctx.top_initial_target();
    let start = ctx.after_top_initial();
    let moved = transition_spec(tree, start, curr, None, t);
    let top = seq![Callback::TopInitial];
    law_transition_runs_its_calls(tree, start, curr, None, t, event);
    assert(top.drop_last() =~= Seq::<Callback>::empty());
    assert(run_calls(ctx, Seq::<Callback>::empty(), event) == ctx);
    assert(run_calls(ctx, top, event) == start);
    lemma_run_calls_concat(ctx, top, moved.2, event);
}

} // verus!
