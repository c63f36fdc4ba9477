use vstd::prelude::*;

use super::defs::{Callback, HsmError, State, StateDef, MAX_NEST_DEPTH};
use super::runtime::{
    descend, dispatch_along, dispatch_spec, handler_calls, initial_spec, nested_step,
    step_calls, transition_spec,
};
use super::tree::{first_common, StateTree};

verus! {

/// Each state of a chain has the next one as its parent, and the last one is a topmost state.
pub proof fn lemma_chain_links(tree: StateTree, s: State)
    requires
        tree.wf(),
        tree.has_state(s),
    ensures
        forall|k: int|
            0 <= k < tree.chain(s).len() - 1 ==> tree.parent_of(#[trigger] tree.chain(s)[k])
                == Some(tree.chain(s)[k + 1]),
        tree.parent_of(tree.chain(s).last()) is None,
    decreases s.id,
{
    tree.lemma_chain_step(s);
    tree.lemma_chain(s);
    match tree.parent_of(s) {
        Some(p) => {
            lemma_chain_links(tree, p);
            tree.lemma_chain(p);
            assert forall|k: int| 0 <= k < tree.chain(s).len() - 1 implies tree.parent_of(
                #[trigger] tree.chain(s)[k],
            ) == Some(tree.chain(s)[k + 1]) by {
                if k == 0 {
                    assert(tree.chain(s)[1] == tree.chain(p)[0]);
                } else {
                    assert(tree.chain(s)[k] == tree.chain(p)[k - 1]);
                    assert(tree.chain(s)[k + 1] == tree.chain(p)[k]);
                }
            }
            assert(tree.chain(s).last() == tree.chain(p).last());
        },
        None => {},
    }
}

/// The chain of a state passes through each of its ancestors, and from there on it is that
/// ancestor's chain.
pub proof fn lemma_chain_suffix(tree: StateTree, c: State, s: State)
    requires
        tree.wf(),
        tree.has_state(c),
        tree.chain(c).contains(s),
    ensures
        tree.depth_of(s) <= tree.depth_of(c),
        tree.chain(c).skip(tree.depth_of(c) - tree.depth_of(s)) == tree.chain(s),
        tree.chain(c).take(tree.depth_of(c) - tree.depth_of(s)) + tree.chain(s) == tree.chain(c),
    decreases c.id,
{
    tree.lemma_chain(c);
    tree.lemma_chain_step(c);
    tree.lemma_on_chain(c, s);
    if s == c {
        assert(tree.chain(c).skip(0) =~= tree.chain(c));
        assert(tree.chain(c).take(0) + tree.chain(c) =~= tree.chain(c));
    } else {
        let p = tree.parent_of(c)->Some_0;
        assert(tree.chain(p).contains(s));
        lemma_chain_suffix(tree, p, s);
        let k = tree.depth_of(p) - tree.depth_of(s);
        assert(tree.chain(c).skip(k + 1) =~= tree.chain(p).skip(k));
        assert(tree.chain(c).take(k + 1) =~= seq![c] + tree.chain(p).take(k));
        assert(tree.chain(c).take(k + 1) + tree.chain(s) =~= tree.chain(c));
    }
}

/// The states of a chain deeper than `d` are its first `depth - d` states.
pub proof fn lemma_above_chain(tree: StateTree, c: Option<State>, d: nat)
    requires
        tree.wf(),
        c matches Some(x) ==> tree.has_state(x),
    ensures
        tree.above(tree.chain_opt(c), d) == tree.chain_opt(c).take(
            if tree.depth_opt(c) > d {
                tree.depth_opt(c) - d
            } else {
                0
            },
        ),
    decreases
            match c {
                Some(x) => x.id + 1,
                None => 0,
            },
{
    tree.lemma_above_step(c, d);
    match c {
        Some(x) => {
            tree.lemma_chain_step(x);
            tree.lemma_chain(x);
            if tree.depth_of(x) > d {
                let p = tree.parent_of(x);
                lemma_above_chain(tree, p, d);
                match p {
                    Some(q) => {
                        tree.lemma_chain(q);
                    },
                    None => {},
                }
                assert(tree.chain(x).take(tree.depth_of(x) - d) =~= seq![x] + tree.chain_opt(
                    p,
                ).take(
                    if tree.depth_opt(p) > d {
                        tree.depth_opt(p) - d
                    } else {
                        0
                    },
                ));
            } else {
                assert(tree.chain(x).take(0) =~= Seq::<State>::empty());
            }
        },
        None => {
            assert(Seq::<State>::empty().take(0) =~= Seq::<State>::empty());
        },
    }
}

/// Where the deepest common element lies: at the first index of `xs` whose element is in
/// `ys`, every earlier one being outside `ys`; with no such index there is none.
pub proof fn lemma_first_common_index(xs: Seq<State>, ys: Seq<State>) -> (k: int)
    ensures
        first_common(xs, ys) matches Some(x) ==> {
            &&& 0 <= k < xs.len()
            &&& xs[k] == x
            &&& ys.contains(x)
            &&& forall|i: int| 0 <= i < k ==> !ys.contains(#[trigger] xs[i])
        },
        first_common(xs, ys) is None ==> forall|i: int|
            0 <= i < xs.len() ==> !ys.contains(#[trigger] xs[i]),
    decreases xs.len(),
{
    if xs.len() == 0 {
        0
    } else if ys.contains(xs[0]) {
        0
    } else {
        let rest = xs.drop_first();
        let k = lemma_first_common_index(rest, ys);
        assert forall|i: int| 1 <= i < xs.len() implies xs[i] == rest[i - 1] by {}
        if first_common(rest, ys) is None {
            assert forall|i: int| 0 <= i < xs.len() implies !ys.contains(#[trigger] xs[i]) by {
                if i > 0 {
                    assert(xs[i] == rest[i - 1]);
                }
            }
        } else {
            assert forall|i: int| 0 <= i < k + 1 implies !ys.contains(#[trigger] xs[i]) by {
                if i > 0 {
                    assert(xs[i] == rest[i - 1]);
                }
            }
        }
        k + 1
    }
}

/// Law: the boundary of a transition between two different states is their lowest common
/// ancestor. It contains (or is) both the source and the target, and every state that
/// contains both lies at or above it; with no common ancestor there is no boundary.
pub proof fn law_boundary_is_lowest_common_ancestor(tree: StateTree, source: State, target: State)
    requires
        tree.wf(),
        tree.has_state(source),
        tree.has_state(target),
        source != target,
    ensures
        tree.boundary(Some(source), target) matches Some(b) ==> {
            &&& tree.chain(source).contains(b)
            &&& tree.chain(target).contains(b)
            &&& forall|x: State|
                tree.chain(source).contains(x) && tree.chain(target).contains(x) ==> tree.depth_of(
                    x,
                ) <= tree.depth_of(b)
        },
        tree.boundary(Some(source), target) is None ==> forall|x: State|
            !(tree.chain(source).contains(x) && tree.chain(target).contains(x)),
{
    let xs = tree.chain(source);
    let ys = tree.chain(target);
    tree.lemma_chain(source);
    let k = lemma_first_common_index(xs, ys);
    assert forall|x: State| xs.contains(x) && ys.contains(x) implies (tree.boundary(
        Some(source),
        target,
    ) matches Some(b) && tree.depth_of(x) <= tree.depth_of(b)) by {
        let i = choose|i: int| 0 <= i < xs.len() && xs[i] == x;
        if first_common(xs, ys) is None {
            assert(!ys.contains(xs[i]));
        } else {
            if i < k {
                assert(!ys.contains(xs[i]));
            }
            assert(tree.depth_of(xs[i]) == tree.depth_of(source) - i);
            assert(tree.depth_of(xs[k]) == tree.depth_of(source) - k);
        }
    }
    if let Some(b) = tree.boundary(Some(source), target) {
        assert(xs[k] == b);
    }
}

/// Law: the states exited, with `curr` active and the transition inside `boundary`, are `curr`
/// and its ancestors strictly below `boundary`, innermost first; each is the parent of the
/// one exited before it, and the last one is a child of `boundary`.
pub proof fn law_exit_path_innermost_first(
    tree: StateTree,
    curr: State,
    boundary: Option<State>,
)
    requires
        tree.wf(),
        tree.has_state(curr),
        boundary matches Some(b) ==> tree.chain(curr).contains(b),
    ensures
        tree.exit_path(Some(curr), boundary).len() == tree.depth_of(curr) - tree.depth_opt(
            boundary,
        ),
        tree.exit_path(Some(curr), boundary).len() > 0 ==> tree.exit_path(Some(curr), boundary)[0]
            == curr,
        forall|k: int|
            0 <= k < tree.exit_path(Some(curr), boundary).len() - 1 ==> tree.parent_of(
                #[trigger] tree.exit_path(Some(curr), boundary)[k],
            ) == Some(tree.exit_path(Some(curr), boundary)[k + 1]),
        tree.exit_path(Some(curr), boundary).len() > 0 ==> tree.parent_of(
            tree.exit_path(Some(curr), boundary).last(),
        ) == boundary,
        boundary matches Some(b) ==> !tree.exit_path(Some(curr), boundary).contains(b),
{
    tree.lemma_chain(curr);
    lemma_chain_links(tree, curr);
    let d = tree.depth_opt(boundary);
    lemma_above_chain(tree, Some(curr), d);
    let ch = tree.chain(curr);
    let n = (tree.depth_of(curr) - d) as int;
    match boundary {
        Some(b) => {
            lemma_chain_suffix(tree, curr, b);
            assert(ch[n] == tree.chain(b)[0]);
            tree.lemma_chain(b);
            if n > 0 {
                assert(tree.parent_of(ch[n - 1]) == Some(ch[n]));
            }
            assert forall|i: int| 0 <= i < n implies ch.take(n)[i] != b by {
                assert(tree.depth_of(ch[i]) == tree.depth_of(curr) - i);
            }
        },
        None => {
            assert(ch.take(n) =~= ch);
        },
    }
    assert forall|k: int| 0 <= k < n - 1 implies tree.parent_of(#[trigger] ch.take(n)[k]) == Some(
        ch.take(n)[k + 1],
    ) by {
        assert(tree.parent_of(ch[k]) == Some(ch[k + 1]));
    }
}

/// Law: the states entered on the way from `boundary` down to `target` are the target's
/// ancestors strictly below `boundary`, outermost first, and then the target itself: the
/// first one is a child of `boundary`, and each is the parent of the one entered after it.
pub proof fn law_entry_path_outermost_first(
    tree: StateTree,
    target: State,
    boundary: Option<State>,
)
    requires
        tree.wf(),
        tree.has_state(target),
        boundary matches Some(b) ==> tree.chain(target).contains(b) && b != target,
    ensures
        tree.entry_path(target, boundary).len() == tree.depth_of(target) - tree.depth_opt(
            boundary,
        ),
        tree.entry_path(target, boundary).len() > 0,
        tree.entry_path(target, boundary).last() == target,
        tree.parent_of(tree.entry_path(target, boundary)[0]) == boundary,
        forall|k: int|
            0 <= k < tree.entry_path(target, boundary).len() - 1 ==> tree.parent_of(
                tree.entry_path(target, boundary)[k + 1],
            ) == Some(#[trigger] tree.entry_path(target, boundary)[k]),
{
    tree.lemma_chain(target);
    lemma_chain_links(tree, target);
    let d = tree.depth_opt(boundary);
    lemma_above_chain(tree, Some(target), d);
    let ch = tree.chain(target);
    match boundary {
        Some(b) => {
            tree.lemma_on_chain(target, b);
        },
        None => {},
    }
    let n = (tree.depth_of(target) - d) as int;
    let up = ch.take(n);
    let down = up.reverse();
    assert(n > 0);
    assert(down.last() == up[0]);
    assert(down[0] == up[n - 1]);
    match boundary {
        Some(b) => {
            lemma_chain_suffix(tree, target, b);
            assert(ch[n] == tree.chain(b)[0]);
            tree.lemma_chain(b);
            assert(tree.parent_of(ch[n - 1]) == Some(ch[n]));
        },
        None => {
            assert(up =~= ch);
        },
    }
    assert forall|k: int| 0 <= k < n - 1 implies tree.parent_of(down[k + 1]) == Some(
        #[trigger] down[k],
    ) by {
        assert(down[k + 1] == up[n - 2 - k]);
        assert(down[k] == up[n - 1 - k]);
        assert(tree.parent_of(ch[n - 2 - k]) == Some(ch[n - 1 - k]));
    }
}

/// Law: a self-transition exits and re-enters its state. With the state `t` active or
/// containing the active state, the transition from `t` to `t` takes place inside the parent of
/// `t`: the exits run up to and including `t`, and `t` alone is then entered.
pub proof fn law_self_transition(tree: StateTree, curr: State, t: State)
    requires
        tree.wf(),
        tree.has_state(curr),
        tree.chain(curr).contains(t),
    ensures
        tree.boundary(Some(t), t) == tree.parent_of(t),
        tree.exit_path(Some(curr), tree.boundary(Some(t), t)).last() == t,
        tree.entry_path(t, tree.boundary(Some(t), t)) == seq![t],
{
    let b = tree.parent_of(t);
    lemma_chain_suffix(tree, curr, t);
    tree.lemma_on_chain(curr, t);
    tree.lemma_chain(curr);
    tree.lemma_chain(t);
    tree.lemma_chain_step(t);
    let ch = tree.chain(curr);
    let m = tree.depth_of(curr) - tree.depth_of(t);
    assert(ch[m] == tree.chain(t)[0]);
    if let Some(p) = b {
        assert(tree.chain(t).contains(p)) by {
            assert(tree.chain(t)[1] == p);
        }
        assert(ch[m + 1] == tree.chain(t)[1]);
        assert(ch.contains(p));
        tree.lemma_chain(p);
    }
    law_exit_path_innermost_first(tree, curr, b);
    lemma_above_chain(tree, Some(curr), tree.depth_opt(b));
    let exits = tree.exit_path(Some(curr), b);
    assert(exits.last() == ch[m]);
    if let Some(p) = b {
        assert(tree.chain(t)[1] == p);
        assert(tree.chain(t).contains(p));
        law_entry_path_outermost_first(tree, t, b);
    } else {
        law_entry_path_outermost_first(tree, t, b);
    }
    assert(tree.entry_path(t, b) =~= seq![t]);
}

/// Law: a transition from `s` to one of its ancestors `t` is local to `t`: it takes place
/// inside `t`, which is neither exited nor entered, while `s` and everything below it down to
/// the active state are exited; then only the initial transition of `t` runs.
pub proof fn law_transition_to_ancestor(tree: StateTree, curr: State, s: State, t: State)
    requires
        tree.wf(),
        tree.has_state(curr),
        tree.chain(curr).contains(s),
        tree.chain(s).contains(t),
        s != t,
    ensures
        tree.boundary(Some(s), t) == Some(t),
        tree.entry_path(t, Some(t)) == Seq::<State>::empty(),
        tree.exit_path(Some(curr), Some(t)).contains(s),
        !tree.exit_path(Some(curr), Some(t)).contains(t),
{
    tree.lemma_on_chain(curr, s);
    tree.lemma_on_chain(s, t);
    lemma_chain_suffix(tree, s, t);
    tree.lemma_chain(s);
    tree.lemma_chain(t);
    let xs = tree.chain(s);
    let ys = tree.chain(t);
    let m = tree.depth_of(s) - tree.depth_of(t);
    assert(xs[m] == ys[0]);
    assert(ys.contains(xs[m]));
    let k = lemma_first_common_index(xs, ys);
    assert(first_common(xs, ys) is Some) by {
        if first_common(xs, ys) is None {
            assert(!ys.contains(xs[m]));
        }
    }
    assert(k == m) by {
        if k > m {
            assert(!ys.contains(xs[m]));
        }
        if k < m {
            tree.lemma_on_chain(t, xs[k]);
            assert(tree.depth_of(xs[k]) == tree.depth_of(s) - k);
        }
    }
    lemma_above_chain(tree, Some(t), tree.depth_of(t));
    assert(tree.chain(t).take(0).reverse() =~= Seq::<State>::empty());
    tree.lemma_chain(curr);
    lemma_chain_suffix(tree, curr, s);
    let ch = tree.chain(curr);
    let i = tree.depth_of(curr) - tree.depth_of(s);
    assert(ch[i] == xs[0]);
    assert(ch[i + m] == xs[m]);
    assert(ch.contains(t));
    law_exit_path_innermost_first(tree, curr, Some(t));
    lemma_above_chain(tree, Some(curr), tree.depth_of(t));
    assert(tree.exit_path(Some(curr), Some(t))[i] == s);
}

/// Law: a transition from `s` to a state `t` nested inside it takes place inside `s`, which is
/// not exited: the states below `s` down to the active state are exited, and the states from
/// the child of `s` down to `t` are entered, ending with `t`.
pub proof fn law_transition_to_descendant(tree: StateTree, curr: State, s: State, t: State)
    requires
        tree.wf(),
        tree.has_state(curr),
        tree.chain(curr).contains(s),
        tree.is_proper_descendant(t, s),
    ensures
        tree.boundary(Some(s), t) == Some(s),
        !tree.exit_path(Some(curr), Some(s)).contains(s),
        tree.entry_path(t, Some(s)).last() == t,
        tree.parent_of(tree.entry_path(t, Some(s))[0]) == Some(s),
{
    tree.lemma_on_chain(curr, s);
    tree.lemma_chain(s);
    assert(tree.chain(s)[0] == s);
    assert(first_common(tree.chain(s), tree.chain(t)) == Some(s));
    law_exit_path_innermost_first(tree, curr, Some(s));
    law_entry_path_outermost_first(tree, t, Some(s));
}

/// No call of `calls` is the overall initial transition.
pub open spec fn without_top_initial(calls: Seq<Callback>) -> bool {
    forall|i: int| 0 <= i < calls.len() ==> #[trigger] calls[i] != Callback::TopInitial
}

proof fn lemma_concat_without_top_initial(a: Seq<Callback>, b: Seq<Callback>)
    requires
        without_top_initial(a),
        without_top_initial(b),
    ensures
        without_top_initial(a + b),
{
    assert forall|i: int| 0 <= i < (a + b).len() implies #[trigger] (a + b)[i]
        != Callback::TopInitial by {
        if i >= a.len() {
            assert((a + b)[i] == b[i - a.len()]);
        }
    }
}

/// The calls of one step of a transition are exits, entries and an initial transition of a
/// state only.
proof fn lemma_step_calls_without_top_initial(
    tree: StateTree,
    curr: Option<State>,
    source: Option<State>,
    target: State,
)
    ensures
        without_top_initial(step_calls(tree, curr, source, target)),
{
    let b = tree.boundary(source, target);
    let exits = tree.exit_path(curr, b).map_values(|s: State| Callback::Exit(s));
    let entries = tree.entry_path(target, b).map_values(|s: State| Callback::Entry(s));
    assert(without_top_initial(exits));
    assert(without_top_initial(entries));
    assert(without_top_initial(seq![Callback::Initial(target)]));
    lemma_concat_without_top_initial(exits, entries);
    lemma_concat_without_top_initial(exits + entries, seq![Callback::Initial(target)]);
}

/// The calls of a transition are exits, entries and initial transitions of states only.
pub proof fn lemma_descend_without_top_initial<Sm: StateDef>(
    tree: StateTree,
    ctx: Sm,
    curr: Option<State>,
    source: Option<State>,
    target: State,
)
    ensures
        without_top_initial(descend(tree, ctx, curr, source, target).2),
    decreases MAX_NEST_DEPTH - tree.depth_of(target),
{
    let b = tree.boundary(source, target);
    let entered = super::runtime::enter_all(
        super::runtime::exit_all(ctx, tree.exit_path(curr, b)),
        tree.entry_path(target, b),
    );
    let settled = entered.after_initial(target);
    let calls = step_calls(tree, curr, source, target);
    lemma_step_calls_without_top_initial(tree, curr, source, target);
    if let Some(n) = entered.initial_of(target) {
        if nested_step(tree, n, target) {
            lemma_descend_without_top_initial(tree, settled, Some(target), Some(target), n);
            lemma_concat_without_top_initial(
                calls,
                descend(tree, settled, Some(target), Some(target), n).2,
            );
        }
    }
}

/// The calls of a dispatch along `xs` are handlers, exits, entries and initial transitions of
/// states only.
pub proof fn lemma_dispatch_along_without_top_initial<Sm: StateDef>(
    tree: StateTree,
    ctx: Sm,
    curr: Option<State>,
    xs: Seq<State>,
    event: &Sm::Event,
)
    ensures
        without_top_initial(dispatch_along(tree, ctx, curr, xs, event).2),
    decreases xs.len(),
{
    if xs.len() > 0 {
        let s = xs[0];
        let handled = ctx.after_handler(s, event);
        let call = seq![Callback::Handler(s)];
        assert(without_top_initial(call));
        match ctx.action_of(s, event) {
            super::defs::Action::Handled => {},
            super::defs::Action::Transition(t) => {
                if tree.has_state(t) {
                    lemma_descend_without_top_initial(tree, handled, curr, Some(s), t);
                } else {
                    assert(without_top_initial(Seq::<Callback>::empty()));
                }
                lemma_concat_without_top_initial(
                    call,
                    transition_spec(tree, handled, curr, Some(s), t).2,
                );
            },
            super::defs::Action::Unhandled => {
                lemma_dispatch_along_without_top_initial(
                    tree,
                    handled,
                    curr,
                    xs.drop_first(),
                    event,
                );
                lemma_concat_without_top_initial(
                    call,
                    dispatch_along(tree, handled, curr, xs.drop_first(), event).2,
                );
            },
        }
    }
}

/// A transition never refuses an event: its only errors are refused states.
pub proof fn lemma_descend_not_unhandled<Sm: StateDef>(
    tree: StateTree,
    ctx: Sm,
    curr: Option<State>,
    source: Option<State>,
    target: State,
)
    ensures
        descend(tree, ctx, curr, source, target).3 != Err::<(), HsmError>(
            HsmError::UnhandledEvent,
        ),
    decreases MAX_NEST_DEPTH - tree.depth_of(target),
{
    let b = tree.boundary(source, target);
    let entered = super::runtime::enter_all(
        super::runtime::exit_all(ctx, tree.exit_path(curr, b)),
        tree.entry_path(target, b),
    );
    let settled = entered.after_initial(target);
    if let Some(n) = entered.initial_of(target) {
        if nested_step(tree, n, target) {
            lemma_descend_not_unhandled(tree, settled, Some(target), Some(target), n);
        }
    }
}

/// An event refused along `xs` was offered to every handler of `xs`, in order, and nothing
/// else ran.
pub proof fn lemma_refused_along<Sm: StateDef>(
    tree: StateTree,
    ctx: Sm,
    curr: Option<State>,
    xs: Seq<State>,
    event: &Sm::Event,
)
    ensures
        dispatch_along(tree, ctx, curr, xs, event).3 == Err::<(), HsmError>(
            HsmError::UnhandledEvent,
        ) ==> {
            &&& dispatch_along(tree, ctx, curr, xs, event).1 == curr
            &&& dispatch_along(tree, ctx, curr, xs, event).2 == handler_calls(xs)
        },
    decreases xs.len(),
{
    if xs.len() == 0 {
        assert(handler_calls(xs) =~= Seq::<Callback>::empty());
    } else {
        let s = xs[0];
        let handled = ctx.after_handler(s, event);
        match ctx.action_of(s, event) {
            super::defs::Action::Handled => {},
            super::defs::Action::Transition(t) => {
                if tree.has_state(t) {
                    lemma_descend_not_unhandled(tree, handled, curr, Some(s), t);
                }
            },
            super::defs::Action::Unhandled => {
                lemma_refused_along(tree, handled, curr, xs.drop_first(), event);
                assert(handler_calls(xs) =~= seq![Callback::Handler(s)] + handler_calls(
                    xs.drop_first(),
                ));
            },
        }
    }
}

/// Law: an event that no state handles changes no state. It was offered to the active state
/// and each of its ancestors, innermost first, and no exit, entry or initial transition ran.
pub proof fn law_refused_event_changes_no_state<Sm: StateDef>(
    tree: StateTree,
    ctx: Sm,
    curr: Option<State>,
    event: &Sm::Event,
)
    requires
        dispatch_spec(tree, ctx, curr, event).3 == Err::<(), HsmError>(HsmError::UnhandledEvent),
    ensures
        dispatch_spec(tree, ctx, curr, event).1 == curr,
        dispatch_spec(tree, ctx, curr, event).2 == handler_calls(tree.chain_opt(curr)),
{
    lemma_refused_along(tree, ctx, curr, tree.chain_opt(curr), event);
}

/// Every call of `calls` is an exit, an entry or the initial transition of a state.
pub open spec fn moves_only(calls: Seq<Callback>) -> bool {
    forall|i: int|
        0 <= i < calls.len() ==> (#[trigger] calls[i] is Exit || calls[i] is Entry
            || calls[i] is Initial)
}

proof fn lemma_concat_moves_only(a: Seq<Callback>, b: Seq<Callback>)
    requires
        moves_only(a),
        moves_only(b),
    ensures
        moves_only(a + b),
{
    assert forall|i: int| 0 <= i < (a + b).len() implies (#[trigger] (a + b)[i] is Exit || (a
        + b)[i] is Entry || (a + b)[i] is Initial) by {
        if i >= a.len() {
            assert((a + b)[i] == b[i - a.len()]);
        } else {
            assert((a + b)[i] == a[i]);
        }
    }
}

/// The calls of a transition are exits, entries and initial transitions of states only.
pub proof fn lemma_descend_moves_only<Sm: StateDef>(
    tree: StateTree,
    ctx: Sm,
    curr: Option<State>,
    source: Option<State>,
    target: State,
)
    ensures
        moves_only(descend(tree, ctx, curr, source, target).2),
    decreases MAX_NEST_DEPTH - tree.depth_of(target),
{
    let b = tree.boundary(source, target);
    let entered = super::runtime::enter_all(
        super::runtime::exit_all(ctx, tree.exit_path(curr, b)),
        tree.entry_path(target, b),
    );
    let settled = entered.after_initial(target);
    let calls = step_calls(tree, curr, source, target);
    let exits = tree.exit_path(curr, b).map_values(|s: State| Callback::Exit(s));
    let entries = tree.entry_path(target, b).map_values(|s: State| Callback::Entry(s));
    assert(moves_only(exits));
    assert(moves_only(entries));
    assert(moves_only(seq![Callback::Initial(target)]));
    lemma_concat_moves_only(exits, entries);
    lemma_concat_moves_only(exits + entries, seq![Callback::Initial(target)]);
    if let Some(n) = entered.initial_of(target) {
        if nested_step(tree, n, target) {
            lemma_descend_moves_only(tree, settled, Some(target), Some(target), n);
            lemma_concat_moves_only(
                calls,
                descend(tree, settled, Some(target), Some(target), n).2,
            );
        }
    }
}

/// The calls of a dispatch along `xs` are the handlers of a leading part of `xs`, in order,
/// followed by exits, entries and initial transitions only.
pub proof fn lemma_dispatch_along_split<Sm: StateDef>(
    tree: StateTree,
    ctx: Sm,
    curr: Option<State>,
    xs: Seq<State>,
    event: &Sm::Event,
) -> (k: int)
    ensures
        0 <= k <= xs.len(),
        xs.len() > 0 ==> k >= 1,
        dispatch_along(tree, ctx, curr, xs, event).2.len() >= k,
        dispatch_along(tree, ctx, curr, xs, event).2.take(k) == handler_calls(xs.take(k)),
        moves_only(dispatch_along(tree, ctx, curr, xs, event).2.skip(k)),
    decreases xs.len(),
{
    let o = dispatch_along(tree, ctx, curr, xs, event);
    if xs.len() == 0 {
        assert(o.2.skip(0) =~= Seq::<Callback>::empty());
        assert(handler_calls(xs.take(0)) =~= Seq::<Callback>::empty());
        0
    } else {
        let s = xs[0];
        let handled = ctx.after_handler(s, event);
        let call = seq![Callback::Handler(s)];
        assert(handler_calls(xs.take(1)) =~= call);
        match ctx.action_of(s, event) {
            super::defs::Action::Handled => {
                assert(o.2.take(1) =~= call);
                assert(o.2.skip(1) =~= Seq::<Callback>::empty());
                1
            },
            super::defs::Action::Transition(t) => {
                let rest = transition_spec(tree, handled, curr, Some(s), t).2;
                if tree.has_state(t) {
                    lemma_descend_moves_only(tree, handled, curr, Some(s), t);
                } else {
                    assert(moves_only(Seq::<Callback>::empty()));
                }
                assert(o.2.take(1) =~= call);
                assert(o.2.skip(1) =~= rest);
                1
            },
            super::defs::Action::Unhandled => {
                let tail = xs.drop_first();
                let j = lemma_dispatch_along_split(tree, handled, curr, tail, event);
                let rest = dispatch_along(tree, handled, curr, tail, event).2;
                assert(o.2.take(j + 1) =~= call + rest.take(j));
                assert(handler_calls(xs.take(j + 1)) =~= call + handler_calls(tail.take(j)));
                assert(o.2.skip(j + 1) =~= rest.skip(j));
                j + 1
            },
        }
    }
}

/// Law: a dispatch calls the handlers of the active state and of its ancestors, innermost
/// first, up to the one that took the event, and then only what the transition it asked for
/// runs: exits, entries and initial transitions. At least the active state's handler is
/// called when a state is active.
pub proof fn law_dispatch_handlers_then_transition<Sm: StateDef>(
    tree: StateTree,
    ctx: Sm,
    curr: Option<State>,
    event: &Sm::Event,
)
    ensures
        exists|k: int|
            {
                &&& 0 <= k <= tree.chain_opt(curr).len()
                &&& tree.chain_opt(curr).len() > 0 ==> k >= 1
                &&& dispatch_spec(tree, ctx, curr, event).2.len() >= k
                &&& #[trigger] dispatch_spec(tree, ctx, curr, event).2.take(k) == handler_calls(
                    tree.chain_opt(curr).take(k),
                )
                &&& moves_only(dispatch_spec(tree, ctx, curr, event).2.skip(k))
            },
{
    let k = lemma_dispatch_along_split(tree, ctx, curr, tree.chain_opt(curr), event);
    assert(dispatch_spec(tree, ctx, curr, event).2.take(k) == handler_calls(
        tree.chain_opt(curr).take(k),
    ));
}

/// Law: the overall initial transition runs once per state machine. The initial transition
/// calls it first and never again, and dispatching an event never calls it at all.
pub proof fn law_initial_runs_once<Sm: StateDef>(
    tree: StateTree,
    ctx: Sm,
    curr: Option<State>,
    event: &Sm::Event,
)
    ensures
        initial_spec(tree, ctx, curr).2[0] == Callback::TopInitial,
        without_top_initial(initial_spec(tree, ctx, curr).2.drop_first()),
        without_top_initial(dispatch_spec(tree, ctx, curr, event).2),
{
    let t = ctx.top_initial_target();
    let moved = transition_spec(tree, ctx.after_top_initial(), curr, None, t);
    if tree.has_state(t) {
        lemma_descend_without_top_initial(tree, ctx.after_top_initial(), curr, None, t);
    } else {
        assert(without_top_initial(Seq::<Callback>::empty()));
    }
    assert((seq![Callback::TopInitial] + moved.2).drop_first() =~= moved.2);
    lemma_dispatch_along_without_top_initial(tree, ctx, curr, tree.chain_opt(curr), event);
}

/// A state nested in a state nested in `a` is nested in `a`.
pub proof fn lemma_chain_transitive(tree: StateTree, x: State, y: State, a: State)
    requires
        tree.wf(),
        tree.has_state(x),
        tree.chain(x).contains(y),
        tree.chain(y).contains(a),
    ensures
        tree.chain(x).contains(a),
{
    tree.lemma_on_chain(x, y);
    lemma_chain_suffix(tree, x, y);
    let i = tree.depth_of(x) - tree.depth_of(y);
    tree.lemma_chain(x);
    tree.lemma_on_chain(x, y);
    tree.lemma_chain(y);
    let j = choose|j: int| 0 <= j < tree.chain(y).len() && tree.chain(y)[j] == a;
    assert(tree.chain(x).skip(i)[j] == tree.chain(x)[i + j]);
    assert(tree.chain(x)[i + j] == tree.chain(y)[j]);
}

/// A transition that succeeds leaves its target active, or a state nested in its target.
pub proof fn lemma_descend_lands_inside<Sm: StateDef>(
    tree: StateTree,
    ctx: Sm,
    curr: Option<State>,
    source: Option<State>,
    target: State,
)
    requires
        tree.wf(),
        tree.has_state(target),
        descend(tree, ctx, curr, source, target).3 is Ok,
    ensures
        descend(tree, ctx, curr, source, target).1 matches Some(x) && tree.has_state(x)
            && tree.chain(x).contains(target),
    decreases MAX_NEST_DEPTH - tree.depth_of(target),
{
    let b = tree.boundary(source, target);
    let entered = super::runtime::enter_all(
        super::runtime::exit_all(ctx, tree.exit_path(curr, b)),
        tree.entry_path(target, b),
    );
    let settled = entered.after_initial(target);
    match entered.initial_of(target) {
        None => {
            tree.lemma_chain(target);
            assert(tree.chain(target)[0] == target);
        },
        Some(n) => {
            if nested_step(tree, n, target) {
                lemma_descend_lands_inside(tree, settled, Some(target), Some(target), n);
                let x = descend(tree, settled, Some(target), Some(target), n).1->Some_0;
                lemma_chain_transitive(tree, x, n, target);
            }
        },
    }
}

/// Law: a transition that succeeds leaves its target active, or a state nested in its target
/// (reached by the target's initial transitions).
pub proof fn law_transition_lands_inside_target<Sm: StateDef>(
    tree: StateTree,
    ctx: Sm,
    curr: Option<State>,
    source: Option<State>,
    target: State,
)
    requires
        tree.wf(),
        transition_spec(tree, ctx, curr, source, target).3 is Ok,
    ensures
        transition_spec(tree, ctx, curr, source, target).1 matches Some(x) && tree.has_state(x)
            && tree.chain(x).contains(target),
{
    lemma_descend_lands_inside(tree, ctx, curr, source, target);
}

} // verus!
