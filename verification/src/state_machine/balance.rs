use vstd::prelude::*;

use super::defs::{Callback, HsmError, State, StateDef, MAX_NEST_DEPTH};
use super::laws::{
    lemma_above_chain, lemma_chain_suffix, lemma_chain_transitive,
    law_boundary_is_lowest_common_ancestor,
};
use super::runtime::{descend, dispatch_along, dispatch_spec, nested_step, step_calls, transition_spec};
use super::tree::StateTree;

verus! {

/// The active states after `calls` have run on the active states `active`: an exit leaves a
/// state, an entry adds one, any other call changes nothing. `None` as soon as an exit names
/// a state that is not active, or an entry one that is.
pub open spec fn replay(active: Set<State>, calls: Seq<Callback>) -> Option<Set<State>>
    decreases calls.len(),
{
    if calls.len() == 0 {
        Some(active)
    } else {
        match replay(active, calls.drop_last()) {
            None => None,
            Some(a) => match calls.last() {
                Callback::Exit(x) => if a.contains(x) {
                    Some(a.remove(x))
                } else {
                    None
                },
                Callback::Entry(x) => if a.contains(x) {
                    None
                } else {
                    Some(a.insert(x))
                },
                _ => Some(a),
            },
        }
    }
}

/// Replaying two lists of calls is replaying the first, then the second.
pub proof fn lemma_replay_concat(a: Set<State>, xs: Seq<Callback>, ys: Seq<Callback>)
    ensures
        replay(a, xs + ys) == match replay(a, xs) {
            Some(b) => replay(b, ys),
            None => None::<Set<State>>,
        },
    decreases ys.len(),
{
    if ys.len() == 0 {
        assert(xs + ys =~= xs);
    } else {
        lemma_replay_concat(a, xs, ys.drop_last());
        assert((xs + ys).drop_last() =~= xs + ys.drop_last());
        assert((xs + ys).last() == ys.last());
    }
}

/// Exiting distinct active states leaves the others active.
pub proof fn lemma_replay_exits(a: Set<State>, xs: Seq<State>)
    requires
        xs.no_duplicates(),
        forall|i: int| 0 <= i < xs.len() ==> a.contains(#[trigger] xs[i]),
    ensures
        replay(a, xs.map_values(|s: State| Callback::Exit(s))) == Some(
            a.difference(xs.to_set()),
        ),
    decreases xs.len(),
{
    let m = xs.map_values(|s: State| Callback::Exit(s));
    if xs.len() == 0 {
        assert(a.difference(xs.to_set()) =~= a);
    } else {
        let init = xs.drop_last();
        let x = xs.last();
        assert(init.no_duplicates()) by {
            assert forall|i: int, j: int|
                0 <= i < init.len() && 0 <= j < init.len() && i != j implies init[i]
                != init[j] by {
                assert(init[i] == xs[i] && init[j] == xs[j]);
            }
        }
        assert forall|i: int| 0 <= i < init.len() implies a.contains(#[trigger] init[i]) by {
            assert(init[i] == xs[i]);
        }
        lemma_replay_exits(a, init);
        assert(m.drop_last() =~= init.map_values(|s: State| Callback::Exit(s)));
        assert(a.contains(xs[xs.len() - 1]));
        if init.contains(x) {
            let k = choose|k: int| 0 <= k < init.len() && init[k] == x;
            assert(xs[k] == xs[xs.len() - 1]);
        }
        assert forall|y: State| xs.contains(y) <==> (init.contains(y) || y == x) by {
            if xs.contains(y) {
                let k = choose|k: int| 0 <= k < xs.len() && xs[k] == y;
                if k < init.len() {
                    assert(init[k] == y);
                }
            }
            if init.contains(y) {
                let k = choose|k: int| 0 <= k < init.len() && init[k] == y;
                assert(xs[k] == y);
            }
            if y == x {
                assert(xs[xs.len() - 1] == y);
            }
        }
        assert(a.difference(init.to_set()).remove(x) =~= a.difference(xs.to_set()));
    }
}

/// Entering distinct states that are not active adds them to the active states.
pub proof fn lemma_replay_entries(a: Set<State>, xs: Seq<State>)
    requires
        xs.no_duplicates(),
        forall|i: int| 0 <= i < xs.len() ==> !a.contains(#[trigger] xs[i]),
    ensures
        replay(a, xs.map_values(|s: State| Callback::Entry(s))) == Some(a.union(xs.to_set())),
    decreases xs.len(),
{
    let m = xs.map_values(|s: State| Callback::Entry(s));
    if xs.len() == 0 {
        assert(a.union(xs.to_set()) =~= a);
    } else {
        let init = xs.drop_last();
        let x = xs.last();
        assert(init.no_duplicates()) by {
            assert forall|i: int, j: int|
                0 <= i < init.len() && 0 <= j < init.len() && i != j implies init[i]
                != init[j] by {
                assert(init[i] == xs[i] && init[j] == xs[j]);
            }
        }
        assert forall|i: int| 0 <= i < init.len() implies !a.contains(#[trigger] init[i]) by {
            assert(init[i] == xs[i]);
        }
        lemma_replay_entries(a, init);
        assert(m.drop_last() =~= init.map_values(|s: State| Callback::Entry(s)));
        assert(!a.contains(xs[xs.len() - 1]));
        if init.contains(x) {
            let k = choose|k: int| 0 <= k < init.len() && init[k] == x;
            assert(xs[k] == xs[xs.len() - 1]);
        }
        assert forall|y: State| xs.contains(y) <==> (init.contains(y) || y == x) by {
            if xs.contains(y) {
                let k = choose|k: int| 0 <= k < xs.len() && xs[k] == y;
                if k < init.len() {
                    assert(init[k] == y);
                }
            }
            if init.contains(y) {
                let k = choose|k: int| 0 <= k < init.len() && init[k] == y;
                assert(xs[k] == y);
            }
            if y == x {
                assert(xs[xs.len() - 1] == y);
            }
        }
        assert(a.union(init.to_set()).insert(x) =~= a.union(xs.to_set()));
    }
}

/// A list without repeats split in two: each part is without repeats, they share no state,
/// and what is left of the whole without the first part is the second.
proof fn lemma_split(whole: Seq<State>, p: Seq<State>, q: Seq<State>)
    requires
        whole == p + q,
        whole.no_duplicates(),
    ensures
        p.no_duplicates(),
        forall|i: int| 0 <= i < p.len() ==> !q.to_set().contains(#[trigger] p[i]),
        forall|i: int| 0 <= i < p.len() ==> whole.to_set().contains(#[trigger] p[i]),
        whole.to_set().difference(p.to_set()) == q.to_set(),
        q.to_set().union(p.to_set()) == whole.to_set(),
{
    assert forall|i: int, j: int| 0 <= i < p.len() && 0 <= j < p.len() && i != j implies p[i]
        != p[j] by {
        assert(p[i] == whole[i] && p[j] == whole[j]);
    }
    assert forall|i: int| 0 <= i < p.len() implies !q.to_set().contains(#[trigger] p[i]) by {
        if q.contains(p[i]) {
            let k = choose|k: int| 0 <= k < q.len() && q[k] == p[i];
            assert(whole[p.len() + k] == q[k]);
            assert(whole[i] == p[i]);
        }
    }
    assert forall|i: int| 0 <= i < p.len() implies whole.to_set().contains(#[trigger] p[i]) by {
        assert(whole[i] == p[i]);
    }
    assert forall|y: State| whole.contains(y) <==> (p.contains(y) || q.contains(y)) by {
        if whole.contains(y) {
            let k = choose|k: int| 0 <= k < whole.len() && whole[k] == y;
            if k < p.len() {
                assert(p[k] == y);
            } else {
                assert(q[k - p.len()] == y);
            }
        }
        if p.contains(y) {
            let k = choose|k: int| 0 <= k < p.len() && p[k] == y;
            assert(whole[k] == y);
        }
        if q.contains(y) {
            let k = choose|k: int| 0 <= k < q.len() && q[k] == y;
            assert(whole[p.len() + k] == y);
        }
    }
    assert forall|y: State| p.contains(y) implies !q.contains(y) by {
        let k = choose|k: int| 0 <= k < p.len() && p[k] == y;
        assert(!q.to_set().contains(p[k]));
    }
    assert(whole.to_set().difference(p.to_set()) =~= q.to_set());
    assert(q.to_set().union(p.to_set()) =~= whole.to_set());
}

/// No state occurs twice on a chain.
pub proof fn lemma_chain_no_duplicates(tree: StateTree, c: Option<State>)
    requires
        tree.wf(),
        c matches Some(x) ==> tree.has_state(x),
    ensures
        tree.chain_opt(c).no_duplicates(),
{
    if let Some(x) = c {
        tree.lemma_chain(x);
        let ch = tree.chain(x);
        assert forall|i: int, j: int| 0 <= i < ch.len() && 0 <= j < ch.len() && i != j implies ch[i]
            != ch[j] by {
            assert(tree.depth_of(ch[i]) == tree.depth_of(x) - i);
            assert(tree.depth_of(ch[j]) == tree.depth_of(x) - j);
        }
    }
}

/// A chain through `b` is the part of it nested deeper than `b`, followed by the chain of
/// `b`.
pub proof fn lemma_chain_split(tree: StateTree, c: Option<State>, b: Option<State>)
    requires
        tree.wf(),
        c matches Some(x) ==> tree.has_state(x),
        b matches Some(y) ==> tree.chain_opt(c).contains(y),
    ensures
        tree.chain_opt(c) == tree.above(tree.chain_opt(c), tree.depth_opt(b)) + tree.chain_opt(b),
{
    let d = tree.depth_opt(b);
    lemma_above_chain(tree, c, d);
    match c {
        None => {
            if let Some(y) = b {
                assert(!tree.chain_opt(c).contains(y));
            }
            assert(tree.chain_opt(c) =~= tree.chain_opt(c).take(0) + tree.chain_opt(b));
        },
        Some(x) => {
            tree.lemma_chain(x);
            match b {
                Some(y) => {
                    tree.lemma_on_chain(x, y);
                    lemma_chain_suffix(tree, x, y);
                },
                None => {
                    assert(tree.chain(x).take(tree.depth_of(x) as int) =~= tree.chain(x));
                    assert(tree.chain(x) =~= tree.chain(x) + Seq::<State>::empty());
                },
            }
        },
    }
}

/// The boundary of a transition from a state on the active chain lies on the active chain
/// and on the target's chain; a transition from no state has no boundary.
pub proof fn lemma_boundary_on_chains(
    tree: StateTree,
    curr: Option<State>,
    source: Option<State>,
    target: State,
)
    requires
        tree.wf(),
        tree.has_state(target),
        curr matches Some(c) ==> tree.has_state(c),
        source matches Some(s) ==> tree.chain_opt(curr).contains(s),
        source is None ==> curr is None,
    ensures
        tree.boundary(source, target) matches Some(x) ==> tree.chain_opt(curr).contains(x)
            && tree.chain(target).contains(x),
{
    match source {
        None => {},
        Some(s) => {
            let c = curr->Some_0;
            tree.lemma_on_chain(c, s);
            if s == target {
                tree.lemma_chain_step(target);
                if let Some(p) = tree.parent_of(target) {
                    tree.lemma_chain(p);
                    assert(tree.chain(target)[1] == p);
                    lemma_chain_transitive(tree, c, target, p);
                }
            } else {
                law_boundary_is_lowest_common_ancestor(tree, s, target);
                if let Some(x) = tree.boundary(source, target) {
                    lemma_chain_transitive(tree, c, s, x);
                }
            }
        },
    }
}

/// One step of a transition from a state on the active chain (or from no state, with none
/// active) leaves exactly the target's chain active.
pub proof fn lemma_step_replay(
    tree: StateTree,
    curr: Option<State>,
    source: Option<State>,
    target: State,
)
    requires
        tree.wf(),
        tree.has_state(target),
        curr matches Some(c) ==> tree.has_state(c),
        source matches Some(s) ==> tree.chain_opt(curr).contains(s),
        source is None ==> curr is None,
    ensures
        replay(tree.chain_opt(curr).to_set(), step_calls(tree, curr, source, target)) == Some(
            tree.chain(target).to_set(),
        ),
{
    let b = tree.boundary(source, target);
    let d = tree.depth_opt(b);
    lemma_boundary_on_chains(tree, curr, source, target);
    let whole = tree.chain_opt(curr);
    let exits = tree.exit_path(curr, b);
    let rest = tree.chain_opt(b);
    lemma_chain_split(tree, curr, b);
    lemma_chain_no_duplicates(tree, curr);
    lemma_split(whole, exits, rest);
    lemma_replay_exits(whole.to_set(), exits);
    let tchain = tree.chain(target);
    let pre = tree.above(tchain, d);
    lemma_chain_split(tree, Some(target), b);
    lemma_chain_no_duplicates(tree, Some(target));
    lemma_split(tchain, pre, rest);
    let entries = pre.reverse();
    assert(entries == tree.entry_path(target, b));
    assert(entries.no_duplicates()) by {
        assert forall|i: int, j: int|
            0 <= i < entries.len() && 0 <= j < entries.len() && i != j implies entries[i]
            != entries[j] by {
            assert(entries[i] == pre[pre.len() - 1 - i]);
            assert(entries[j] == pre[pre.len() - 1 - j]);
        }
    }
    assert forall|i: int| 0 <= i < entries.len() implies !rest.to_set().contains(
        #[trigger] entries[i],
    ) by {
        assert(entries[i] == pre[pre.len() - 1 - i]);
    }
    assert forall|y: State| entries.contains(y) <==> pre.contains(y) by {
        if entries.contains(y) {
            let k = choose|k: int| 0 <= k < entries.len() && entries[k] == y;
            assert(pre[pre.len() - 1 - k] == y);
        }
        if pre.contains(y) {
            let k = choose|k: int| 0 <= k < pre.len() && pre[k] == y;
            assert(entries[pre.len() - 1 - k] == y);
        }
    }
    assert(entries.to_set() =~= pre.to_set());
    lemma_replay_entries(rest.to_set(), entries);
    let ex = exits.map_values(|s: State| Callback::Exit(s));
    let en = entries.map_values(|s: State| Callback::Entry(s));
    let init = seq![Callback::Initial(target)];
    lemma_replay_concat(whole.to_set(), ex, en);
    lemma_replay_concat(whole.to_set(), ex + en, init);
    assert(init.drop_last() =~= Seq::<Callback>::empty());
    assert(replay(tchain.to_set(), Seq::<Callback>::empty()) == Some(tchain.to_set()));
    assert(replay(tchain.to_set(), init) == Some(tchain.to_set()));
}

/// A transition that starts from a state on the active chain (or from no state, with none
/// active) replays to the chain of the state it leaves active.
pub proof fn lemma_descend_replay<Sm: StateDef>(
    tree: StateTree,
    ctx: Sm,
    curr: Option<State>,
    source: Option<State>,
    target: State,
)
    requires
        tree.wf(),
        tree.has_state(target),
        curr matches Some(c) ==> tree.has_state(c),
        source matches Some(s) ==> tree.chain_opt(curr).contains(s),
        source is None ==> curr is None,
    ensures
        replay(tree.chain_opt(curr).to_set(), descend(tree, ctx, curr, source, target).2)
            == Some(tree.chain_opt(descend(tree, ctx, curr, source, target).1).to_set()),
    decreases MAX_NEST_DEPTH - tree.depth_of(target),
{
    let b = tree.boundary(source, target);
    let entered = super::runtime::enter_all(
        super::runtime::exit_all(ctx, tree.exit_path(curr, b)),
        tree.entry_path(target, b),
    );
    let settled = entered.after_initial(target);
    let calls = step_calls(tree, curr, source, target);
    lemma_step_replay(tree, curr, source, target);
    if let Some(n) = entered.initial_of(target) {
        if nested_step(tree, n, target) {
            tree.lemma_chain(target);
            assert(tree.chain(target)[0] == target);
            lemma_descend_replay(tree, settled, Some(target), Some(target), n);
            lemma_replay_concat(
                tree.chain_opt(curr).to_set(),
                calls,
                descend(tree, settled, Some(target), Some(target), n).2,
            );
        }
    }
}

/// Law: a transition from the active state or one of its ancestors (or the initial one,
/// with no state active) exits only active states and enters only inactive ones, and its
/// exits and entries, run in order on the active chain, leave exactly the new active chain.
/// So each state is entered once more than it is exited if it becomes active, once less if
/// it stops being active, and as often otherwise.
pub proof fn law_transition_keeps_active_chain<Sm: StateDef>(
    tree: StateTree,
    ctx: Sm,
    curr: Option<State>,
    source: Option<State>,
    target: State,
)
    requires
        tree.wf(),
        curr matches Some(c) ==> tree.has_state(c),
        source matches Some(s) ==> tree.chain_opt(curr).contains(s),
        source is None ==> curr is None,
    ensures
        replay(
            tree.chain_opt(curr).to_set(),
            transition_spec(tree, ctx, curr, source, target).2,
        ) == Some(tree.chain_opt(transition_spec(tree, ctx, curr, source, target).1).to_set()),
{
    if tree.has_state(target) {
        lemma_descend_replay(tree, ctx, curr, source, target);
    } else {
        assert(transition_spec(tree, ctx, curr, source, target).3 == Err::<(), HsmError>(
            HsmError::UnknownState(target),
        ));
    }
}

/// A dispatch along states of the active chain replays to the chain of the state it leaves
/// active: handlers change no active state.
pub proof fn lemma_dispatch_along_replay<Sm: StateDef>(
    tree: StateTree,
    ctx: Sm,
    curr: Option<State>,
    xs: Seq<State>,
    event: &Sm::Event,
)
    requires
        tree.wf(),
        curr matches Some(c) ==> tree.has_state(c),
        forall|i: int| 0 <= i < xs.len() ==> tree.chain_opt(curr).contains(#[trigger] xs[i]),
    ensures
        replay(tree.chain_opt(curr).to_set(), dispatch_along(tree, ctx, curr, xs, event).2)
            == Some(tree.chain_opt(dispatch_along(tree, ctx, curr, xs, event).1).to_set()),
    decreases xs.len(),
{
    let a = tree.chain_opt(curr).to_set();
    if xs.len() > 0 {
        let s = xs[0];
        let handled = ctx.after_handler(s, event);
        let call = seq![Callback::Handler(s)];
        assert(call.drop_last() =~= Seq::<Callback>::empty());
        assert(replay(a, Seq::<Callback>::empty()) == Some(a));
        assert(replay(a, call) == Some(a));
        match ctx.action_of(s, event) {
            super::defs::Action::Handled => {},
            super::defs::Action::Transition(t) => {
                law_transition_keeps_active_chain(tree, handled, curr, Some(s), t);
                lemma_replay_concat(a, call, transition_spec(tree, handled, curr, Some(s), t).2);
            },
            super::defs::Action::Unhandled => {
                let tail = xs.drop_first();
                assert forall|i: int| 0 <= i < tail.len() implies tree.chain_opt(curr).contains(
                    #[trigger] tail[i],
                ) by {
                    assert(tail[i] == xs[i + 1]);
                }
                lemma_dispatch_along_replay(tree, handled, curr, tail, event);
                lemma_replay_concat(a, call, dispatch_along(tree, handled, curr, tail, event).2);
            },
        }
    }
}

/// Law: dispatching an event exits only active states and enters only inactive ones, and its
/// calls, run in order on the active chain, leave exactly the new active chain.
pub proof fn law_dispatch_keeps_active_chain<Sm: StateDef>(
    tree: StateTree,
    ctx: Sm,
    curr: Option<State>,
    event: &Sm::Event,
)
    requires
        tree.wf(),
        curr matches Some(c) ==> tree.has_state(c),
    ensures
        replay(tree.chain_opt(curr).to_set(), dispatch_spec(tree, ctx, curr, event).2) == Some(
            tree.chain_opt(dispatch_spec(tree, ctx, curr, event).1).to_set(),
        ),
{
    let ch = tree.chain_opt(curr);
    assert forall|i: int| 0 <= i < ch.len() implies ch.contains(#[trigger] ch[i]) by {}
    lemma_dispatch_along_replay(tree, ctx, curr, ch, event);
}

} // verus!
