use vstd::prelude::*;

use super::defs::{HsmError, ParentState, State, TreeError, MAX_NEST_DEPTH};
use crate::fixed_vec::FixedVec;

verus! {

/// The hierarchy of states of a state machine. Every state is added with its parent
/// (`Top` for a topmost state) and is named by its index: states are numbered `0, 1, 2, ...`
/// in the order in which they were added, so a parent always has a smaller index than its
/// children, and no state is nested deeper than [`MAX_NEST_DEPTH`].
pub struct StateTree {
    parents: Vec<Option<State>>,
    depths: Vec<usize>,
}

/// The deepest element of `xs` (listed leaf to root) that also lies in `ys`.
pub open spec fn first_common(xs: Seq<State>, ys: Seq<State>) -> Option<State>
    decreases xs.len(),
{
    if xs.len() == 0 {
        None
    } else if ys.contains(xs[0]) {
        Some(xs[0])
    } else {
        first_common(xs.drop_first(), ys)
    }
}

impl StateTree {
    #[verifier::type_invariant]
    pub closed spec fn wf(&self) -> bool {
        &&& self.parents@.len() == self.depths@.len()
        &&& forall|i: int|
            0 <= i < self.parents@.len() ==> #[trigger] Self::node_ok(self.parents@, self.depths@, i)
    }

    closed spec fn node_ok(parents: Seq<Option<State>>, depths: Seq<usize>, i: int) -> bool {
        &&& 1 <= depths[i] <= MAX_NEST_DEPTH
        &&& match parents[i] {
            Some(p) => p.id < i && depths[i] == depths[p.id as int] + 1,
            None => depths[i] == 1,
        }
    }

    /// The parent of each state, by index.
    pub closed spec fn parents_view(&self) -> Seq<Option<State>> {
        self.parents@
    }

    /// The depth of each state, by index: 1 for a topmost state.
    pub closed spec fn depths_view(&self) -> Seq<usize> {
        self.depths@
    }

    /// The number of states.
    pub open spec fn size(&self) -> nat {
        self.parents_view().len()
    }

    /// Whether `s` is a state of the tree.
    pub open spec fn has_state(&self, s: State) -> bool {
        s.id < self.size()
    }

    /// The parent of `s`, `None` for a topmost state.
    pub open spec fn parent_of(&self, s: State) -> Option<State> {
        self.parents_view()[s.id as int]
    }

    /// The depth of `s`: 1 for a topmost state, one more than its parent's otherwise.
    pub open spec fn depth_of(&self, s: State) -> nat {
        self.depths_view()[s.id as int] as nat
    }

    /// The depth of an optional state: 0 for no state.
    pub open spec fn depth_opt(&self, s: Option<State>) -> nat {
        match s {
            Some(x) => self.depth_of(x),
            None => 0,
        }
    }

    /// `s` followed by its ancestors, from `s` up to its topmost state.
    pub open spec fn chain(&self, s: State) -> Seq<State>
        decreases s.id,
    {
        if self.has_state(s) {
            match self.parent_of(s) {
                Some(p) => if p.id < s.id {
                    seq![s] + self.chain(p)
                } else {
                    seq![s]
                },
                None => seq![s],
            }
        } else {
            Seq::empty()
        }
    }

    /// The chain of an optional state: empty for no state.
    pub open spec fn chain_opt(&self, s: Option<State>) -> Seq<State> {
        match s {
            Some(x) => self.chain(x),
            None => Seq::empty(),
        }
    }

    /// The leading elements of `xs` that are nested deeper than depth `d`.
    pub open spec fn above(&self, xs: Seq<State>, d: nat) -> Seq<State>
        decreases xs.len(),
    {
        if xs.len() > 0 && self.depth_of(xs[0]) > d {
            seq![xs[0]] + self.above(xs.drop_first(), d)
        } else {
            Seq::empty()
        }
    }

    /// Whether `d` is nested, at any depth, inside `a` (and is not `a` itself).
    pub open spec fn is_proper_descendant(&self, d: State, a: State) -> bool {
        &&& self.has_state(d)
        &&& self.chain(d).contains(a)
        &&& d != a
    }

    /// The state inside which a transition from `source` to `target` takes place: neither
    /// it nor any of its ancestors is exited or entered. For a self-transition it is the
    /// parent of the target; otherwise it is the deepest state that contains (or is) both
    /// the source and the target, `None` when they have no common ancestor.
    pub open spec fn boundary(&self, source: Option<State>, target: State) -> Option<State> {
        if source == Some(target) {
            self.parent_of(target)
        } else {
            first_common(self.chain_opt(source), self.chain(target))
        }
    }

    /// The states exited, in order, when the active state is `curr` and the transition takes
    /// place inside `boundary`: `curr` and its ancestors that are nested deeper than `boundary`.
    pub open spec fn exit_path(&self, curr: Option<State>, boundary: Option<State>) -> Seq<
        State,
    > {
        self.above(self.chain_opt(curr), self.depth_opt(boundary))
    }

    /// The states entered, in order, on the way from `boundary` down to `target`: the
    /// ancestors of `target` nested deeper than `boundary` from the outermost in, then
    /// `target` itself (when it is nested deeper than `boundary`).
    pub open spec fn entry_path(&self, target: State, boundary: Option<State>) -> Seq<State> {
        self.above(self.chain(target), self.depth_opt(boundary)).reverse()
    }

    /// Creates a tree without states.
    pub fn new() -> (t: Self)
        ensures
            t.parents_view() == Seq::<Option<State>>::empty(),
            t.depths_view() == Seq::<usize>::empty(),
    {
        StateTree { parents: Vec::new(), depths: Vec::new() }
    }

    /// The number of states.
    pub fn len(&self) -> (n: usize)
        ensures
            n == self.size(),
    {
        self.parents.len()
    }

    /// Whether `s` is a state of the tree.
    pub fn contains(&self, s: State) -> (b: bool)
        ensures
            b == self.has_state(s),
    {
        s.id < self.parents.len()
    }

    /// The parent of `s`, `None` for a topmost state.
    pub fn parent(&self, s: State) -> (p: Option<State>)
        requires
            self.has_state(s),
        ensures
            p == self.parent_of(s),
            p matches Some(q) ==> self.has_state(q) && q.id < s.id && self.depth_of(s)
                == self.depth_of(q) + 1,
            p is None ==> self.depth_of(s) == 1,
    {
        proof {
            use_type_invariant(self);
            assert(Self::node_ok(self.parents@, self.depths@, s.id as int));
        }
        self.parents[s.id]
    }

    /// The depth of `s`: 1 for a topmost state.
    pub fn depth(&self, s: State) -> (d: usize)
        requires
            self.has_state(s),
        ensures
            d == self.depth_of(s),
            1 <= d <= MAX_NEST_DEPTH,
    {
        proof {
            use_type_invariant(self);
            assert(Self::node_ok(self.parents@, self.depths@, s.id as int));
        }
        self.depths[s.id]
    }

    /// Adds a state under `parent` and returns it. Fails, leaving the tree unchanged, when the
    /// parent is not a state of the tree or the new state would be nested deeper than
    /// [`MAX_NEST_DEPTH`].
    pub fn add<P: ParentState>(&mut self, parent: P) -> (r: Result<State, TreeError>)
        ensures
            parent.parent_spec() matches Some(p) && !old(self).has_state(p) ==> r == Err::<
                State,
                TreeError,
            >(TreeError::UnknownParent),
            parent.parent_spec() matches Some(p) && old(self).has_state(p) && old(self).depth_of(p)
                >= MAX_NEST_DEPTH ==> r == Err::<State, TreeError>(TreeError::NestTooDeep),
            parent.parent_spec() is None || (parent.parent_spec() matches Some(p) && old(
                self,
            ).has_state(p) && old(self).depth_of(p) < MAX_NEST_DEPTH) ==> r is Ok,
            r is Err ==> final(self).parents_view() == old(self).parents_view()
                && final(self).depths_view() == old(self).depths_view(),
            r matches Ok(s) ==> {
                &&& s.id == old(self).size()
                &&& final(self).parents_view() == old(self).parents_view().push(
                    parent.parent_spec(),
                )
                &&& final(self).depths_view() == old(self).depths_view().push(
                    (old(self).depth_opt(parent.parent_spec()) + 1) as usize,
                )
            },
    {
        proof {
            use_type_invariant(&*self);
        }
        let p = parent.parent();
        let depth: usize = match p {
            Some(q) => {
                if !self.contains(q) {
                    return Err(TreeError::UnknownParent);
                }
                let dq = self.depth(q);
                if dq >= MAX_NEST_DEPTH {
                    return Err(TreeError::NestTooDeep);
                }
                dq + 1
            },
            None => 1,
        };
        let id = self.parents.len();
        let mut taken = StateTree::new();
        std::mem::swap(&mut taken, self);
        proof {
            use_type_invariant(&taken);
        }
        let StateTree { mut parents, mut depths } = taken;
        let ghost old_parents = parents@;
        let ghost old_depths = depths@;
        parents.push(p);
        depths.push(depth);
        proof {
            assert forall|i: int| 0 <= i < parents@.len() implies #[trigger] Self::node_ok(
                parents@,
                depths@,
                i,
            ) by {
                if i < id {
                    assert(Self::node_ok(old_parents, old_depths, i));
                }
            }
        }
        *self = StateTree { parents, depths };
        Ok(State::new(id))
    }

    /// Every state on the chain of `s` is a state of the tree, one level shallower than the
    /// one before it: the chain is as long as `s` is deep.
    pub proof fn lemma_chain(&self, s: State)
        requires
            self.wf(),
            self.has_state(s),
        ensures
            1 <= self.depth_of(s) <= MAX_NEST_DEPTH,
            self.chain(s).len() == self.depth_of(s),
            self.chain(s)[0] == s,
            forall|k: int|
                0 <= k < self.chain(s).len() ==> self.has_state(#[trigger] self.chain(s)[k])
                    && self.depth_of(self.chain(s)[k]) == self.depth_of(s) - k,
        decreases s.id,
    {
        assert(Self::node_ok(self.parents@, self.depths@, s.id as int));
        match self.parent_of(s) {
            Some(p) => {
                self.lemma_chain(p);
                assert forall|k: int| 0 <= k < self.chain(s).len() implies self.has_state(
                    #[trigger] self.chain(s)[k],
                ) && self.depth_of(self.chain(s)[k]) == self.depth_of(s) - k by {
                    if k > 0 {
                        assert(self.chain(s)[k] == self.chain(p)[k - 1]);
                    }
                }
            },
            None => {},
        }
    }

    /// The chain of `s` is `s` followed by the chain of its parent.
    pub proof fn lemma_chain_step(&self, s: State)
        requires
            self.wf(),
            self.has_state(s),
        ensures
            self.parent_of(s) matches Some(p) ==> p.id < s.id && self.has_state(p)
                && self.depth_of(s) == self.depth_of(p) + 1,
            self.parent_of(s) is None ==> self.depth_of(s) == 1,
            self.chain(s) == seq![s] + self.chain_opt(self.parent_of(s)),
            self.chain(s).drop_first() == self.chain_opt(self.parent_of(s)),
            forall|x: State|
                #[trigger] self.chain(s).contains(x) <==> (x == s || self.chain_opt(
                    self.parent_of(s),
                ).contains(x)),
    {
        assert(Self::node_ok(self.parents@, self.depths@, s.id as int));
        let rest = self.chain_opt(self.parent_of(s));
        assert(self.chain(s) =~= seq![s] + rest);
        assert((seq![s] + rest).drop_first() =~= rest);
        assert forall|x: State|
            #[trigger] self.chain(s).contains(x) <==> (x == s || self.chain_opt(
                self.parent_of(s),
            ).contains(x)) by {
            if self.chain(s).contains(x) {
                let k = choose|k: int| 0 <= k < self.chain(s).len() && self.chain(s)[k] == x;
                if k > 0 {
                    assert(rest[k - 1] == x);
                }
            }
            if rest.contains(x) {
                let k = choose|k: int| 0 <= k < rest.len() && rest[k] == x;
                assert(self.chain(s)[k + 1] == x);
            }
            if x == s {
                assert(self.chain(s)[0] == x);
            }
        }
    }

    /// A state on the chain of `s` is no deeper than `s`, and only `s` itself is as deep.
    pub proof fn lemma_on_chain(&self, s: State, x: State)
        requires
            self.wf(),
            self.has_state(s),
            self.chain(s).contains(x),
        ensures
            self.has_state(x),
            self.depth_of(x) <= self.depth_of(s),
            self.depth_of(x) == self.depth_of(s) ==> x == s,
    {
        self.lemma_chain(s);
        let k = choose|k: int| 0 <= k < self.chain(s).len() && self.chain(s)[k] == x;
        assert(self.has_state(self.chain(s)[k]));
    }

    /// Whether `x` is `t` or one of its ancestors.
    fn on_chain(&self, x: State, t: State) -> (b: bool)
        requires
            self.has_state(t),
        ensures
            b == self.chain(t).contains(x),
    {
        proof {
            use_type_invariant(self);
        }
        let mut cur = Some(t);
        while cur.is_some()
            invariant
                self.wf(),
                cur matches Some(c) ==> self.has_state(c),
                self.chain(t).contains(x) == self.chain_opt(cur).contains(x),
            decreases
                match cur {
                    Some(c) => c.id + 1,
                    None => 0,
                },
        {
            let c = cur.unwrap();
            if c == x {
                proof {
                    self.lemma_chain(c);
                    assert(self.chain(c)[0] == x);
                }
                return true;
            }
            proof {
                self.lemma_chain_step(c);
            }
            cur = self.parent(c);
        }
        false
    }

    /// Whether `d` is nested, at any depth, inside `a`.
    pub fn is_nested_in(&self, d: State, a: State) -> (b: bool)
        ensures
            b == self.is_proper_descendant(d, a),
    {
        if !self.contains(d) || d == a {
            return false;
        }
        self.on_chain(a, d)
    }

    /// A state nested inside `a` is deeper than `a`, and no deeper than [`MAX_NEST_DEPTH`].
    pub proof fn lemma_nested_step(&self, d: State, a: State)
        requires
            self.wf(),
            self.has_state(a),
        ensures
            self.is_proper_descendant(d, a) ==> self.depth_of(a) < self.depth_of(d)
                <= MAX_NEST_DEPTH,
    {
        if self.is_proper_descendant(d, a) {
            self.lemma_on_chain(d, a);
            self.lemma_chain(d);
        }
    }

    /// What the runtime makes of the state that the initial transition of `from` named:
    /// nothing to follow for `None`, the named state when it is nested inside `from`, and
    /// otherwise the refusal [`HsmError::InvalidInitialTransition`].
    pub fn follow_initial(&self, from: State, next: Option<State>) -> (r: Result<
        Option<State>,
        HsmError,
    >)
        ensures
            match next {
                None => r == Ok::<Option<State>, HsmError>(None),
                Some(n) => if self.is_proper_descendant(n, from) {
                    r == Ok::<Option<State>, HsmError>(Some(n))
                } else {
                    r == Err::<Option<State>, HsmError>(
                        HsmError::InvalidInitialTransition { from, to: n },
                    )
                },
            },
    {
        match next {
            None => Ok(None),
            Some(n) => if self.is_nested_in(n, from) {
                Ok(Some(n))
            } else {
                Err(HsmError::InvalidInitialTransition { from, to: n })
            },
        }
    }

    /// The state inside which a transition from `source` to `target` takes place
    /// (see [`StateTree::boundary`]).
    pub fn boundary_of(&self, source: Option<State>, target: State) -> (b: Option<State>)
        requires
            self.has_state(target),
            source matches Some(s) ==> self.has_state(s),
        ensures
            b == self.boundary(source, target),
            b matches Some(x) ==> self.has_state(x),
    {
        proof {
            use_type_invariant(self);
        }
        if let Some(s) = source {
            if s == target {
                return self.parent(target);
            }
        }
        let mut cur = source;
        while cur.is_some()
            invariant
                self.wf(),
                self.has_state(target),
                source != Some(target),
                cur matches Some(c) ==> self.has_state(c),
                first_common(self.chain_opt(source), self.chain(target)) == first_common(
                    self.chain_opt(cur),
                    self.chain(target),
                ),
            decreases
                match cur {
                    Some(c) => c.id + 1,
                    None => 0,
                },
        {
            let c = cur.unwrap();
            proof {
                self.lemma_chain_step(c);
            }
            if self.on_chain(c, target) {
                return Some(c);
            }
            cur = self.parent(c);
        }
        None
    }

    /// Whether `s` is a state nested deeper than depth `d`.
    pub(crate) fn deeper_than(&self, s: Option<State>, d: usize) -> (b: bool)
        requires
            s matches Some(x) ==> self.has_state(x),
        ensures
            b == (s matches Some(x) && self.depth_of(x) > d),
    {
        match s {
            Some(x) => self.depth(x) > d,
            None => false,
        }
    }

    /// `above` of a chain, one step at a time: a state deeper than `d` is kept and its
    /// parent's chain follows; otherwise nothing is kept.
    pub proof fn lemma_above_step(&self, s: Option<State>, d: nat)
        requires
            self.wf(),
            s matches Some(x) ==> self.has_state(x),
        ensures
            match s {
                Some(x) => if self.depth_of(x) > d {
                    self.above(self.chain_opt(s), d) == seq![x] + self.above(
                        self.chain_opt(self.parent_of(x)),
                        d,
                    )
                } else {
                    self.above(self.chain_opt(s), d) == Seq::<State>::empty()
                },
                None => self.above(self.chain_opt(s), d) == Seq::<State>::empty(),
            },
    {
        if let Some(x) = s {
            self.lemma_chain_step(x);
        }
    }

    /// The ancestors of `target` (and `target` itself) nested deeper than `boundary`, from
    /// `target` upwards: the entry path in reverse.
    pub fn entry_path_of(&self, target: State, boundary: Option<State>) -> (path: FixedVec<
        State,
        MAX_NEST_DEPTH,
    >)
        requires
            self.has_state(target),
            boundary matches Some(b) ==> self.has_state(b),
        ensures
            path@ == self.above(self.chain(target), self.depth_opt(boundary)),
            path@.reverse() == self.entry_path(target, boundary),
            forall|k: int| 0 <= k < path@.len() ==> self.has_state(#[trigger] path@[k]),
    {
        proof {
            use_type_invariant(self);
            self.lemma_chain(target);
            assert(Self::node_ok(self.parents@, self.depths@, target.id as int));
        }
        let d: usize = match boundary {
            Some(b) => self.depth(b),
            None => 0,
        };
        let mut path: FixedVec<State, MAX_NEST_DEPTH> = FixedVec::new();
        let mut cur = Some(target);
        while self.deeper_than(cur, d)
            invariant
                self.wf(),
                d == self.depth_opt(boundary),
                self.has_state(target),
                cur matches Some(c) ==> self.has_state(c),
                path@.len() + self.depth_opt(cur) == self.depth_of(target),
                self.depth_of(target) <= MAX_NEST_DEPTH,
                self.above(self.chain(target), d as nat) == path@ + self.above(
                    self.chain_opt(cur),
                    d as nat,
                ),
                forall|k: int| 0 <= k < path@.len() ==> self.has_state(#[trigger] path@[k]),
            decreases self.depth_opt(cur),
        {
            let c = cur.unwrap();
            proof {
                self.lemma_above_step(cur, d as nat);
                self.lemma_chain(c);
            }
            let p = self.parent(c);
            let pushed = path.push(c);
            proof {
                assert(pushed is Ok);
                assert(self.above(self.chain(target), d as nat) =~= path@ + self.above(
                    self.chain_opt(p),
                    d as nat,
                ));
            }
            cur = p;
        }
        proof {
            self.lemma_above_step(cur, d as nat);
            assert(path@ + Seq::<State>::empty() =~= path@);
        }
        path
    }
}

} // verus!
