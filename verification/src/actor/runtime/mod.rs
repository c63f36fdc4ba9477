use vstd::prelude::*;

use crate::actor::{ActorRuntime, StepStatus};
use crate::state_machine::HsmError;

verus! {

/// The actors that a scheduler runs, in priority order.
struct ToSchedule<'a, const NUM_ACTORS: usize> {
    actors: [&'a mut dyn ActorRuntime; NUM_ACTORS],
}

impl<'a, const NUM_ACTORS: usize> ToSchedule<'a, NUM_ACTORS> {
    /// The steps each actor has taken, in actor order.
    closed spec fn steps(&self) -> Seq<Seq<Result<StepStatus, HsmError>>> {
        Seq::new(NUM_ACTORS as nat, |i: int| self.actors[i].steps_taken())
    }

    /// Whether each actor is initialized, in actor order.
    closed spec fn flags(&self) -> Seq<bool> {
        Seq::new(NUM_ACTORS as nat, |i: int| self.actors[i].is_initialized())
    }
}

/// Whether some step of `statuses` did work.
pub open spec fn any_work(statuses: Seq<StepStatus>) -> bool {
    exists|i: int| 0 <= i < statuses.len() && !(#[trigger] statuses[i] is Idle)
}

/// Superloop scheduler, gives each actor exactly one run-to-completion `step` per iteration of the
/// loop. Executes in order of actors passed to `new`
pub struct Superloop<'a, const NUM_ACTORS: usize> {
    inner: ToSchedule<'a, NUM_ACTORS>,
    last_pass: Ghost<Seq<StepStatus>>,
}

/// Cooperative scheduler, searches for the highest priority actor with work to be done,
/// reschedules. If higher priority actors are idle it moves onto the next available actor with
/// work to do. Priority is given by the order of actors passed to `new`
pub struct Cooperative<'a, const NUM_ACTORS: usize> {
    inner: ToSchedule<'a, NUM_ACTORS>,
    last_pass: Ghost<Seq<Result<StepStatus, HsmError>>>,
    last_init: Ghost<Seq<Option<Result<StepStatus, HsmError>>>>,
}

impl<'a, const NUM_ACTORS: usize> Superloop<'a, NUM_ACTORS> {
    /// The statuses of the steps taken by the last pass, in actor order.
    pub closed spec fn last_pass(&self) -> Seq<StepStatus> {
        self.last_pass@
    }

    /// The steps each actor has taken, in actor order (see [`ActorRuntime::steps_taken`]).
    pub closed spec fn steps(&self) -> Seq<Seq<Result<StepStatus, HsmError>>> {
        self.inner.steps()
    }

    /// Construct a new Superloop scheduler. The order of `actors` is the order that the superloop
    /// executes the actors.
    pub fn new(actors: [&'a mut dyn ActorRuntime; NUM_ACTORS]) -> (s: Self)
        ensures
            s.last_pass() == Seq::<StepStatus>::empty(),
    {
        Self { inner: ToSchedule { actors }, last_pass: Ghost(Seq::empty()) }
    }

    /// One iteration of the superloop: every actor takes one step, in order. Tells whether any
    /// of them did work; when none did, the idle task is due.
    ///
    /// # Errors
    /// The error of the first step that fails; the actors after it take no step.
    pub fn run_once(&mut self) -> (r: Result<bool, HsmError>)
        ensures
            final(self).steps().len() == NUM_ACTORS,
            r matches Ok(ran) ==> {
                &&& final(self).last_pass().len() == NUM_ACTORS
                &&& ran == any_work(final(self).last_pass())
            },
            r is Err ==> final(self).last_pass().len() < NUM_ACTORS,
            forall|i: int|
                #![trigger final(self).steps()[i]]
                0 <= i < NUM_ACTORS ==> {
                    let k = final(self).last_pass().len();
                    &&& i < k ==> final(self).steps()[i] == old(self).steps()[i].push(
                        Ok(final(self).last_pass()[i]),
                    )
                    &&& r matches Err(e) ==> (i == k ==> final(self).steps()[i] == old(
                        self,
                    ).steps()[i].push(Err(e)))
                    &&& (r is Err && i > k) ==> final(self).steps()[i] == old(self).steps()[i]
                },
    {
        let mut ran: bool = false;
        let mut i: usize = 0;
        self.last_pass = Ghost(Seq::empty());
        while i < NUM_ACTORS
            invariant
                i <= NUM_ACTORS,
                self.last_pass@.len() == i,
                ran == any_work(self.last_pass@),
                forall|j: int|
                    #![trigger self.inner.actors[j]]
                    0 <= j < NUM_ACTORS ==> {
                        &&& j < i ==> self.inner.actors[j].steps_taken() == old(
                            self,
                        ).inner.actors[j].steps_taken().push(Ok(self.last_pass@[j]))
                        &&& j >= i ==> self.inner.actors[j].steps_taken() == old(
                            self,
                        ).inner.actors[j].steps_taken()
                    },
            decreases NUM_ACTORS - i,
        {
            let status = match self.inner.actors[i].step() {
                Ok(s) => s,
                Err(e) => return Err(e),
            };
            proof {
                let prev = self.last_pass@;
                let next = prev.push(status);
                if any_work(prev) {
                    let k = choose|k: int| 0 <= k < prev.len() && !(#[trigger] prev[k] is Idle);
                    assert(next[k] == prev[k]);
                }
                if !(status is Idle) {
                    assert(next[prev.len() as int] == status);
                }
                if any_work(next) {
                    let k = choose|k: int| 0 <= k < next.len() && !(#[trigger] next[k] is Idle);
                    if k < prev.len() {
                        assert(prev[k] == next[k]);
                    }
                }
            }
            self.last_pass = Ghost(self.last_pass@.push(status));
            ran = ran || status.did_work();
            i = i + 1;
        }
        Ok(ran)
    }
}

impl<'a, const NUM_ACTORS: usize> Cooperative<'a, NUM_ACTORS> {
    /// What the steps taken by the last pass returned, in priority order.
    pub closed spec fn last_pass(&self) -> Seq<Result<StepStatus, HsmError>> {
        self.last_pass@
    }

    /// What the last initialization did for each actor, in priority order: `None` for an
    /// actor that reported itself initialized and took no step, else what its step returned.
    pub closed spec fn last_initialization(&self) -> Seq<Option<Result<StepStatus, HsmError>>> {
        self.last_init@
    }

    /// The steps each actor has taken, in priority order (see [`ActorRuntime::steps_taken`]).
    pub closed spec fn steps(&self) -> Seq<Seq<Result<StepStatus, HsmError>>> {
        self.inner.steps()
    }

    /// Whether each actor is initialized, in priority order.
    pub closed spec fn initialized_flags(&self) -> Seq<bool> {
        self.inner.flags()
    }

    /// Construct a new Cooperative scheduler. The order of `actors` is the priority order for the
    /// scheduler.
    pub fn new(actors: [&'a mut dyn ActorRuntime; NUM_ACTORS]) -> (s: Self)
        ensures
            s.last_pass() == Seq::<Result<StepStatus, HsmError>>::empty(),
            s.last_initialization() == Seq::<Option<Result<StepStatus, HsmError>>>::empty(),
    {
        Self {
            inner: ToSchedule { actors },
            last_pass: Ghost(Seq::empty()),
            last_init: Ghost(Seq::empty()),
        }
    }

    /// Runs the initial step of every actor that is not initialized yet, in priority order.
    ///
    /// # Errors
    /// The error of the first step that fails; the actors after it are left as they are.
    pub fn initialize(&mut self) -> (r: Result<(), HsmError>)
        ensures
            final(self).last_pass() == old(self).last_pass(),
            ({
                let init = final(self).last_initialization();
                match r {
                    Ok(()) => {
                        &&& init.len() == NUM_ACTORS
                        &&& forall|k: int|
                            0 <= k < init.len() ==> #[trigger] init[k] is None || init[k] matches Some(
                                Ok(_),
                            )
                    },
                    Err(e) => {
                        &&& 1 <= init.len() <= NUM_ACTORS
                        &&& init.last() == Some(Err::<StepStatus, HsmError>(e))
                        &&& forall|k: int|
                            0 <= k < init.len() - 1 ==> #[trigger] init[k] is None || init[k] matches Some(
                                Ok(_),
                            )
                    },
                }
            }),
            final(self).steps().len() == NUM_ACTORS,
            forall|i: int|
                #![trigger final(self).steps()[i]]
                0 <= i < NUM_ACTORS ==> {
                    let init = final(self).last_initialization();
                    &&& i < init.len() ==> (init[i] is None <==> old(self).initialized_flags()[i])
                    &&& i < init.len() ==> match init[i] {
                        Some(r) => final(self).steps()[i] == old(self).steps()[i].push(r),
                        None => final(self).steps()[i] == old(self).steps()[i],
                    }
                    &&& i >= init.len() ==> final(self).steps()[i] == old(self).steps()[i]
                },
    {
        let mut i: usize = 0;
        self.last_init = Ghost(Seq::empty());
        while i < NUM_ACTORS
            invariant
                i <= NUM_ACTORS,
                self.last_pass@ == old(self).last_pass(),
                self.last_init@.len() == i,
                forall|k: int|
                    0 <= k < i ==> #[trigger] self.last_init@[k] is None || self.last_init@[k] matches Some(
                        Ok(_),
                    ),
                forall|j: int|
                    0 <= j < i ==> (#[trigger] self.last_init@[j] is None <==> old(
                        self,
                    ).inner.actors[j].is_initialized()),
                forall|j: int|
                    #![trigger self.inner.actors[j]]
                    0 <= j < i ==> match self.last_init@[j] {
                        Some(r) => self.inner.actors[j].steps_taken() == old(
                            self,
                        ).inner.actors[j].steps_taken().push(r),
                        None => self.inner.actors[j].steps_taken() == old(
                            self,
                        ).inner.actors[j].steps_taken(),
                    },
                forall|j: int|
                    #![trigger self.inner.actors[j]]
                    i <= j < NUM_ACTORS ==> self.inner.actors[j].steps_taken() == old(
                        self,
                    ).inner.actors[j].steps_taken() && self.inner.actors[j].is_initialized()
                        == old(self).inner.actors[j].is_initialized(),
            decreases NUM_ACTORS - i,
        {
            if !self.inner.actors[i].initialized() {
                let r = self.inner.actors[i].step();
                self.last_init = Ghost(self.last_init@.push(Some(r)));
                match r {
                    Ok(_) => {},
                    Err(e) => return Err(e),
                }
            } else {
                self.last_init = Ghost(self.last_init@.push(None));
            }
            i = i + 1;
        }
        proof {
            assert forall|j: int| 0 <= j < NUM_ACTORS implies old(self).initialized_flags()[j]
                == old(self).inner.actors[j].is_initialized() by {}
        }
        Ok(())
    }

    /// One scheduling decision: actors take a step in priority order until one does work,
    /// and then scheduling starts over from the highest priority. Tells whether some actor did
    /// work; when none did, every actor took a step and the idle task is due.
    ///
    /// # Errors
    /// The error of the first step that fails; the actors after it take no step.
    pub fn run_once(&mut self) -> (r: Result<bool, HsmError>)
        ensures
            final(self).last_initialization() == old(self).last_initialization(),
            ({
                let pass = final(self).last_pass();
                match r {
                    Ok(true) => {
                        &&& 1 <= pass.len() <= NUM_ACTORS
                        &&& pass.last() matches Ok(s) && !(s is Idle)
                        &&& forall|k: int|
                            0 <= k < pass.len() - 1 ==> #[trigger] pass[k] == Ok::<
                                StepStatus,
                                HsmError,
                            >(StepStatus::Idle)
                    },
                    Ok(false) => {
                        &&& pass.len() == NUM_ACTORS
                        &&& forall|k: int|
                            0 <= k < pass.len() ==> #[trigger] pass[k] == Ok::<StepStatus, HsmError>(
                                StepStatus::Idle,
                            )
                    },
                    Err(e) => {
                        &&& 1 <= pass.len() <= NUM_ACTORS
                        &&& pass.last() == Err::<StepStatus, HsmError>(e)
                        &&& forall|k: int|
                            0 <= k < pass.len() - 1 ==> #[trigger] pass[k] == Ok::<
                                StepStatus,
                                HsmError,
                            >(StepStatus::Idle)
                    },
                }
            }),
            final(self).steps().len() == NUM_ACTORS,
            forall|i: int|
                #![trigger final(self).steps()[i]]
                0 <= i < NUM_ACTORS ==> {
                    let pass = final(self).last_pass();
                    &&& i < pass.len() ==> final(self).steps()[i] == old(self).steps()[i].push(
                        pass[i],
                    )
                    &&& i >= pass.len() ==> final(self).steps()[i] == old(self).steps()[i]
                },
    {
        let mut i: usize = 0;
        self.last_pass = Ghost(Seq::empty());
        while i < NUM_ACTORS
            invariant
                i <= NUM_ACTORS,
                self.last_init@ == old(self).last_initialization(),
                self.last_pass@.len() == i,
                forall|k: int|
                    0 <= k < i ==> #[trigger] self.last_pass@[k] == Ok::<StepStatus, HsmError>(
                        StepStatus::Idle,
                    ),
                forall|j: int|
                    #![trigger self.inner.actors[j]]
                    0 <= j < NUM_ACTORS ==> {
                        &&& j < i ==> self.inner.actors[j].steps_taken() == old(
                            self,
                        ).inner.actors[j].steps_taken().push(self.last_pass@[j])
                        &&& j >= i ==> self.inner.actors[j].steps_taken() == old(
                            self,
                        ).inner.actors[j].steps_taken()
                    },
            decreases NUM_ACTORS - i,
        {
            let r = self.inner.actors[i].step();
            self.last_pass = Ghost(self.last_pass@.push(r));
            let status = match r {
                Ok(s) => s,
                Err(e) => return Err(e),
            };
            if status.did_work() {
                return Ok(true);
            }
            i = i + 1;
        }
        Ok(false)
    }
}

} // verus!
