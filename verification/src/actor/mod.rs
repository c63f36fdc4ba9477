use vstd::prelude::*;

/// The `queue` module provides some framework-compliant queue backends, as well
/// as adapter traits to be able to adapt your own queue or a RTOS queue.
pub mod queue;

/// The `runtime` module provides some different scheduling disciplines for the actor
/// run-to-completion steps.
pub mod runtime;

use self::queue::{EventConsumer, EventProducer, EventQueue, MultiProducer, QueueAdapter};
use crate::state_machine::{
    dispatch_spec, initial_spec, Callback, HsmError, Init, Run, StateDef, StateMachine,
};

verus! {

/// Traits required to schedule an actor
pub trait ActorRuntime {
    /// Whether the actor is initialized.
    spec fn is_initialized(&self) -> bool;

    /// The results of the steps the actor has taken, in order.
    spec fn steps_taken(&self) -> Seq<Result<StepStatus, HsmError>>;

    /// Indicates if actor is initialized after any potential initialization actions. This is only
    /// relevant for schedulers that treat initialization as different from runtime scheduling.
    fn initialized(&self) -> (b: bool)
        ensures
            b == self.is_initialized(),
    ;

    /// Implements the run-to-completion step for the actor
    fn step(&mut self) -> (r: Result<StepStatus, HsmError>)
        ensures
            final(self).steps_taken() == old(self).steps_taken().push(r),
    ;
}

/// `enum` indicating the result of the run to completion step
#[derive(Clone, Copy, Debug, PartialEq, Eq, Structural)]
pub enum StepStatus {
    /// Indicates that the actor was initialized on the call to `step`. The `pending` field
    /// indicates if there is an event pending.
    Initialized {
        /// True if events are pending, false if there are no events to dispatch
        pending: bool,
    },
    /// Indicates that the actor dispatched an event on the call to `step`. The `pending` field
    /// indicates if there is an event pending.
    Ran {
        /// True if events are pending, false if there are no events to dispatch
        pending: bool,
    },
    /// Indicates that there was no work done and no events to dispatch on the call to `step`.
    Idle,
}

impl StepStatus {
    /// Whether an event is pending after the step.
    pub open spec fn pending_spec(self) -> bool {
        match self {
            StepStatus::Initialized { pending } => pending,
            StepStatus::Ran { pending } => pending,
            StepStatus::Idle => false,
        }
    }

    /// Function returning if the `StepStatus` is `Idle`
    #[must_use]
    pub fn is_idle(&self) -> (b: bool)
        ensures
            b == (*self is Idle),
    {
        match self {
            StepStatus::Idle => true,
            _ => false,
        }
    }

    /// Function returning if `StepStatus` indicates that there is a pending event
    #[must_use]
    pub fn is_pending(&self) -> (b: bool)
        ensures
            b == self.pending_spec(),
    {
        match self {
            StepStatus::Initialized { pending } => *pending,
            StepStatus::Ran { pending } => *pending,
            StepStatus::Idle => false,
        }
    }

    /// Function returning if `StepStatus` indicates that there was work done
    #[must_use]
    pub fn did_work(&self) -> (b: bool)
        ensures
            b == !(*self is Idle),
    {
        !self.is_idle()
    }
}

/// The state machine of an actor, before and after its initial transition, or after an
/// initial transition that was refused.
pub enum CurrSM<Sm: StateDef> {
    /// Before the initial transition.
    Init(StateMachine<Sm, Init>),
    /// Running: the initial transition has been taken.
    Run(StateMachine<Sm, Run>),
    /// The initial transition was refused with this error.
    Faulted(HsmError),
}

/// Initial Actor object housing the `event_queue`.
pub struct Actor<Sm: StateDef, Q: QueueAdapter<Sm::Event>> {
    event_queue: EventQueue<Sm::Event, Q>,
    _pdsm: std::marker::PhantomData<Sm>,
}

/// Runtime Actor object housing the underlying state machine, context object and event consumer,
/// constructed from a call to `bind` on `Actor`.
pub struct RuntimeActor<'a, Sm: StateDef, Q: QueueAdapter<Sm::Event>> {
    event_consumer: EventConsumer<'a, Sm::Event, Q>,
    context: Sm,
    sm: CurrSM<Sm>,
    next_event: Option<Sm::Event>,
    initialized: bool,
    taken: Ghost<Seq<Result<StepStatus, HsmError>>>,
    replies: Ghost<Seq<Option<Sm::Event>>>,
    dispatched: Ghost<Seq<Sm::Event>>,
}

/// The event of a reply as a sequence: one event for `Some`, none for `None`.
pub open spec fn held_seq<E>(e: Option<E>) -> Seq<E> {
    match e {
        Some(x) => seq![x],
        None => Seq::empty(),
    }
}

/// The events of the replies `rs`, in order, leaving out the `None`s.
pub open spec fn taken_events<E>(rs: Seq<Option<E>>) -> Seq<E>
    decreases rs.len(),
{
    if rs.len() == 0 {
        Seq::empty()
    } else {
        taken_events(rs.drop_last()) + held_seq(rs.last())
    }
}

proof fn lemma_taken_push<E>(rs: Seq<Option<E>>, x: Option<E>)
    ensures
        taken_events(rs.push(x)) == taken_events(rs) + held_seq(x),
{
    assert(rs.push(x).drop_last() =~= rs);
}

/// Dispatching `event` took the running state machine `m0` with the context `ctx0` to `m1`
/// with `ctx1`, with the result `r` (see [`dispatch_spec`]).
pub open spec fn dispatched<Sm: StateDef>(
    m0: StateMachine<Sm, Run>,
    ctx0: Sm,
    m1: StateMachine<Sm, Run>,
    ctx1: Sm,
    event: Sm::Event,
    r: Result<(), HsmError>,
) -> bool {
    let o = dispatch_spec(m0.tree(), ctx0, m0.current(), &event);
    &&& m1.tree() == m0.tree()
    &&& ctx1 == o.0
    &&& m1.current() == o.1
    &&& m1.calls() == m0.calls() + o.2
    &&& r == o.3
}

impl<Sm: StateDef, Q: QueueAdapter<Sm::Event>> Actor<Sm, Q> {
    /// The event queue of the actor.
    pub closed spec fn queue(&self) -> Q {
        self.event_queue.queue()
    }

    /// Constructs a new actor around its event queue
    pub fn new(queue: Q) -> (a: Self)
        ensures
            a.queue() == queue,
    {
        Self { event_queue: EventQueue::new(queue), _pdsm: std::marker::PhantomData }
    }

    /// Takes the event producer for the actor. Can only be taken once, if the underlying queue is
    /// [`MultiProducer`], the [`EventProducer`] object can be cloned.
    pub fn take_producer(&self) -> (r: Option<EventProducer<'_, Sm::Event, Q>>)
        ensures
            r matches Some(p) ==> p.queue() == self.queue(),
    {
        self.event_queue.producer()
    }

    /// Binds the actor to its context object and produces the runtime actor, not yet
    /// initialized, with its state machine before the initial transition. The actor can only
    /// be bound once: a later call gives `None`.
    pub fn bind(&self, context: Sm) -> (r: Option<RuntimeActor<'_, Sm, Q>>)
        ensures
            r matches Some(rt) ==> {
                &&& rt.queue() == self.queue()
                &&& rt.context() == context
                &&& rt.phase() matches CurrSM::Init(m) && m.tree().wf() && m.current() is None
                    && m.calls() == Seq::<Callback>::empty()
                &&& rt.pending_event() is None
                &&& !rt.is_initialized()
                &&& rt.steps_taken() == Seq::<Result<StepStatus, HsmError>>::empty()
                &&& rt.replies() == Seq::<Option<Sm::Event>>::empty()
                &&& rt.dispatched_events() == Seq::<Sm::Event>::empty()
                &&& rt.takes_in_order()
            },
    {
        match self.event_queue.consumer() {
            Some(event_consumer) => Some(
                RuntimeActor {
                    event_consumer,
                    context,
                    sm: CurrSM::Init(StateMachine::new()),
                    next_event: None,
                    initialized: false,
                    taken: Ghost(Seq::empty()),
                    replies: Ghost(Seq::empty()),
                    dispatched: Ghost(Seq::empty()),
                },
            ),
            None => None,
        }
    }
}

impl<Sm: StateDef, Q: QueueAdapter<Sm::Event> + MultiProducer> Actor<Sm, Q> {
    /// Enqueues an item to the underlying queue directly on the actor's event queue. This method is
    /// only available if the underlying queue is [`MultiProducer`]
    /// # Errors
    /// If the queue is unable to enqueue the data, it will return an error.
    pub fn enqueue(&self, data: Sm::Event) -> (r: Result<(), Sm::Event>)
        ensures
            r is Ok || r == Err::<(), Sm::Event>(data),
            call_ensures(Q::enqueue, (&self.queue(), data), r),
    {
        self.event_queue.enqueue(data)
    }
}

impl<Sm: StateDef, Q: QueueAdapter<Sm::Event>> RuntimeActor<'_, Sm, Q> {
    /// The event queue that the actor drains.
    pub closed spec fn queue(&self) -> Q {
        self.event_consumer.queue()
    }

    /// The context object.
    pub closed spec fn context(&self) -> Sm {
        self.context
    }

    /// The state machine, in its current phase.
    pub closed spec fn phase(&self) -> CurrSM<Sm> {
        self.sm
    }

    /// The event taken from the queue ahead of time, to be dispatched by the next step.
    pub closed spec fn pending_event(&self) -> Option<Sm::Event> {
        self.next_event
    }

    /// The replies that the queue's `dequeue` has given this actor, in order: `None` where the
    /// queue was empty.
    pub closed spec fn replies(&self) -> Seq<Option<Sm::Event>> {
        self.replies@
    }

    /// The events this actor has dispatched to its state machine, in order.
    pub closed spec fn dispatched_events(&self) -> Seq<Sm::Event> {
        self.dispatched@
    }

    /// Every event taken from the queue has been dispatched, once and in the order it was
    /// taken, but for the one held for the next step; only a running actor holds one, and an
    /// actor is initialized exactly when its state machine is running.
    pub open spec fn takes_in_order(&self) -> bool {
        &&& taken_events(self.replies()) == self.dispatched_events() + held_seq(
            self.pending_event(),
        )
        &&& !(self.phase() is Run) ==> self.pending_event() is None
        &&& self.is_initialized() <==> self.phase() is Run
    }

    /// What one step does: `self` before it, `after` after it, `r` what it returned (see
    /// [`ActorRuntime::step`]). The replies the step took from the queue follow the ones
    /// before it.
    pub open spec fn step_result(&self, after: Self, r: Result<StepStatus, HsmError>) -> bool {
        let new = after.replies().skip(self.replies().len() as int);
        &&& after.queue() == self.queue()
        &&& after.steps_taken() == self.steps_taken().push(r)
        &&& after.replies().len() >= self.replies().len()
        &&& after.replies() == self.replies() + new
        &&& match self.phase() {
            CurrSM::Init(m0) => {
                let o = initial_spec(m0.tree(), self.context(), m0.current());
                &&& after.context() == o.0
                &&& after.dispatched_events() == self.dispatched_events()
                &&& match r {
                    Ok(status) => {
                        &&& o.3 is Ok
                        &&& after.phase() matches CurrSM::Run(m1) && m1.tree() == m0.tree()
                            && m1.current() == o.1 && m1.calls() == m0.calls() + o.2
                        &&& after.is_initialized()
                        &&& new.len() == 1
                        &&& after.pending_event() == new[0]
                        &&& status == StepStatus::Initialized { pending: new[0] is Some }
                    },
                    Err(e) => {
                        &&& o.3 == Err::<(), HsmError>(e)
                        &&& after.phase() == CurrSM::<Sm>::Faulted(e)
                        &&& after.is_initialized() == self.is_initialized()
                        &&& new.len() == 0
                        &&& after.pending_event() == self.pending_event()
                    },
                }
            },
            CurrSM::Run(m0) => {
                &&& after.is_initialized() == self.is_initialized()
                &&& after.phase() matches CurrSM::Run(m1) && match self.pending_event() {
                    Some(event) => self.dispatch_result(after, m0, m1, event, new, r),
                    None => {
                        &&& new.len() >= 1
                        &&& match new[0] {
                            None => {
                                &&& new.len() == 1
                                &&& r == Ok::<StepStatus, HsmError>(StepStatus::Idle)
                                &&& m1 == m0
                                &&& after.context() == self.context()
                                &&& after.pending_event() is None
                                &&& after.dispatched_events() == self.dispatched_events()
                            },
                            Some(event) => self.dispatch_result(
                                after,
                                m0,
                                m1,
                                event,
                                new.drop_first(),
                                r,
                            ),
                        }
                    },
                }
            },
            CurrSM::Faulted(e) => {
                &&& r == Err::<StepStatus, HsmError>(e)
                &&& after.phase() == self.phase()
                &&& after.context() == self.context()
                &&& after.is_initialized() == self.is_initialized()
                &&& new.len() == 0
                &&& after.pending_event() == self.pending_event()
                &&& after.dispatched_events() == self.dispatched_events()
            },
        }
    }

    /// A step that dispatched `event` to the running machine `m0`, leaving `m1`; `rest` are
    /// the replies taken after the dispatch. A dispatch that succeeded, or an event that no
    /// state handled, is followed by taking the next event ahead of time, which is held and
    /// reported as pending; a refused transition is returned as the step's error.
    pub open spec fn dispatch_result(
        &self,
        after: Self,
        m0: StateMachine<Sm, Run>,
        m1: StateMachine<Sm, Run>,
        event: Sm::Event,
        rest: Seq<Option<Sm::Event>>,
        r: Result<StepStatus, HsmError>,
    ) -> bool {
        let res = dispatch_spec(m0.tree(), self.context(), m0.current(), &event).3;
        &&& dispatched(m0, self.context(), m1, after.context(), event, res)
        &&& after.dispatched_events() == self.dispatched_events().push(event)
        &&& if res is Ok || res == Err::<(), HsmError>(HsmError::UnhandledEvent) {
            &&& rest.len() == 1
            &&& after.pending_event() == rest[0]
            &&& r == Ok::<StepStatus, HsmError>(StepStatus::Ran { pending: rest[0] is Some })
        } else {
            &&& rest.len() == 0
            &&& after.pending_event() is None
            &&& r == Err::<StepStatus, HsmError>(res->Err_0)
        }
    }

    /// Takes the next event from the queue ahead of time and holds it; tells whether there
    /// was one.
    fn prefetch_event(&mut self) -> (pending: bool)
        ensures
            pending == final(self).pending_event() is Some,
            final(self).replies() == old(self).replies().push(final(self).pending_event()),
            taken_events(final(self).replies()) == taken_events(old(self).replies()) + held_seq(
                final(self).pending_event(),
            ),
            final(self).dispatched_events() == old(self).dispatched_events(),
            final(self).queue() == old(self).queue(),
            final(self).phase() == old(self).phase(),
            final(self).context() == old(self).context(),
            final(self).is_initialized() == old(self).is_initialized(),
            final(self).steps_taken() == old(self).steps_taken(),
    {
        self.next_event = self.event_consumer.dequeue();
        proof {
            lemma_taken_push(self.replies@, self.next_event);
        }
        self.replies = Ghost(self.replies@.push(self.next_event));
        self.next_event.is_some()
    }

    /// The next event to dispatch: the one held, else the queue's reply.
    fn next_to_dispatch(&mut self) -> (e: Option<Sm::Event>)
        ensures
            final(self).pending_event() is None,
            match old(self).pending_event() {
                Some(_) => e == old(self).pending_event() && final(self).replies() == old(
                    self,
                ).replies(),
                None => final(self).replies() == old(self).replies().push(e) && taken_events(
                    final(self).replies(),
                ) == taken_events(old(self).replies()) + held_seq(e),
            },
            final(self).dispatched_events() == old(self).dispatched_events(),
            final(self).queue() == old(self).queue(),
            final(self).phase() == old(self).phase(),
            final(self).context() == old(self).context(),
            final(self).is_initialized() == old(self).is_initialized(),
            final(self).steps_taken() == old(self).steps_taken(),
    {
        let mut e = None;
        std::mem::swap(&mut e, &mut self.next_event);
        if e.is_some() {
            e
        } else {
            let reply = self.event_consumer.dequeue();
            proof {
                lemma_taken_push(self.replies@, reply);
            }
            self.replies = Ghost(self.replies@.push(reply));
            reply
        }
    }
}

impl<Sm: StateDef, Q: QueueAdapter<Sm::Event>> ActorRuntime for RuntimeActor<'_, Sm, Q> {
    closed spec fn is_initialized(&self) -> bool {
        self.initialized
    }

    closed spec fn steps_taken(&self) -> Seq<Result<StepStatus, HsmError>> {
        self.taken@
    }

    fn initialized(&self) -> (b: bool) {
        self.initialized
    }

    /// One run-to-completion step. A state machine before its initial transition runs it; a
    /// running one dispatches the pending event, or else the next event of the queue, and is
    /// idle when there is none. After any work, the next event is taken from the queue ahead
    /// of time and reported as pending. An event that no state handles still counts as run.
    ///
    /// # Errors
    /// A transition that the state machine refuses (to a state outside its tree, or an
    /// initial transition to a state not nested in its source) gives its error; a refused
    /// overall initial transition leaves the actor faulted, and every later step gives the
    /// same error again.
    fn step(&mut self) -> (r: Result<StepStatus, HsmError>)
        ensures
            old(self).step_result(*final(self), r),
            old(self).takes_in_order() ==> final(self).takes_in_order(),
    {
        let ghost before = *self;
        let ghost mut witness: Option<
            (StateMachine<Sm, Run>, StateMachine<Sm, Run>, Sm::Event, Result<(), HsmError>),
        > = None;
        let mut phase: CurrSM<Sm> = CurrSM::Faulted(HsmError::UnhandledEvent);
        std::mem::swap(&mut phase, &mut self.sm);
        let r = match phase {
            CurrSM::Run(mut sm) => {
                let ghost m0 = sm;
                let next = self.next_to_dispatch();
                match next {
                    Some(event) => {
                        let res = sm.dispatch(&mut self.context, &event);
                        let ghost m1 = sm;
                        self.sm = CurrSM::Run(sm);
                        self.dispatched = Ghost(self.dispatched@.push(event));
                        proof {
                            if before.takes_in_order() {
                                assert(taken_events(self.replies@) =~= self.dispatched@
                                    + held_seq(self.next_event));
                            }
                        }
                        let out = match res {
                            Ok(()) => {
                                let pending = self.prefetch_event();
                                Ok(StepStatus::Ran { pending })
                            },
                            Err(HsmError::UnhandledEvent) => {
                                let pending = self.prefetch_event();
                                Ok(StepStatus::Ran { pending })
                            },
                            Err(e) => Err(e),
                        };
                        proof {
                            witness = Some((m0, m1, event, res));
                        }
                        out
                    },
                    None => {
                        self.sm = CurrSM::Run(sm);
                        Ok(StepStatus::Idle)
                    },
                }
            },
            CurrSM::Init(sm) => {
                match sm.initial(&mut self.context) {
                    Ok(running) => {
                        self.sm = CurrSM::Run(running);
                        self.initialized = true;
                        let pending = self.prefetch_event();
                        Ok(StepStatus::Initialized { pending })
                    },
                    Err(e) => {
                        self.sm = CurrSM::Faulted(e);
                        Err(e)
                    },
                }
            },
            CurrSM::Faulted(e) => {
                self.sm = CurrSM::Faulted(e);
                Err(e)
            },
        };
        self.taken = Ghost(self.taken@.push(r));
        proof {
            let n = before.replies().len() as int;
            assert(self.replies@ =~= before.replies() + self.replies@.skip(n));
            if let Some((m0, m1, event, res)) = witness {
                assert(dispatched(m0, before.context(), m1, self.context(), event, res));
            }
        }
        r
    }
}

/// Law: an actor is initialized by one step only. Once initialized it stays initialized,
/// and no later step reports [`StepStatus::Initialized`] again.
pub proof fn law_initialized_once<'a, Sm: StateDef, Q: QueueAdapter<Sm::Event>>(
    a0: RuntimeActor<'a, Sm, Q>,
    a1: RuntimeActor<'a, Sm, Q>,
    r: Result<StepStatus, HsmError>,
)
    requires
        a0.takes_in_order(),
        a0.step_result(a1, r),
        a0.is_initialized(),
    ensures
        a1.is_initialized(),
        !(r matches Ok(StepStatus::Initialized { .. })),
{
}

/// Law: posting an event to an actor gives back what the actor's queue answered for that
/// very event: `Ok` only where the queue's own `enqueue` accepted it, and otherwise the event
/// itself, handed back.
pub proof fn law_actor_enqueue_forwards<
    Sm: StateDef,
    Q: QueueAdapter<Sm::Event> + MultiProducer,
>(a: &Actor<Sm, Q>, data: Sm::Event, r: Result<(), Sm::Event>)
    requires
        call_ensures(Actor::<Sm, Q>::enqueue, (a, data), r),
    ensures
        call_ensures(Q::enqueue, (&a.queue(), data), r),
        r is Ok || r == Err::<(), Sm::Event>(data),
{
}

} // verus!
