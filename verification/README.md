# hsm_rs

A hierarchical state machine and actor framework in the style of the QuantumLeaps
framework, written in Verus with its behaviour proved.

- `src/state_machine/`: the state hierarchy (`StateTree`), the user's definition traits
  (`StateMachineDef`, `StateDef`), and the runtime `StateMachine`. Each method of the
  definition traits comes with spec functions that say what it returns on a context and
  what it leaves of it. Over those, the initial transition, transitions and event dispatch
  are specified exactly (`initial_spec`, `transition_spec`, `dispatch_spec`): which
  callbacks run, in which order, on which context, which state is active afterwards and
  what is returned. `laws.rs` holds the laws of transitions (lowest common ancestor,
  self-transitions, local transitions to ancestors and descendants, exit and entry order,
  landing inside the target, a dispatch being handler calls followed by a transition's calls)
  and that the overall initial transition runs once; `balance.rs` proves that the exits and
  entries of a transition or dispatch, replayed on the active chain, leave exactly the new
  active chain.
- `src/actor/`: actors (an event queue bound to a state machine and its context) with
  run-to-completion `step`s, specified over the replies the actor's queue gave it (every
  event taken is dispatched once, in the order taken), whose results every actor records,
  the `Superloop` and
  `Cooperative` schedulers' passes, stated over those records, and the event queues: the
  sequence-numbered ring `RingBuffer` (proved first-in first-out and bounded) and
  `MpmcBoundedQueue`, which shares a ring by reference on one thread.
- `src/fixed_vec.rs`: a vector with a fixed bound.
- `app/`: the never-ending scheduler loops with their idle task.
