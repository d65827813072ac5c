# actor-kit

An actor runtime core with bounded mailboxes, supervised restarts and a
deterministic simulation of the whole, written in Rust and verified with Verus.

- `src/` is the library; Verus proves what its contracts state.
  - `mailbox`, `registry`, `supervisor`, `scheduler`, `executor`, `policy`: the
    runtime's parts.
  - `loom_mailbox`, `crew`: the mailbox protocol in atomic steps, and what holds
    of every interleaving of senders and a receiver.
  - `sim`: the simulation. `sim/world.rs` says what every operation does to the
    world; `sim/mod.rs` does it; `sim/soundness.rs` is the invariant, with
    `sim/chronicle.rs` for what the trace tells; and `sim/laws.rs` is what
    follows: determinism, delivery accounting, restart budgets, and that runs
    come to an end.
- `tests/` runs the library on concrete values.
- `app/` is what surrounds it: floating point settings, asynchronous sending,
  serializable types, and models on loom's threads.

The random stream is that of `rand_xoshiro`, and identifiers are those of
`uuid`. What the proofs take for granted of these two, and of the standard
library's durations, is written above the functions that call them.
