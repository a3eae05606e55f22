# raxos

A verified implementation of the QuePaxa consensus algorithm (Tennage et al.,
"QuePaxa: Escaping the Tyranny of Timeouts in Consensus", SOSP 2023): a
deterministic, I/O-free state machine that the application drives with
submitted commands, received messages and time, and whose effects it carries
out.

Every executable function of the library has a contract that says what it
returns and how it changes its receiver, proved by Verus. On top of these
contracts stand proofs about whole groups over a network that loses, reorders
and duplicates messages: all replicas deliver the same log, in order, without
gaps, and no command twice.

## Layout

- `src/types.rs`, `src/codec.rs`, `src/wire.rs`: ids, proposals, batches and the
  message format.
- `src/rng.rs`, `src/sorted.rs`: the generator of priorities, and ordered maps.
- `src/config.rs`: the configuration of a replica.
- `src/show.rs`: short forms of ids, messages and effects for logs.
- `src/recorder.rs`, `src/proposer.rs`, `src/slot.rs`: the two roles that a
  replica plays in one slot.
- `src/pool.rs`: undelivered commands, and what has been delivered.
- `src/state.rs`: the mathematical model of a replica; `src/invariants.rs`: what
  every operation keeps.
- `src/replica.rs`, `src/replica/`: the replica itself, proved to follow the
  model.
- `src/history.rs`, `src/rounds.rs`: one slot across all replicas; at most one
  value is chosen.
- `src/delivery.rs`, `src/consensus.rs`, `src/group.rs`: whole groups, and what
  they guarantee.
- `src/evolution.rs`, `src/lifetime.rs`, `src/decisions.rs`,
  `src/transmission.rs`, `src/retransmission.rs`, `src/wakeups.rs`,
  `src/solo.rs`: one replica over its lifetime, whatever it is given.
- `tests/`: unit tests and a deterministic whole-cluster simulation.
- `app/`: standard errors around the library.

## Trusted

Two functions of the standard library are used through stated contracts:
`Arc::clone` (`types::share`) and `Duration::as_nanos` (`config`). Text for logs
goes through `core::fmt::Formatter` (`show`), of which nothing is claimed.
