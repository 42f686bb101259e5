# sim_core

The deterministic core of a scheduling laboratory, verified with Verus: a decoder
for workload and program documents, and an event kernel that runs the threads of a
workload on simulated cores under a scheduling policy, tick by tick.

## Layout

- `src/text.rs` — lexical rules: canonical decimal integers, identifiers, `u32`
  arguments, and decimal rendering of counters.
- `src/json.rs` — the JSON document model the decoder reads, and the bridge from
  serde_json's reader (the only trusted code besides three `String`/`str` calls).
- `src/input.rs` — workload and program decoding. Every decoder has an exact
  specification: the result, or the error and on which inputs it comes.
- `src/kernel.rs` — the event kernel. Its invariant, kept at every boundary, states
  consistent ownership between threads, cores and the ready queue; each boundary
  numbers its events on without a gap, links each thread's events into a causal
  chain, and continues every core's and every thread's accounting ledger where the
  previous one left off (so a core's intervals tile the run, and a finished thread's
  intervals add up to its turnaround). `src/kernel/ownership.rs` holds the ownership
  relation and `src/kernel/ledger.rs` the ledger and event-chain relations within
  one tick.
- `src/fcfs.rs` — the first-come, first-served policy.
- `src/lib.rs` — the build probe and the reading of its command-line operands.
- `app/` — the native runner (`main`) and the Wasm export of the build probe.
- `tests/` — scenario tests, including the independently worked scheduling cases.
