# yaoki

A durable-execution engine. A workflow asks for its effects through a
context: steps, clock readings, randomness, timers. Every effect is journaled,
so a run that dies can be replayed from its journal and carried on from where
it stopped.

- `src/` is the verified library. `model.rs` says what a run does, in
  mathematics; `context.rs` and `engine.rs` are proved to do it. `laws.rs`,
  `recovery.rs`, `crashes.rs` and `outcomes.rs` hold the laws that follow:
  replay gives back what was journaled, recovery never diverges, any number of
  crashes costs only the effects whose record was cut off, and a recovered run
  returns what an undisturbed one returns. The last two speak of workflows that
  stop at the first error of the engine and whose step closures answer alike
  whenever they run after the same replies; they may branch on their input and
  on every reply. `stores/` holds the in-memory store and the format of journal
  files.
- `tests/` runs the library.
- `app/` is a demo program around it: the journal on disk, the system clock
  and a signup workflow.
