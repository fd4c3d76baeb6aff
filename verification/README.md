# consciousness_sim

A simulation of interacting psychological "aspects" whose weights evolve under
stimuli, energy, memory and personality, exposed to a JavaScript front end
through Node-API.

- `src/` is the library verified with Verus: the Xoshiro256+ generator with
  SplitMix64 seeding (its state is never all-zero), name resolution of the
  configuration, the phase and flow state machines, the cascade walk through
  the interrelation graph, the names a status line lists and how it is read back, the
  profile names and bounded histories.
- `app/` is ordinary Rust around it: every computation on `f64` weights (the
  dynamics, energy, memory, personality, behavior scoring and analysis), the
  JSON messages and the Node-API functions.
- `tests/` exercises the library.
