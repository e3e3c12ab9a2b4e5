# evogait

A QWOP-style 2D biped and a CPU-only evolution trainer. The verified
library (`src/`) holds the integer and text logic of the project; the
floating-point physics, scoring and I/O live in `app/`.

## Layout

- `src/rng.rs` — xorshift64 generator; seeded streams never reach zero.
- `src/keys.rs` — the Discrete-9 key vocabulary, motor press decisions,
  loop-slot and replay lookups.
- `src/runner.rs` — lead tracking and key-switch counting of the feedback
  runner.
- `src/evolve.rs` — random key loops, mutation, beat repair, elitism and
  breeding.
- `src/text.rs`, `src/keylist.rs`, `src/args.rs`, `src/policyfile.rs`,
  `src/gaitfile.rs` — white space, splitting, decimals, key lists,
  command-line flags, the policy checkpoint file (with a proved read-back
  of what is written) and the FORMAT v2 gait file.
- `app/` — the rigid-body sims, the feedback policy clock, the trainer
  binary and the browser bindings.
- `tests/` — tests of the library.

## FORMAT v2

Gait files carry `format: 2`, `fps: 30`, the 12 body names, the evolved
key loop (`0` none, `1` Q, `2` W, `3` O, `4` P, `5` QW, `6` QP, `7` WO,
`8` OP, each held for the loop hold in physics steps), the torso travel,
whether the sample fell, and up to 240 frames of 12 × `[x, y, angle]`.
Renderers must reject any other format number.
