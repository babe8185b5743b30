# input_synth

A verified library for the input synthesizer: it proposes bursts of game-pad
input for a search process, deterministically from a seed.

`src/` holds the verified core:

- `types`, `model`, `pad` — pad bursts, the pad legality model (exclusive
  groups, forbidden combinations, length bounds), legalization, and the
  token form of bursts.
- `encode`, `digest`, `rng`, `fingerprint` — the canonical wire bytes and
  ids of bursts, BLAKE3 digests, seeded stream derivation, and the config
  fingerprint.
- `compose`, `mutation`, `mixer`, `context` — composing direction and
  button tracks into segments, the integer mutation transforms, the records
  they write and the replay of one recorded integer operator, the mutation
  pipeline's clamp and retry decisions, slot layout, and history queries.
  Replaying a whole op list stays in `app/`, because the timing operator
  replays floating-point draws.
- `macros`, `ordmap` — macro-pack validation, the pack registry, and
  resolution of macros against a button alphabet.
- `config`, `validation`, `overrides`, `propose`, `documents` — the button
  alphabet, structural config validation and its messages, the deep merge of
  config overrides, proposal request checks, and load requests.

`app/` is the service shell: document parsing, the floating-point sampling
paths, metrics, HTTP and start-up. `tests/` exercises the library.
