# candle_pitch

Pitch detection for monophonic (CREPE, Swift-F0) and polyphonic (Basic Pitch)
audio, with the decoding and bookkeeping logic verified in Verus.

## Layout

- `src/` — the verified library. Model outputs enter it as *order keys*:
  integers that compare exactly as the floating-point activations do, since
  every decision the logic makes about them is a comparison.
  - `select` — first/last argmax, clamped index windows
  - `crepe`, `viterbi` — CREPE capacities and decoders, the transition band,
    the choice of predecessors and reading the best path back
  - `framing`, `cqt`, `conv`, `inference`, `swift_f0` — zero/reflective
    padding, framing, "same" padding, splitting long audio into overlapping
    windows and joining the per-window outputs
  - `notegrid`, `postprocess` — polyphonic note extraction: onset peaks,
    forward/backward energy walks, the global-maximum sweep, pitch-bend windows
  - `notes` — splitting a pitch track into runs of voiced frames
  - `options` — command-line choices and their mapping onto the model settings
- `app/` — the command-line tool and the floating-point parts: the candle
  networks, spectra, Viterbi log-probabilities, averages, audio I/O, plotting.
- `tests/` — tests of the library on concrete values.
