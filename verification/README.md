# lotka_beats

Generative music from Lotka-Volterra population dynamics: musical genres are
species, their populations evolve under a generalized Lotka-Volterra model,
and the state of the ecosystem is turned into MIDI events, chords and fusion
genre names.

Layout:

- `src/` — the verified library (Verus). It holds the discrete logic of the
  project: the emptiness checks, the shape of the interaction matrix,
  stability classes of fixed points, fusion-genre names, MIDI event assembly
  in chronological order, chords, error messages, and the text export with
  its decimal formatting.
- `app/` — the floating-point simulation (RK4 integration, Shannon
  diversity, fixed points, eigenvalue estimates), the genre presets and the
  serde-enabled data types. It calls into the verified library for the
  logic listed above; what it keeps for itself works on floating-point
  values (the float-derived inputs of the library calls included, such as
  eigenvalue signs, share thresholds, note offsets and the printed tempo).
- `tests/` — tests of the library.
