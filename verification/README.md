# sine_one

A polyphonic sine-wave synthesizer, verified with Verus, and its CLAP plugin.

- `src/` is the synthesizer. `src/dsp/` holds the parts of a voice (oscillator,
  envelope, wavefolder, lowpass gate, panning, smoother) and the voice itself;
  `src/plugin.rs` plays events on voices and mixes them; `src/params.rs`
  describes what the user controls.
- `src/scalar.rs` and `src/formula.rs` are the ground of the contracts. The
  signal path is generic over a number type of which nothing is assumed; a
  contract says which operations are applied to which operands.
- `src/laws.rs`, `src/agreement.rs`, `src/blocks.rs` and the `law_` functions
  beside the types state what holds of the synthesizer as a whole. A law that
  needs something of the arithmetic asks for it in its `requires`, and says there
  what of it is IEEE arithmetic and what is assumed of sine, exponential and power.
- `src/reading.rs` reads numbers as reals with an error per operation, for the laws
  on curves, ranges and times.
- `app/` is the plugin around it, on single-precision floats.
- `tests/` runs the library on single-precision floats.

## Parameters

| Parameter | Range | Default |
|---|---|---|
| Fine Tune | -100 to 100 ct | 0 |
| Attack | 1 to 5000 ms | 10 |
| Release | 1 to 10000 ms | 300 |
| Start Phase | 0 to 360 degrees | 0 |
| Fold | 0 to 100 % | 0 |
| LPG | 0 to 100 % | 0 |
| LPG Cutoff | 20 to 20000 Hz | 20000 |
| LPG Resonance | 0 to 100 % | 0 |
| Voices | 1 to 8 | 1 |
| Output Gain | -24 to 12 dB | 0 |
