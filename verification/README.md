# sovits_svc

Singing voice conversion: content, pitch and loudness of a recording are
extracted, a generator makes a waveform of them in another voice, and the
waveform can be refined by shallow diffusion or by flow matching.

- `src/` holds the rules, verified with Verus: which tensors a checkpoint must
  have and where each goes, how lengths, frames and shapes follow from one
  another, how a recording is resampled, cut into slices, planned and put
  together again, how an upload is read and decoded, and the layout of the
  WAV files that are written.
- `app/` runs the plans: it loads arrays, decodes files and computes on
  single-precision arrays.
- `tests/` runs the library on concrete values.

Numbers in single precision appear in `src/` by their bit patterns
(`single::Single`). Where a length or an index comes of floating-point
arithmetic, `rounding` and `lengths` compute it with integers and state the
rounding of each operation.

A conversion in slices puts silence around each piece and cuts as much off the
converted piece again. With a padding of zero seconds nothing is kept of a
converted piece, and silence of its length takes its place.
