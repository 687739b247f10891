# stemsplits

Four-stem separation with the HTDemucs network, verified with Verus.

`src/` is the library. Every numeric routine is written over any pair of real
formats (`arithmetic::Arithmetic`), so its contract says which operations are
applied to which operands, and in which order, down to the last entry of the
network's output. Nothing is assumed of the operations but that each returns
the value of its own specification function (`arithmetic::lawful`). For
32-bit floats that is taken for granted: the standard library leaves open how
precise its exponentials, logarithms, powers, sines and cosines are, and which
payload a not-a-number carries, so the contracts speak of those operations as
the machine at hand performs them.

- `demucs`, `seam`: the stems, the chunk plan and the overlap-add seam.
- `wav`, `bytes`, `text`, `noise`: 16-bit PCM, little-endian numbers, names,
  deterministic noise.
- `weights`, `parameters`, `roster`: the weight bundle, loading by name, and the
  names that a whole network is loaded by.
- `tensor`, `index`, `layout`: row-major tensors and moving entries about.
- `matmul`, `ops`, `conv`, `conv_transpose`, `attention`, `embedding`,
  `moments`: the primitive operations.
- `dconv`, `encoder`, `decoder`, `layers`, `transformer`, `model`: the network.
- `separate`: a whole track, segment by segment.
- `order`, `chunks`, `samples`, `tokens`, `agreement`, `adjoint`, `rings`: laws
  that span several of these: segments in any order, chunks that are skipped,
  samples that stay apart, tokens in another order, norms that agree, and the
  transposed convolution as an adjoint.

Each layer has a specification `output` of what it computes, a predicate
`admits` on the shapes that it can be computed on, and a function `takes` or
`shape_of` that decides that predicate.

`app/` is the command line around it: files, 32-bit floats and the short-time
Fourier transform of the `stemsplits_stft` crate. `tests/` runs the library on
32-bit floats.
