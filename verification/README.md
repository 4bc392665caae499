# tools

Tools for a puzzle in which containers are put into a square yard and taken
out again: reading instances and answers, generating random instances,
carrying out and scoring an answer, and drawing it.

- `src/` is the library, verified with Verus. Its contracts state exactly what
  each function returns; the proofs cover the search for walkable squares, the
  simulation and its score, the text formats and the layout of the picture.
  A generated instance is stated as a function of the seed, through names for
  what the seeded generator of `rand_chacha` draws.
- `app/` holds what stays outside the verifier: the score as a floating-point
  number, the colour scale and the SVG drawing of the picture that `src/` lays
  out.
- `tests/` runs the library on concrete cases.
