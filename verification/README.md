# whitenoise

Samplers for differentially private statistics, with proofs.

- `src/` is the library. The samplers draw bytes from OpenSSL, or from a script that is
  replayed, and their contracts say what they return as a function of the bytes that they
  drew. The functions named `law_...` state what that has to do with the distributions: a
  coin of bias p falls on heads with probability p, each whole number between two bounds is
  picked by exactly one buffer, and so on.
- `app/` does the floating point arithmetic around it: quantile functions, scaling, and the
  samplers on top of MPFR (feature `use-mpfr`).
- `tests/` runs the samplers on random and on replayed bytes.

| module | what it holds |
| --- | --- |
| `source` | where random bytes come from |
| `coin` | fair and biased coins |
| `uniform` | uniform whole numbers and doubles |
| `geometric` | censored geometric draws, the geometric mechanism |
| `distribution` | how likely each geometric draw and each noise is |
| `truncated` | rejection of draws outside of two bounds |
| `snapping` | precision and clamping of the snapping mechanism |
| `generator` | random words for MPFR |
| `double` | double-precision numbers by their bit patterns |
| `bytes` | numbers written as bytes |
| `properties`, `theil_sen` | properties of values, and of a robust regression |
| `error` | errors and their texts |
