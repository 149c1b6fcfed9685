# token_wavelet

Token spending intelligence: wavelet decomposition of spending series,
one-sided budget conservation, and spectral analysis of how models are used
together.

- `src/` is the verified library (Verus). It holds the logic that does not
  compute on floating-point values: powers of two and mirror padding for the
  wavelet transform, the number of decomposition levels, model-name lookup and
  ordering, the pairing of spending periods with budgets, the layout of the
  correlation matrix, grouping of datapoints by model, co-occurrence counts,
  the structural-hole rule, community detection (union-find, proved to yield
  exactly the connected classes), and the spending-phase rule.
- `app/` is the command-line demo and the `f64` arithmetic around the library:
  the Haar and D4 transforms, interpolation, Pearson correlation, budget
  ratios, report formatting and JSON output.
- `tests/` runs the library on concrete values.
