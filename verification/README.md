# ctypst

Deterministic measurement and export logic for embedded Typst, verified
with Verus.

- `src/` is the verified library:
  - `measure` — the `ctypst-measure-v1` client: request validation, format
    normalization, the exact-request result cache, miss batching, and the
    checks on the measurement program's answer (`MeasureClient::measure_all`
    plans a measurement, `MeasureClient::absorb` takes the program's answer).
    Floating-point values travel as binary64 bit patterns; the client is
    built with the budget rounding kernel, and the leading rounding kernel
    is passed to `measure_all` and `validate`, which resolve the leading
    themselves. The client's invariant keeps every cached
    result sound: the item's id, at least one line, finite non-negative
    dimensions, and the kernel's budget.
  - `fnv` — FNV-1a 64, used to identify font packs.
  - `float_bits` — classification of binary64 bit patterns.
  - `format` — Typstyle formatting with a clamped width and one final newline.
  - `pdf` — the deterministic document timestamp and the PDF header check.
  - `raster` — page selection and RGBA buffer checks.
  - `query` — metadata label admission.
  - `fonts` — the bundled font pack's license and face list.
  - `error` — the crate's error type.
- `tests/` exercises the library, including the batching and caching
  contracts against a scripted measurement program.
- `app/` holds the host side: serde shapes of the protocol, the
  floating-point kernels, a displayable error type, and the loop that runs
  miss batches through a caller-supplied Typst runner.
