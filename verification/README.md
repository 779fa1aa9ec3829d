# otel_expohisto

Exponential histograms with automatic rescaling, verified with Verus.

A value lands in bucket `i` at scale `s` when it lies in `(2^(i/2^s), 2^((i+1)/2^s)]`. All
histograms live in a fixed pool of 64-bit words. Counters start one bit wide and widen as they
fill; when the buckets no longer fit the pool, the scale is lowered, which merges neighbours.

Floating-point values enter the library as their bit patterns. What needs floating-point
arithmetic (sums, boundaries at positive scales, interpolation) is done by the caller.

## Layout

- `mapping`, `lookup`, `edges`, `exponent`, `newrelic`, `dynatrace`, `logarithm`, `boundary`,
  `float64`: scales, bucket indices and boundaries.
- `histogram`, `pn`, `quantile`: the adaptive histogram, its variant for both signs, quantiles.
  `window`, `window_ops`, `downscale`, `settle`, `merge` hold what they are built of.
- `sketch`, `sketch_pn`, `sketch_view`: the fixed-scale variant that collapses its low side, with
  `collapse` below it.
- `flat`: the flat-layout histogram that keeps its first values as they are, with `layout`,
  `cells`, `buckets` and `replay` below it.
- `aggregator`, `precision`: histograms of selectable resolution and counter width.
- `counts`, `lane`, `swar`, `width`, `bucket_width`, `stats`, `arith`: shared models and tools.
- `histogram_laws`, `pn_laws`, `flat_laws`, `sketch_laws`, `sketch_history`, `sketch_ranks`: what
  holds across operations.
- `report`, with `app/`: a command-line tool that prints a histogram in canonical form.
