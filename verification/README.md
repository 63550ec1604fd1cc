# senec-v3-collector

A collector for SENEC v3 home batteries: it discovers which keys a device answers, polls them,
decodes the device's hex-typed value tokens and exposes the results as Prometheus metrics.

The decisions are made in a library verified with Verus (`src/`):

- `text`, `order`: character-level string helpers and a code-point order on strings.
- `model`: the metric profile (objects and their keys, kept sorted) and the classification of a
  raw device answer.
- `decode`: splitting a reply into typed tokens and decoding each token's hex payload.
- `profile`: normalising a loaded profile (blank keys dropped, keys sorted and deduplicated, objects
  left without keys dropped).
- `scan`, `discovery`, `candidates`: finding object and key names in the web UI's script and
  pages, and building the set of candidate keys to probe.
- `query`: planning chunked requests and merging the device's replies.
- `poll`: turning one cycle's answers into the samples that get published.

`app/` holds the programs around it: the HTTP client, file and network I/O, the metrics server
and the floating-point economics accumulator.
