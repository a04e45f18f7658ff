# telemetryd

Decoding of telemetry and the query languages over it, with the behaviour stated in
`requires` and `ensures` contracts and proved by Verus.

- `src/` is the library.
  - Ingest: OTLP records from JSON or protobuf (`otlp`, `logs`, `traces`, `otlp_metrics`,
    `otlp_protobuf`, `protobuf`), Prometheus remote write (`remote_write`), request
    compression (`compression`), what a request may hold (`decoded`, `pool`), and the way
    back out (`otlp_encode`, `pb`, `roundtrip`). `wire` states the protobuf encoding of OTLP
    and that the decoders read it, and `jsonback` that what is written as JSON reads back.
  - Query: the tokenizer (`lexer`), LogQL, PromQL and TraceQL (`logql`, `promql`,
    `traceql`), PromQL evaluation (`promeval`), and the Loki, Prometheus and Tempo APIs
    (`loki`, `prometheus`, `tempo`, `meta`).
  - Shared: labels, matchers, records, texts, times, doubles by their bits, and decimal
    numbers by the doubles nearest to them (`nearest`).
- `app/` is the edge: JSON bodies, floating point, the shared pool and the store.
- `tests/` runs the library.

A double is a `u64` of its bits throughout the library. Where a result depends on
floating-point arithmetic, the function takes that arithmetic as an argument and its
contract speaks of what the argument computes.
