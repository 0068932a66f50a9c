# bench_uring

A throughput benchmark for TCP servers built on several async runtimes
(tokio, tokio-uring, monoio) against tokio clients.

- `src/` is the verified library: the bench plan (which examples exist, every
  server/client pair under every setting, in random order), the run
  configuration and the environment variables that carry it to child
  processes, the servers' per-read decision and request statistics, the
  summary line they print, the parser that reads it back into a
  `Throughput`, the ranking of the results, and a whole bench as a sequence
  of steps (`run.rs`).
- `app/` runs it: cargo invocations, child processes, the CSV output, and
  the servers and the client themselves (`--example NAME` runs one).
- `tests/` exercises the library on concrete values.
