# dbstrike

The logic of a multi-model store for agents, verified with Verus: the wire protocol, agent
memory and retrieval, reducers on a metered machine, replicated counters and clocks, change
capture, a cache debugger, the planning of accelerator work, and the benchmarks' bookkeeping.

- `src/` is the library. Every function in it has a contract, and Verus proves each one but four
  that only call the standard library and whose contracts are believed: `lossy`, `utf8_text`,
  `lowered` and `is_alphanumeric`. The laws that span functions are the public proof functions
  whose names begin with `law_`.
- `tests/` runs the library on concrete values.
- `app/` is ordinary Rust around it: sockets, files, clocks, threads, floating point and the
  driver of an accelerator.

An `f32` is held in the library as its bits; `order.rs` says how those are compared, `ratios.rs`
what share of a count they make. Times,
random draws and the results of devices come in as arguments, so what is proved holds for each
of their values.

## Modules

| area | modules |
| --- | --- |
| numbers | `order`, `rates`, `ratios`, `rounding` |
| bytes and text | `codec`, `drain`, `reply`, `resp`, `scan`, `text`, `tokens`, `wire`, `words` |
| store and replication | `crdt`, `hlc`, `maps`, `reactive`, `store`, `tiered` |
| reducers | `reducer`, `vm` |
| agent memory and retrieval | `graph`, `memory`, `memory_keys`, `rag`, `recall`, `router` |
| accelerator | `coalesce`, `corpus_tier`, `gpu_*`, `knn*`, `vugva` |
| graphs and precision | `edges`, `kv_prune`, `precision` |
| model runtime | `engine`, `opusedge` |
| tools | `agent`, `chat`, `dashboard`, `layout`, `memtrack`, `mitm`, `options` |
| benchmarks | `bench_*`, `dataset`, `stats`, `truth`, `workload` |
