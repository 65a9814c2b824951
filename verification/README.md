# ailets

The core of an actor runtime, verified with Verus: a DAG of actor nodes and
their dependencies, pipes between actors over a key-value store of byte
buffers, the decisions of the executor that starts actors as their inputs
become available, and the runtime interfaces that actors read and write through.

Layout:

- `src/` — the verified library. Each module states its behaviour in
  `requires`/`ensures` over spec functions and views; laws that relate several
  operations are public proof functions (`lemma_*`), most of them in
  `pipe_laws.rs`, `executor.rs`, `kv.rs`, `fd_table.rs` and `scheduler.rs`.
  Calls into `base64` and `serde_json` stand behind trusted wrappers in
  `dagops.rs`.
- `tests/` — tests run against the compiled library.
- `app/` — host-side glue that Verus does not check: FFI to the host, the
  tokio executor loop, channels of the notification queues, `embedded_io`
  adapters and error types with their derives.
