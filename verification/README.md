# wsm_toys

Small single-threaded containers and helpers, written in Verus with their
behaviour stated as contracts and proved.

`src/` is the verified library:

- `colony`: a generational table of values in groups of 64 slots; handles
  carry a generation, so a removed value's handle never matches again, and
  inserts fill free slots below the tail before taking new ones.
- `lru`: a least-recently-used map over a hashbrown table.
- `localpool`, `pool`, `thinpool`, `heappool`: object pools.
- `rcnode`: reference-counted nodes with an optional next node, in an arena.
- `locallock`: the state machine of a lock that queues waiters in order.
- `bithack`: a bit slice whose `set` only ever turns bits on. Its range
  reversal and rotation are built from swaps through `set`, so a swapped
  pair ends up set if either bit was; long ranges are rewritten word by
  word. The contracts state exactly what results (`reverse_range_spec`).
- `par_sort`: chunked merge sort; `fft`: the index permutation of a radix-2 FFT.
- `echoip`: the answers of a server that echoes the visitor's address.
- `plain`, `rpc`, `bath`: copy-on-write access to plain values, the polling
  decisions of worker tasks, and the records of a bath-status service.

`app/` holds what the verifier does not take: the servers, the SQLite store,
threads, floating-point kernels and raw memory helpers.
