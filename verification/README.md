# nixe-cpu-jit

The decisions of a just-in-time compiler for A64 guest code, with their contracts
proved by Verus. The library plans code, places it, publishes it and takes it back;
it never touches executable memory, threads or the code generator itself. Those
belong to the host, which drives the library and lies under `app/`.

## Layout

- `src/abi` identities, dispatch payloads, keys, entry contracts and exit maps
- `src/analysis`, `src/decode` effects of instructions, register access, liveness
- `src/native` parallel moves and the transfer of state between entries
- `src/fp_policy`, `src/fp_env` when floating point runs on the host, and in which mode
- `src/executable` the code cache: budget, segments, spans, relocation
- `src/lifetime` admission, dispatch, units, publication, retirement and shutdown
- `src/simd` plans for vector and floating-point instructions, their host conditions
  and exact calls
- `src/direct` regions, their registers, flags and endings; faults, invalidation and
  the machines that compile and run a region
- `tests` scenarios over the public interface
- `app` the host: code emission, executable memory, threads

## What is taken on trust

The key index and the page index keep their items in hash tables of `hashbrown`.
What each call does to a table is stated beside its wrapper in
`src/lifetime/keys.rs` and `src/lifetime/pages.rs`; everything else is proved.
