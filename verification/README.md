# reth_accel

The decisions of an accelerated Ethereum node, verified with Verus.

- `keccak`, `hashed_state`, `hash_table`: hashing of many items and of the state after a block,
  on the GPU where it pays and on the CPU where not.
- `bn254`, `precompiles`, `forks`: the BN254 precompiles of the EVM, with the GPU doing the curve
  arithmetic.
- `icicle`, `config`, `icicle_stats`: whether the GPU is used, what the command line says about
  it, and how often it was used.
- `warmup`: which tables of the database are read at startup, by how many readers, and what is
  reported.
- `storage`: opening a database, and moving its plain state to an environment of its own.
- `revmc`: which code runs a frame of the EVM.
- `table_access`: counts of table accesses.

`src/` is the library, `tests/` its tests, and `app/` the node's side of it: process-wide state,
threads, files, the command line and the GPU runtime.

The library calls `alloy-primitives` for Keccak-256, the `ark` crates for the checks of field
elements and points, `num_cpus` for the number of CPUs, and `revm` and `op-revm` for the numbers
of forks and the limits that go with them. What it takes from them is stated in the contracts of
the functions marked `external_body`, each beside its call.
