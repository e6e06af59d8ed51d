# symplectic_test

An eight-site integer lattice whose dynamics run in two's-complement `i64`
arithmetic, together with a two-pass admission gate for momentum transactions.
The library is written in Verus; every function in `src/` carries a proved contract.

- `src/lattice.rs`: the lattice state, its energy, the symplectic update and its inverse.
- `src/lifting.rs`: the lifting transform and its inverse.
- `src/admission.rs`: transactions, the admission metric, the two-pass batch gate and
  the unwinding of admitted transactions.
- `src/batch_laws.rs`: properties of whole batches.
- `src/decisions.rs`: the order in which a batch is decided and the test that decides each transaction.
- `src/ordering.rs`: the order in which a batch is visited, and a merge sort.
- `src/arith.rs`: `i64` arithmetic as arithmetic modulo 2^64.
- `src/xrpl_feed.rs`: decoding of ledger-stream messages into events.
- `app/`: the command-line simulator, the live ledger-stream runner and terminal
  dashboard, and the floating-point lattice engine they drive.
