# rco

The verified core of the Reflexive Control Overlays protocol, written in
Verus.

- `src/` is the library. Every function in it carries a contract that Verus
  proves: the canonical Bencode codec and its round-trip laws, the quorum
  bookkeeping of the consensus layer, the enclave emulation (attestation,
  identity export, reserved-memory pruning, the secure shunt), the entropy
  gate's decisions, the stretched Merkle forest and its sparse audit, the
  forensic finality chain, the write-ahead-log record format, and threshold
  cryptography over BLS12-381 (secret sharing, Feldman commitments, signature
  aggregation). Hashing, randomness, the system clock and curve arithmetic are
  done by the outside crates `sha3`, `sha2`, `getrandom`, `rand`,
  `rand_chacha` and `bls12_381`, through small trusted wrappers whose
  contracts are stated next to them.
- `app/` holds what the library leaves to ordinary Rust: floating-point
  geometry (alignment, drift, gradient consensus, Shannon entropy, thermal
  models), hardware probing, memory-mapped log access, serializable reports
  and the C interface.
- `tests/` exercises the library with the real outside crates linked.
