# unf-encryption

Verified contracts for a WireGuard-based pod encryption dataplane: the cluster
encryption model, attested per-Node encryption path contracts, Node key
authority and its durable checkpoint, public key transparency and attestation,
WireGuard kernel readback and snapshots, and the crash-recoverable map
transaction around the fast-path config flip.

Every value that becomes authority is checked by a function whose contract,
proved by Verus, states exactly when it is accepted and what it holds.

## Not included

- The fast-path transport compiler and packet-decision mirror, and everything
  that replays a fast-path map checkpoint (the generation frontier and its
  producer, the activation latch, generation
  distribution, reconciler and local orchestrator): they lower into the
  fixed-width records, flags and constants of the eBPF map ABI, which this
  library does not have.
- Fleet plan production, and the keyed Kubernetes projection with its policy
  facts: they rest on the fleet plan-cut types and the policy-observation
  projection, which this library does not have. The placement half of the
  Kubernetes projection is included.

Commitments are SHA-256 over this crate's own canonical byte framing (the
public-key digest over the domain, a zero byte, and the raw key), not over a
JSON encoding.

## Layout

- `src/` — the verified library.
  - `ids`, `address`, `text`, `digest`, `sorting`: revisions and identities,
    IP prefixes, text order, canonical byte framing with SHA-256, and the
    key order that canonical lists are sorted by.
  - `model`: the encryption model and its normalization.
  - `contract`, `replay`, `reorder`: issuing an attested encryption path
    contract, replaying it, and the laws that issuing is deterministic,
    replays, and does not depend on the order of its inputs.
  - `keys`, `key_authority`, `storage`: Node key epochs, rotation, drain,
    publication, and the owner-only checkpoint.
  - `recipients`, `key_transparency`, `key_attestation`: fleet transparency
    cuts and the attestation ledger.
  - `kernel_provider`, `netlink_readback`, `kernel_snapshot`: WireGuard
    kernel identities, decoding of netlink readback, and sealed snapshots.
  - `kernel_plan`: the WireGuard kernel plan (proof addresses placed from
    the IPAM proof beacons of the Node blocks, which the caller supplies),
    readback verification against a plan, and the proof-carrying kernel
    transaction with its recovery decision.
  - `fast_path_transaction`: commit vectors and the map transaction state
    machine with its recovery decision.
  - `kubernetes_projection`: validation of a Kubernetes Node cut and the
    exact, address-owned workload placement on it (proof beacons supplied
    by the caller, as for the kernel plan).
- `tests/`: executable tests of the library.
- `app/`: file-backed key storage with atomic writes, serde document copies,
  and the Linux netlink side of the WireGuard provider: readback that feeds
  the verified decoders, and apply, delete and prepared-stage rollback of a
  verified kernel plan.

Verify with Verus; the outside crates are `sha2`, `x25519-dalek` and
`getrandom` for the library, and `serde`, `serde_json`, `zeroize`,
`rtnetlink`, `genetlink`, the `netlink-packet-*` crates, `futures` and
`tokio` for `app/`.
