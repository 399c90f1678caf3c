# quantam_fs

The backend of a local-first, end-to-end encrypted shared file system,
written in Verus: the logic is executable Rust whose behaviour is stated in
`requires` / `ensures` contracts and proved.

One member of a vault, the host, holds the full replica and commits every
change as a numbered control record; members talk to each other over
pairwise sessions keyed with post-quantum primitives (ML-DSA-65 signatures,
AES-256-GCM packets), and a directory service only relays signed
advertisements.

## Layout

- `src/` — the verified library.
  - `ids`, `wire`, `text`, `error`: identifiers, big-endian framing
    helpers, string helpers, the error type.
  - `crypto`: hashing, signing, AEAD and key wrapping. Calls into the
    RustCrypto crates stand behind small trusted wrappers whose contracts
    name what the outside function returns.
  - `encoding`: the byte formats (identity documents, control packets,
    manifests, mailbox frames, join and admission messages, the durable
    replica snapshot) as functions on bytes with exact contracts.
  - `protocol`: manifests, packet replay windows, have queries and pulls.
  - `store`: the directory tree, chunk stores, vault layout, the durable
    replica state and what reopening a store keeps of its files.
  - `net`: frames, sessions and sealed packets, joining and the decisions
    around it, the directory service, admin commands, display-name profiles.
  - `sync`: the host's commit of uploads and saves, holder discovery, pulls.
  - `daemon`, `keystore`, `demo_log`: the decisions the daemon takes around
    its files and its log.
- `tests/` — tests run against the compiled library with the real outside
  crates.
- `app/` — the `qfsd` binary: command line, files and sockets around the
  library.

## Properties

Beyond the contracts of each function, the library proves laws such as: a
written replica snapshot reads back with its header, digest and body; the
records of one committed upload take consecutive ids and a refused upload
changes nothing; holders found are always among the candidates asked; every
tree reopens from its own entries after any link, unlink, rename or removal;
and the replay window and directory stores keep their invariants under every
operation.
