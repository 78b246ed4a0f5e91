# parsync core

The verified core of `parsync`, a resumable sync tool with optional
block-delta transfers and an RDMA fast path.

- `src/delta/checksum.rs`: the rolling weak checksum and the MD5-based
  strong block hash; sliding a window gives what recomputing it gives.
- `src/delta/signature.rs`: block sizes and basis-file signatures.
- `src/delta/matcher.rs`: the delta matcher, with the segments it cuts a
  source into, and proofs that they tile the source and that an unchanged
  source is sent as copies.
- `src/delta/protocol.rs`, `src/remote_helper.rs`: the helper's messages and
  request check.
- `src/rdma/`: RDMA settings, the packet format (with its round-trip proof),
  dotted-quad addresses and session tokens, and the sender and receiver rules
  with the proof that what a sender sends a receiver takes in.
- `src/text.rs`: hexadecimal text written and read.
- `app/`: the helper programs' I/O: standard input and output, files, sockets
  and the rdma-core rsocket transport.
- `tests/`: tests of the library.
