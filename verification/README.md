# dtp_utils

Verified building blocks of the DTP block-transfer test tools (a QUIC client and
server that send and time blocks of data, and a TCP client that cuts the byte
stream back into blocks).

- `src/` is the library, proved with Verus: the byte ring (`loopbytes`), the
  block header and record (`block`), the stream parser (`streamparser`), the
  four-byte block count (`wire`), retry tokens (`token`), the server's per-block
  send parameters (`config`), block-trace lines (`trace`), hex dumps (`hex`),
  the decisions of the server's and client's loops (`session`), and the clock
  (`clock`).
- `app/` holds the two programs: argument handling, sockets, the QUIC
  connection, logging and the block-trace reader.
- `tests/` runs the library on concrete values.
