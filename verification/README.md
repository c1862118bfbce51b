# mysql_io

The byte-level layer of the MySQL client/server protocol, verified with Verus.

- `src/format.rs`: the formats, as functions from bytes to values and back.
- `src/source.rs`: what is read from. A slice is a stream that has ended;
  `Arrived` is the beginning of one that may still be open.
- `src/read.rs`: the trait `Read`, which every source has. On an open stream a
  read that runs out of bytes says how many are missing at least.
- `src/write.rs`: the trait `Write`, which lays the formats out in memory, and
  `PacketWriter`, which hands a packet out frame by frame to be sent.
- `src/stream.rs`: the connection, over a Unix socket, a named pipe or TCP, and
  its way from a bare socket to a TLS session.
- `src/le.rs`, `src/laws.rs`: little-endian numbers, and what holds of the formats.
- `app/`: the same over the readers, writers and sockets of the system. It fetches
  the bytes that are missing, sends what was laid out, and shakes hands.

Floating-point columns are handed out by their bits; `app/` turns them into
numbers.
