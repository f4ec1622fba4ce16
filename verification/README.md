# atc

Asynchronous text channels over TCP: a server dispatches messages to clients
that identify themselves with a job id; messages for clients that are not
connected wait in per-channel queues.

- `src/` is the verified library (Verus):
  - `frame.rs`: the byte-stuffed wire framing (`0x7e` flags, `0x7d` escapes),
    its encoder and streaming decoder, and the proof that encoded frames are
    read back unchanged when they are non-empty and hold neither `0x5d` nor
    `0x5e` (bytes the decoder drops where no escape precedes them);
  - `command.rs`: the text commands (`@identify<id>`, `@terminate<id>`,
    `@message<id>text`, `@ping`, `@pong`), their grammar and the proof that a
    well-formed command sent over the wire arrives as itself, provided its
    message holds neither `]` nor `^`;
  - `channel.rs`: the queue of one channel (`ChannelInfo`);
  - `dispatch.rs`: the server's queues, the flush that picks one message per
    channel and pass, where the owner's commands go, and the laws over runs
    of passes (in-order delivery, dropped queues stay gone);
  - `registry.rs`: the server's map from connected channel ids to senders;
  - `listener.rs`, `connector.rs`, `client.rs`: the decisions of the server's
    connection handlers, of the client's connection and of its reconnects.
- `app/` is the asynchronous plumbing (tokio tasks, sockets, timeouts,
  logging): `Server`, `Client`, `create_listener`, `create_connector`, and the
  two example programs.
- `tests/` runs the library on concrete values.
