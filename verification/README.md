# mqtt_broker

A small MQTT 3.1.1 broker (QoS 0 and 1, `+` and `#` wildcards; no retained
messages, no will messages, no persistence) whose packet codecs, topic routing
and per-connection decisions are verified with Verus.

## Layout

- `src/buffer.rs` — the `bytes` buffers as the codecs see them: each call into
  the crate goes through a wrapper whose contract speaks of the bytes a buffer
  holds.
- `src/packet/` — the fixed header (packet types, QoS, the remaining-length
  field, framing) and the CONNECT/CONNACK, PUBLISH/PUBACK,
  SUBSCRIBE/SUBACK/PINGRESP packets. Each decoder is specified by a spec
  function over the input bytes, each encoder by the bytes it appends, and the
  round trips are proved as lemmas.
- `src/router/` — topic matching (`topic.rs`), the routing table with its
  model `RouterView`, channels included (`mod.rs`), and the laws of routing
  (`laws.rs`): who receives a message, on which channel, at which QoS, under
  which packet identifiers, and the invariant every operation keeps. A publish
  is planned (`plan_deliveries`), handed to the channels, and acknowledged
  from what the channels answered (`acks_from`).
- `src/client.rs` — what a connection decides for each packet: accepting a
  client, answering a SUBSCRIBE, acknowledging a PUBLISH, which action a
  packet type calls for, and what is forgotten when a connection ends.
- `app/` — the program around the library: the TCP listener, one task per
  connection, the router behind a lock, logging, and the error types with
  their `Display` impls.

## Running

The program listens on `0.0.0.0:1883`. The library's tests are under `tests/`.
