# Far From Fatality

A four-player action game with procedurally generated rooms, played over a
LAN. This crate holds its game logic, verified with Verus; `app/` holds the
Bevy program around it.

## Layout

- `src/reliable.rs`, `src/slice_constructor.rs`, `src/packet.rs`,
  `src/payload.rs`: the reliable message channels of the network layer.
  Senders keep every message until it is acknowledged and send it again
  after the resend time; large messages travel in slices. Receivers take in
  each message id once and hand messages out in order of message id when
  the channel is ordered.
- `src/delivery.rs`, `src/reassembly.rs`: what the channels promise across
  operations (ordered delivery, copies of a message ignored, slices rebuilt
  in any order, acknowledgement frees the memory and stops resending) and
  of each send pass (packets numbered in turn, the allowance spent on what
  they carry, small messages in id order within a slice's size, only what
  is due sent, nothing again before the resend time, everything due sent
  when the allowance covers the queue).
- `src/room.rs`, `src/tiles.rs`: room generation, the depth-first search
  that decides whether a room can be crossed, and the tiles each room places.
- `src/level.rs`: the sequence of rooms, from the first room to the boss.
- `src/collision.rs`, `src/enemy.rs`, `src/player.rs`, `src/network.rs`,
  `src/menus.rs`: the decisions of the game systems, on plain values.
- `tests/`: tests of the library on concrete values.
- `app/`: the Bevy systems, which measure distances and times in floats,
  ask the library what to do and apply the answer.
