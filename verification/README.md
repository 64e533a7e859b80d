# game

The rules of a small top-down multiplayer shooter, verified with Verus.

- `src/proto`, `src/codec`, `src/socket.rs`: the UDP wire protocol. `encode`
  and `decode` are stated over byte sequences; `codec::laws` proves that
  decoding what was encoded gives the packet back and that a datagram cut
  short is refused with `UnexpectedEof`.
- `src/server`: the lobby (connect, teams, match start, disconnect), the
  round rules, who appears in whose snapshot and the snapshot packet itself,
  and the laws that span them.
- `src/rooms`: room and doorway detection on a blocked-cell grid (outside
  flood fill, connected components, door clusters, sealing, gap links).
- `src/weapon`: attachments and their catalogue, weapon classes, and the
  buy-menu state machine of a weapon loadout.
- `src/input.rs`, `src/player.rs`, `src/movement.rs`, `src/camera.rs`, `src/spatial.rs`,
  `src/level.rs`, `src/text.rs`: smaller pieces of client logic.
- `app/`: the UDP server program (tokio sockets, clock, floating-point
  movement and the JSON files), built on the library.
- `tests/`: tests run against the compiled library.
