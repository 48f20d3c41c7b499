# ship_server

The server of a multiplayer spaceship game: players connect over
WebSocket, fly ships built from parts around a small solar system, pick
up cargo, and beam their ships in and out through an account service.

The library under `src/` holds the game's logic, with contracts proved by
Verus:

- `wire`, `codec` — the binary messages between client and server, with
  their encodings and the laws that reading gives back what was written.
- `websocket`, `handshake` — the WebSocket upgrade request and its answer,
  frame headers, masking and framing, and the writer's queue of bytes.
- `parts`, `world`, `player`, `game` — ships as trees of parts, thrust and
  power, attaching and cutting loose, planets touched, cargo turned into
  parts, broken attachments, the tick's countdowns, the table of planets,
  and the server's notices of players coming and going.
- `beamout` — which parts a saved ship keeps, and the service's addresses.
- `session`, `sessiond` — what a connection's reader, the serializer and
  the session daemon decide, as state machines that return the actions to
  perform.
- `storage7573` — the tag a physics body carries.

The program under `app/` runs those decisions: sockets and tasks
(async-std), the account service (surf, serde), and the rigid-body
physics (rapier2d), which computes on floating point.
