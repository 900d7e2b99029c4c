# rustsocket_server

A websocket game server: clients connect, choose a name, chat in a lobby,
open or join password-protected rooms of up to six players, and play in a
shared world whose state is sent back to them every frame. Messages are
protobuf, prefixed by a one-byte header.

## Layout

- `src/` is the verified library, checked by Verus.
  - `proto/` is the protobuf codec of the client messages: `wire.rs` holds
    the calls into `quick_protobuf` and their contracts, `fields.rs` reads a
    buffer field by field and writes fields, and `proto_all.rs` holds the
    messages, each with an encoder and a decoder; every message that can be
    read back decodes to what was written.
  - `lobby.rs` is the lobby: the numbering of clients and rooms, with ids
    handed back for reuse, the name rules, room creation and joining, and the
    messages sent from the lobby. `lobby/step.rs` handles the lobby's events:
    from the lobby and an event to the next lobby and what is to be sent.
    `lobby/lobby.rs` is a simpler lobby that holds clients only.
  - `connection.rs` reads what a client sends: the handshake, lobby requests
    and game messages.
  - `game.rs` and `room.rs` keep the players of a game and frame its chat and
    snapshots; `ecs/` holds the per-player snapshots.
  - `text.rs` holds the names shown in chat, the name rules and the errors
    reported to clients.
- `tests/` runs the library on concrete values.
- `app/` is the server itself: sockets, tasks and channels (tokio,
  tungstenite), and the game world with its floating-point positions (specs).
  It hands the library plain values and sends what comes back.
