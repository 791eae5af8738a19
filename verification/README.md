# auto_claw

A small multiplayer browser game: a wasm client that draws a town of zones
and boards, moves a player with the keyboard, and talks to the other players
over WebRTC data channels, and a server that hands out the game's files and
relays the clients' connection set-up over a websocket.

- `src/` is the game's logic, verified with Verus: the level file tokenizer,
  writer and loader, keyboard input, directions and colours, boards and
  tiles, the decisions of ally parties in zones, the screen's position store,
  the player update wire format, the connection set-up messages and what a
  client does with each, and the relay server's routing and bookkeeping.
  The `law_` proof functions state what holds across calls.
- `tests/` runs the library on concrete values.
- `app/` is the rest: the wasm bindings, WebRTC and websocket plumbing,
  float physics and progress, and the HTTP and relay server.
