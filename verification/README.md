# splix

The rules of a multiplayer territory-conquest game (a Splix clone), written
in Verus and proved against their contracts.

Players start in a corner with a small territory, leave a trail when they
move outside it, and claim the area a trail encloses when they come back.
Running into another player's trail kills its owner, who respawns inside
their own territory. A match holds at most four players, starts when
everyone in the lobby is ready, and lasts sixty seconds; the player with
the most territory wins.

## Layout

- `src/` — the verified library.
  - `shared.rs`: protocol types (players, messages) and their views.
  - `field.rs`: movement and clamping, grid cells, bounding boxes and the
    geometry of a claim.
  - `region.rs`: the breadth-first flood over the grid, proved to reach
    exactly the least closed region.
  - `board.rs`: the scoreboard order.
  - `client.rs`: the client's rules — lobby, messages, one frame of play,
    claims and stealing, respawns, the end of a match.
  - `server.rs`: the server's rules — joins and the lobby limit, readiness
    and the countdown, reports, deaths, the winner.
  - `conqr/`: the lighter conqr.io rules (no lobby, claims filled by
    scanline parity).
  - `rng.rs`: the calls into `rand`, with the contracts they are trusted for.
  - `laws.rs`: properties that span calls, proved over the rules' specs.
- `tests/` — tests of the library on concrete values.
- `app/` — the programs: TCP/UDP networking with `tokio`, `bincode` on the
  wire, the window with `ggez`. They perform the actions the library returns.

Positions inside the library are whole quarter pixels; the wire carries
pixels as `f32`.
