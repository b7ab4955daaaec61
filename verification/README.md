# kfire_client

The logic of the KFIRE desktop client, verified with Verus: what the client
reads of games (Hearthstone's log, Rocket League's stats socket, League of
Legends' live API), what it sends to a KFIRE server and when, and the rules
around a server link (statuses, reconnection, linking, the tray's contents).

## Layout

- `src/` — the verified library. Every public function states what it
  returns in its contract; the laws (`law_*` proof functions) state what
  holds across calls.
  - `text.rs`, `order.rs`, `time.rs`, `payload.rs`: text, ordering, instants
    and the fields of an outgoing message.
  - `hs/`: the Hearthstone log parser, its config file, its log folders, and
    HDT's rating file.
  - `rl/`: Rocket League's frames, match summary, session and config file.
  - `lol/`: finding the member among League of Legends' players.
  - `scanner.rs`, `status.rs`, `ws.rs`, `api.rs`, `tray.rs`, `update.rs`:
    process matching, presence statuses, the presence connection's
    decisions, server errors and URLs, the tray, the update check.
- `tests/` — tests on concrete values.
- `app/` — the plumbing around the library: SQLite, HTTP, WebSocket, the
  process table, files and sockets.

Outside crates are called from `src/` only through a few small functions
whose contracts are trusted (`#[verifier::external_body]`): chrono's parsers,
`sha2`, `rand`'s jitter, `serde_json`'s test that a stored payload reads as
JSON, `str::to_lowercase` and `String::push`.

The desktop window, the drawing of the tray menu and start at login belong to
the desktop shell, which is not part of this crate: `tray.rs` computes what
the tray shows, and `status.rs` the pixels of its icon.
