# bgc — Battlegrounds companion library

A native Linux companion for Hearthstone Battlegrounds: it tails `Power.log`
from the Proton prefix, keeps the state of the current match (phase, lobby
races, the last board of each opponent), offers a tier browser over the
current minion pool, and records one `combat_v1` document per combat.

## Layout

- `src/` — the library, each function with its contract and proof.
  - `seq_facts.rs`: facts about sequences shared by several modules.
  - `text.rs`: trimming, substring search, splitting of race lists, joining,
    decimal rendering and the code-point order of names.
  - `state.rs`: `GameState`, `Event` and `apply`, with laws on what each
    event keeps and forgets; states compare by their boards per player,
    whatever the order the opponents were met in.
  - `logs.rs`: log candidates, `parse_line`, the lines of appended text and
    the position bookkeeping of `LogTailer`.
  - `catalog.rs`: cards, the pool taken from the card database (filter,
    stable sort by tier and name, removal of repeated ids), the tier/race
    filter, the fixture, and the choice between fetched, cached and fixture
    data.
  - `utc.rs`: the Gregorian calendar and RFC 3339 UTC timestamps
    (`YYYY-MM-DDTHH:MM:SSZ`) of seconds since the Unix epoch.
  - `telemetry.rs`: `CombatDoc`, its construction and its timestamp.
  - `overlay.rs`: the snapshot handed to the overlay and its row texts.
  - `session.rs`: the main loop's decisions and status lines.
- `app/` — the program around it: file and network I/O (HearthstoneJSON
  download, card cache, SQLite store), JSON encoding and decoding, the GTK4
  layer-shell overlay and `main`.
- `tests/` — tests of the library.
