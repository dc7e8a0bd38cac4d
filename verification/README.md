# handy_notes

The notes of a dictation notepad, verified with Verus.

`src/` is the library:

- `store.rs` — `NotesManager`, every note and block with the id sequences,
  its view `StoreView`, the queries (`list_notes`, `search`, `get_note`,
  `get_block`, `next_position`) and the operations that change it.
- `changes.rs` — what each operation does, stated over `StoreView`.
- `laws.rs` — properties across operations (one default note, the default
  note is never deleted, appended and moved blocks go last, edits read
  back, splits leave no empty block, fresh ids, blank search lists all,
  snippet length and idempotence).
- `like.rs` — the `LIKE` matching behind search and the escaping that makes
  a query match literally, with the proofs that it does and loses nothing.
- `text.rs` — whitespace, trimming, snippets, the rest of a split block.
- `order.rs` — sorting rows by a lexicographic key.
- `model.rs`, `block_source.rs`, `requests.rs` — records and their views,
  the change each operation reports and the notifications it owes, source
  tags, checks on requests.

Every operation that stamps a time takes it as an argument; app/ reads the
clock.

`app/` keeps the notes in SQLite: it reads the rows into the store, lets the
store decide, writes the rows back in one transaction and sends the
notifications for the change the store reports; it also holds the window commands and the bridge to the
on-device language model.
