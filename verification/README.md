# forkd

The decisions behind forkd, a tool that snapshots micro virtual machines and forks them, as a library
verified with Verus.

- `src/` holds the library. It resolves chains of difference snapshots and holds each link to its parent's
  content (`chain`), says how a chain's memory is put together (`assembly`), plans packs (`manifest`, `pack`)
  and reads them back (`unpack`, `relocate`, `roundtrip`), fills memory regions (`memfd`, `mapped_copy`),
  fetches and sends packs (`transfer`), lists what is there (`listing`, `sizes`), checks tokens (`auth`) and
  writes the audit trail (`audit`). `path`, `text`, `calendar`, `digest`, `json`, `sequence` and `snapshot`
  serve the rest.
- `app/` does what the library decides: it opens files, maps memory, answers requests and talks to servers.
- `tests/` runs the library.

What the library takes on trust stands in its source, each item with what is claimed of it: the clock,
constants and types of other crates, SHA-256, constant-time comparison, JSON, dates outside the Unix era,
and of std that a character is appended to a string and how a string is written for debugging.
