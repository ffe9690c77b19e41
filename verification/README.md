# emblem_swapper

The core of a desktop tool that copies a Black Ops II emblem from another
player's profile: a proxy between the console and the game's servers saves
the emblem data as it passes, or answers with an emblem chosen from the
library.

`src/` is the library, verified with Verus:

- `emblem/` — the 1408-byte emblem record (32 layers of 44 bytes), and the
  outline filter (a box dilation minus a box erosion of the alpha channel,
  built on a monotonic-queue sliding extreme).
- `proxy` — reading HTTP heads, framing and decoding response bodies
  (chunked encoding as a step function), routing a request (tunnel, forward,
  or the emblem service), and what to do with an emblem request in each mode.
- `storage` — group and slot naming, library order, labels, the capture
  group rule, listing, duplicate detection and imports.
- `backup` — which files a backup holds and how an archive is gathered back
  into groups; a proof shows that restoring a backup gives back its emblems.
- `state`, `broadcast`, `commands`, `diagnostics` — the mode, the selection,
  the values the user interface receives, and the connection checks.
- `bytes`, `text`, `sort` — byte search, character-level text helpers with
  `str`'s meaning, and a verified stable sort.

`app/` is the application around it: files, the network loop, rendering
(floating point), zip archives and system queries. `tests/` runs the
library on concrete values.
