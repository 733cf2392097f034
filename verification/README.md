# skkserv_compound

A skkserv backend for SKK input methods that answers a reading with
*compound* candidates: the reading is split into two or more dictionary
readings, one candidate is picked per part, and the picks are concatenated,
fewer parts first and best-ranked combinations first.

The library under `src/` is written in Verus; every function carries a
contract proved against a mathematical model of the data:

- `parser` — the SKK dictionary text format (`reading /cand/cand;note/.../`).
- `dictionary`, `snapshot`, `loader` — the two-tier (user / system) index:
  user candidates first, then the system candidates the user did not list.
- `generator` — best-first compound generation with a cap on distinct texts.
- `server`, `codec` — skkserv request framing, yomi normalisation, strict
  UTF-8 / EUC-JP decoding, opcode dispatch and the reply line.
- `store`, `reindex` — the shared current snapshot and the re-index worker's
  decisions.

`app/` holds the program around the library: command-line handling, the TCP
listener, reading dictionary files, and the file watcher.
