# almanac

A calendar, todo and notes service for agents, written as a Verus library
with a thin program around it.

- `src/` is the verified library. Each public function states in its
  `ensures` what it returns, over spec functions on views. The laws of the
  library are public proof functions (`lemma_*`), among them:
  - JSON written by `stringify` reads back through `parse`;
  - a canonical recurrence rule is canonical again and has a fixed part order;
  - stored instants and wall-clock times read back as themselves;
  - a `PUT` keeps the fields it leaves out;
  - folding a content line is undone by unfolding it;
  - a full rate-limit window refuses further hits.
- `app/` is the program: `main`, sockets, the SQLite store, AES-GCM through
  libcrypto, backups on disk. It reads and writes, and hands plain values to
  the library for every decision.
- `tests/` run the library on concrete values.
