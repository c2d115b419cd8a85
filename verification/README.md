# finsync

The verified core of a desktop tool for batch MySQL administration: it runs
one SQL text, in a transaction, on every database of a server that a name
filter selects.

- `src/` — the library, verified with Verus:
  - `text.rs`: character-level helpers (trimming, spans, decimal notation);
  - `config.rs`: the INI-style configuration (connection sections, JDBC-style
    URLs, top-level settings) and the choice of the configuration file;
  - `db.rs`: system databases, the prefix/suffix filter, port numbers, and the
    stages of the per-database transaction;
  - `commands.rs`: finding a named connection, and counting a batch run;
  - `logging.rs`: log lines, timestamps and the log directory.
- `app/` — the application around it: file and network access, the MySQL
  client, the Tauri commands and their serialisable payloads.
- `tests/` — tests of the library.
