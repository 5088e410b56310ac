# DockDoe

The verified core of DockDoe, a Docker host monitor with an embedded web UI, and
the program around it.

`src/` is a Verus library: what the monitor decides and computes, on plain
values. Every function states what it returns, and Verus proves that it does.

| Module | What it decides |
| --- | --- |
| `access`, `auth` | who may use the interface: host allowlist, login, signed session cookies |
| `config` | sizes, hosts, and the settings of a file over those of flags |
| `docker` | containers, ports and counters from the engine's listings and samples |
| `stack`, `lifecycle` | dependency order of a stack, and the machines that start and stop it |
| `collector`, `trend`, `notify` | the collection cycle, min/max/median rollups, settled status changes |
| `store`, `history` | rows, statements and schema of the database; windows and groups of history |
| `page`, `controls`, `links`, `logs`, `terminal` | what the pages show, link to and offer |
| `federation`, `host`, `model`, `reading` | nodes, host metrics, the data model, floating-point readings by their bits |
| `text`, `num`, `hex`, `order`, `table` | strings, numerals, hexadecimal, stable sorting, a keyed table |

Functions named `law_…` state what holds across functions: that a signed session
lasts until its expiry, that dependencies start before their dependents, that a
settled change is reported once.

What Verus takes on trust is marked with `external_body` or
`assume_specification`: HMAC-SHA256, the operating system's random bytes,
reading certificates, the debug form of a string, and `String::push`.

`app/` is the program: command line, Docker engine, SQLite, HTTP, HTML and
floating-point arithmetic. `tests/` runs the library, its SQL included.
