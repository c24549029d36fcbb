# streams

An event engine: named boxes of records, read from a cursor, with one promise
above all others: a reader is never silently skipped past records it has not
seen. What a box lost to its caps or to age is always told, as a tombstone that
names the gap.

The library under `src/` is the engine's logic, with contracts proved by Verus.

| Module | What it holds |
| --- | --- |
| `engine::box_state`, `engine::eviction` | a box: appending, retention, the floors |
| `engine::read`, `engine::filters` | reading from a cursor, gaps, what a reader is not shown |
| `engine::broadcast` | frames that are serialized once and shared by all watchers |
| `sched`, `decay` | bands, draining by band, priority by recency |
| `http` | access, request checks, errors and their envelopes |
| `http::watch` | watch sessions, resumption, the event stream as a state machine |
| `http::ws` | WebSocket commands, subscriptions and delivery |
| `config`, `auth`, `error`, `types` | settings, keys, errors and the documents |
| `clock`, `storage` | time and files behind traits |
| `json`, `text`, `name_map` | documents, text and maps that contracts can speak of |

What the library promises as a whole is stated by the `law_*` proof functions,
each beside what it is about.

`app/` is the server around it: the environment, sockets, tasks and the
in-memory registry of boxes. `tests/` runs the library from outside.
