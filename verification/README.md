# Lume

Local-first semantic search over a personal library of photos and videos:
describe a scene in plain language and get the matching pictures, ranked.
Nothing leaves the machine.

The library in `src/` is written and proved with Verus. It holds what the
application decides and computes; it does no input or output.

| Module | What it holds |
|---|---|
| `config`, `error`, `types`, `traits` | the configuration and its validation, errors, the domain types, the three seams |
| `rank` | from scored units to ranked tiles |
| `walk`, `content_hash` | which files are items, and the hash by which a file is known again |
| `store`, `schema`, `tables` | what is written to and read from the database, and what each change does |
| `prepare`, `commit`, `indexer`, `progress` | how a file is prepared, how a batch becomes visible, and a whole run, step by step |
| `protocol`, `b64`, `sidecar` | the wire to the sidecar: frames, messages, answers |
| `platform`, `runtime`, `commands` | watcher events, folders, searches, thumbnails, the user interface |
| `store_laws`, `run_laws`, `commit_laws` | what the decisions amount to in the tables |
| `whole_run` | after a run the tables show the disk, and a second run changes nothing |
| `rank_laws` | the order of the hits does not matter |
| `path`, `text`, `float32`, `sort` | paths by components, text, single-precision numbers as bits, a stable sort |

Scores are compared and ordered as bit patterns. The few products and
differences that are needed are computed outside and handed in.

`app/` is the shell around it: files, SQLite with its vector table, the
sidecar's socket and process, the watcher, and the window.

`tests/` runs the library on concrete values, with a file system and tables
held in memory.
