# hatel

A local telemetry collector for a coding agent. It joins two layers of signals, the agent's native
OpenTelemetry stream and its lifecycle hooks, into a view per project, per session and per subagent,
and keeps everything on the machine unless an export is configured.

The library (`src/`) holds the logic and is verified with Verus. The program (`app/`) reads and
writes files, talks HTTP, and carries out what the library decides.

## Library

| Modules | What they decide |
|---|---|
| `registry`, `schema`, `table` | the Kinds, their bindings, and the schema files they come from |
| `hook`, `pii`, `model`, `emit` | which records an event or a signal makes, and what of it is stored |
| `rolling`, `sink`, `session`, `cost` | logs, rows, the session index and the cost snapshot as texts |
| `decode`, `accumulator`, `serve`, `receiver` | OTLP bodies, per-session series, what is flushed |
| `export`, `settings`, `headers`, `transform`, `exporter` | destinations, enrichment, what is forwarded |
| `claude_settings`, `scopes`, `active`, `wiring_laws`, `init`, `doctor`, `service` | wiring and diagnosis |
| `query`, `report`, `render` | questions to the ledger and how the answers are shown |
| `config`, `project`, `clock`, `throttle`, `pattern`, `error` | configuration, repositories, time |
| `json`, `shape`, `text`, `decimal`, `assoc`, `sorted`, `order`, `seqs` | values, texts and orders |

Contracts are stated over models: a record is its time, Kind, version and a map of trees; a registry
is its sequences of Kinds and bindings; a settings file is a tree. Proof functions whose names start
with `law_` state what relates several functions, such as that wiring is idempotent and that unwiring
undoes it, or that a destination with a project filter never receives a body of unknown projects.

Calls into other crates (`serde_json`, `toml`, `jiff`, `regex`, `blake3`, `unicode-width`) stand
behind small wrappers whose doc comments say what is believed of them.

## Program

`serve`, `report`, `init`, `service`, `doctor`, `mcp`, `kinds` and `emit` are subcommands. Run under
the name `hatel-hook`, the program records one lifecycle event from standard input and exits 0.

| Variable | Effect |
|---|---|
| `HATEL_SINK` | `jsonl` (default) or `sqlite` |
| `HATEL_STATE_DIR` | the state directory |
| `HATEL_CONFIG` | the configuration file |
| `HATEL_PLUGINS` | plugin schema files, as a path list |
| `HATEL_ROTATE_BYTES` | rotation threshold of a log (default 10 MB) |
| `HATEL_RETENTION_DAYS` | retention horizon (default 90, at most 100000) |
| `HATEL_DISABLED=1` | the hook does nothing |
| `HATEL_STRICT=1` | a payload key outside the allow-list is an error |
| `HATEL_TESTING=1` | writes go under `_test/` |
| `HATEL_AGENT_DIR` | required by `init` and `doctor`: the name of the directory that the agent keeps its settings in, under the home directory and under a repository's root |
| `HATEL_MANAGED_SETTINGS` | the organisation's settings file; required on Linux where there is one, and elsewhere the platform's own place by default |

Neither name has a default on every platform: without `HATEL_AGENT_DIR` there is no user, project or
local scope, `init` ends in an error, and `doctor` reports on the managed scope alone.

Sums of measures are floating point and are computed by the program; the library groups, ranks and
renders them by an integer that orders as the value does.
