# RelayDeck

RelayDeck manages relays for Codex on a personal computer: a local OpenAI-compatible gateway in front
of any number of upstreams, with health checks, failover by priority, model alignment, the
configuration of Codex, and the management of its sessions.

`src/` is the library: every rule of the application, verified with Verus.

| module | what it holds |
| --- | --- |
| `models` | providers, settings, reports, sessions; pauses after repeated failures |
| `routing` | the order in which upstreams are tried |
| `gateway` | addresses, headers, model alignment, what is remembered of an attempt |
| `exchange` | one request from the door to the answer |
| `discovery`, `health` | model lists, probes, sweeps |
| `providers`, `settings`, `dashboard` | what the user edits and sees |
| `toml`, `codex` | the configuration of Codex |
| `files`, `backups` | what is done to files, and what is kept of them |
| `rollout`, `sessions`, `home`, `threads` | recorded conversations, their index, its file, their databases |
| `text`, `order`, `json`, `clock`, `ids`, `error` | what the others are made of |

Functions named `law_…` state what holds of the library as a whole.

The crates `serde_json`, `toml_edit`, `chrono`, `uuid` and `http` (through `axum`) are called behind
small functions marked `#[verifier::external_body]`; the comment above each says what is believed of it.

`app/` is the application around the library: files, the credential store, sockets, databases,
processes and the desktop shell. `tests/` runs the library together with the crates it relies on.
