# agent_sessions

Reads the sessions that coding agents leave on a machine and brings them into one
form: a conversation with its messages, the tools they call, its span of time, its
workspace and what else the source says. Clawdbot, Codebuff and Freebuff, the GitHub
Copilot CLI, Devin, Goose, Grok Build, Grok Bot, Hermes, Kimi Code and OpenCode are
read; for Oh My Pi the library finds the stores.

## Layout

- `src/` is the library. It decides where sessions stand, what a scan reads, what
  discovery names, and what conversation each file or row makes. Everything in it is
  verified with Verus; contracts are stated over mathematical views of the data.
  - Text, paths, order, time and JSON: `text`, `lines`, `bytes`, `base32`, `decimal`,
    `path`, `order`, `stamp`, `binary64`, `json`, `query`, `records`.
  - What agents have in common: `model`, `canon`, `pending`, `files`, `scan`, `databases`, and
    `boundaries`, by which a scan goes through its sources one by one.
  - The agents, each in modules of its own name.
- `app/` runs the connectors on a machine: it takes a picture of the files, reads the
  rows of the databases and hands conversations on.
- `tests/` runs the library on files and rows in memory.

## What is trusted

JSON text is judged, read and written by `serde_json`, dates by `chrono`, names in URLs by
`urlencoding`; `String::push`, `String::from_utf8` and `str::to_lowercase` come from
the standard library. What the proofs believe of each of these stands above its
declaration, in `json`, `records`, `stamp`, `bytes` and `text`.
