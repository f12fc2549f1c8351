# werss-cli

Fetches articles of WeChat public accounts from a WeRSS API server and saves them as
Markdown files with YAML front matter, keeping track between runs of what was fetched,
what failed and how often.

The library under `src/` holds the logic, verified with Verus:

- `text` — strings as character sequences: trimming, searching, replacing, lines, joining,
  decimal numbers, splitting, paths.
- `convert` — slugs, dedenting, code blocks, HTML-to-Markdown conversion with image
  extraction, header stripping, tail cleaning, front matter.
- `state` — the per-account record of articles (`state.jsonl`): loading, recording,
  compaction, where an article's files go.
- `auth` — tokens: what a login response gives, validity, the stored expiry, how a session
  starts.
- `client` — what the API client requests and how it goes on after each answer.
- `reply` — reading the server's JSON replies and the state file's lines, field by field.
- `config` — the settings of `werss.toml` and their defaults.
- `sync` — the decisions of a run: settings, checks, accounts, articles, files.
- `trusted` — the calls into `regex`, `html-to-markdown-rs`, `chrono`, `serde_json` and `std` whose
  contracts are believed.

`app/` is the command-line program around it: argument parsing, HTTP, the keyring and the
file system.
