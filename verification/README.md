# llm-conduit

A lightweight, OpenAI-compatible model gateway whose decisions are verified with Verus. It exposes
one endpoint, routes every request to an upstream by its model name and swaps the caller's unified
key for the key of the upstream.

- `src/` is the library: configuration, certificates, authentication, routing, model rewriting, header
  filtering, request IDs, token usage, health and the request log. Every function states what it
  returns, and the promises that span functions are stated and proved as public lemmas.
- `app/` is the program: command line, TOML, TLS, sockets, timers. It performs what the library
  decides. `Gateway::dispatch` takes a request from stage to stage; the program reads the body,
  sends the upstream request and reports back what happened.
- `tests/` runs the library on concrete values.

The library calls `serde_json`, `hyper`, `rustls-pemfile` and `getrandom`. Each of those calls stands behind a small
function whose contract says what is taken from the crate without proof.
