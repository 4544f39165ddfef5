# solid_server

The verified core of a Solid server, written in Verus.

- `src/store.rs` — the in-memory LDP resource store. Its contents are a
  `Map` from normalised path keys to entries; writing a resource creates
  every missing ancestor container. Laws: read after write, other resources
  untouched, ancestors created at any depth and enclosing, the root container
  never deleted and always present.
- `src/auth.rs` — bearer-token credentials, the access mode of each HTTP
  method, the pass-through permission reader and authorizer, and the answer
  of the access-control layer (proceed, 401, 500).
- `src/cors.rs` — the CORS header values of a response.
- `src/runner.rs` — integration-test suites, their case-insensitive
  selection by name, and the TAP report of a run.
- `src/text.rs` — string helpers: substring search, decimal formatting,
  line splitting.

`app/` holds the unverified shell: Axum middleware and router wiring, the
store behind a lock, the HTTP client and the WAC suite of the integration
tests, and the asynchronous runner loop that prints the report.
