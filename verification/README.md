# lily_nest

The logic of a small photo gallery site (梨窝相册), verified with Verus.

- `src/` is the verified library: the administrator password and sessions
  (`auth`), the request decisions of the HTTP API (`api`), the tag column of
  the photo database (`db`), the choice of what image bytes to store
  (`media`), the message types (`model`) and the string functions they rest
  on (`text`).
- `app/` is the server around it: axum routing and handlers, SQLite access
  through rusqlite, image decoding and JPEG encoding through `image`, and
  serde copies of the message types.
- `tests/` runs the library on concrete values.
