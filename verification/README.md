# rsystem

A small message system. Peers connect over TCP and send lines; each line names
a handler by a tag (`Ping`), optionally with a value (`temp.record;12.34`), or
is a JSON object `{"id":…,"tag":…,"value":…}`. The handler registered under
that tag (compared without regard to case) runs, and what it answers goes back
to the peer as JSON lines.

- `src/` is the verified library: handler keys, the case-insensitive handler
  registry and the choice of a handler's input, the reading of plain lines,
  the writing of answer lines, the fan-out of answers to endpoints, and the
  state machines of the TCP runner, its connections and listeners.
  `src/foreign.rs` holds the few calls into `unicase`, `serde_json` and std
  whose contracts are trusted.
- `app/` is the runtime around it: async tasks and channels, sockets, serde,
  the `Handler` trait that users implement, and an example program that
  answers `Ping` with a `Pong`.
- `tests/` exercises the library on concrete values.
