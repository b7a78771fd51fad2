# clankircd

The verified core of an IRCv3 server, written in Verus.

- `src/protocol.rs`: parsing an IRC line into a `Message` and serializing a `Message`
  into a line, each against a specification over character sequences, and the proof
  that a well-formed message reads back as itself.
- `src/model.rs`: the abstract server state and, for each command, the next state and
  the lines sent; the state invariant `wf`.
- `src/state.rs`: the concrete state and the command handlers, proved against `model`.
- `src/server.rs`: `ServerCore` (connections, lines, metrics) and `ServerMetrics`.
- `src/laws.rs`: properties of the library as a whole (the invariant is kept by every
  event, registration is kept, JOIN/PART/QUIT memberships, channel message recipients,
  what parsing ignores).
- `src/config.rs`: the configuration and its validation.
- `src/text.rs`: character-level helpers.
- `app/`: the binary: configuration file loading, logging, metrics reports, and the
  TCP transport around the core.
