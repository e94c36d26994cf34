# UwUSync Server

The sync server behind UwUSSH and UwURDP: a dumb, encrypted mailbox. It hands
out sequence numbers, keeps the newest version of every record, pages through
them from a cursor, and refuses a write whose version is not the one it holds.
It cannot read a record, so it cannot merge one either.

`src/` is the library, verified with Verus: what every endpoint decides, what
every table holds, how often somebody may try, and what is kept, restored,
reported and forgotten. Each function says in its `requires` and `ensures` what
it does, over the views of the types it works on.

| module | what it is about |
| --- | --- |
| `api` | the endpoints: what each does to the server and is answered |
| `db` | accounts, devices, codes and records; migrations and restoring |
| `auth` | challenges, session tokens, and who is asking |
| `limits` | how often an address, an account or a device may try |
| `pairing` | the relay two devices pair through |
| `state` | what every request has to hand |
| `connections` | how many connections there may be, and for how long |
| `config` | the settings in the environment |
| `maintenance` | backups, setup codes, and what is forgotten at night |
| `tls`, `health`, `updates`, `commands` | certificates, the health check, newer releases, the command line |
| `calendar`, `text`, `ids`, `b64` | dates, texts, UUIDs, base64 |

What holds across functions stands in public proof functions: in `db::laws`,
`api::laws`, `auth_laws`, `limit_laws` and `pairing_laws`, and beside the
functions they are about. What holds over any sequence of calls stands in
`db::history`, `limit_history` and `pairing_history`.
`db::laws::a_pushed_record_comes_back` and
`limit_laws::never_more_than_max_in_a_window` are good places to start.

What the library has from other crates (hashes, signatures, base64, UUIDs, keys
and certificates, random bytes, the clock) it has through a few functions marked
`#[verifier::external_body]`. Each says above it what is taken on trust.

`app/` is the program around it: SQLite, HTTP, TLS, and the command line. It
reads the rows that a request needs, lets the library work on them, and writes
back what changed. The wire format comes from the `uwussh_proto` crate.
