# kannader

The message layer and the decisions of an SMTP server and client, written
in Verus: every function of the library carries a contract that Verus
proves, but for four small wrappers whose contracts are taken on trust:
`utf8_decode` (`std::str::from_utf8`), `utf8_lossy`
(`String::from_utf8_lossy`), `idna_domain_to_ascii` (`idna`'s `to_ascii`, called only on domains of at
most `MAX_UTF8_DOMAIN_LEN` bytes, below the length at which its punycode
encoder can overflow)
and `chrono_delta_fits` (`chrono::Duration::from_std`).

## Layout

- `src/` — the verified library.
  - `text.rs`, `lex.rs`: UTF-8 text and the byte-level grammar pieces
    (spans of character classes, tags, `\r\n`).
  - `misc.rs`: hostnames (domains, IPv4 and IPv6 literals, punycode through
    `idna`), local parts, addresses, source routes, `next_crlf`.
  - `ip.rs`: the address literals' grammar and values.
  - `command.rs`, `reply.rs`: SMTP commands and replies, their grammar
    (each parser's result is stated against a model of the grammar) and
    their wire form.
  - `reply_wire.rs`, `command_wire.rs`, `mail_wire.rs`, `param_wire.rs`,
    `addr_wire.rs`, `host_local.rs`: what the wire form of a reply, of a
    command or of `MAIL`/`RCPT` parameters parses back to (what was
    written), and that hostnames, local parts, addresses and source routes
    are read from their own bytes wherever they stand.
  - `data.rs`: the `DATA` stream: escaping writer, escaped reader and
    unescaper, with the laws that tie them together (what is escaped then
    unescaped comes back; the end marker closes the stream and nothing
    before it looks like one; the reader stops exactly at it).
  - `client.rs`, `session.rs`: the client's decisions: what a reply means,
    reading replies out of a buffer, the exchanges that open a connection
    and send a mail, MX ordering.
  - `queue.rs`: queue identifiers and the lifecycle of a queued mail.
  - `server.rs`, `sendable.rs`: the server's command line and failure
    mapping; commands that write themselves.
- `tests/` — tests run against the compiled library.
- `app/` — the I/O around it: `AsyncRead`/`AsyncWrite` adapters for `DATA`
  streams, the client's exchanges over a connection, the queue driver, the
  command line.
