# dns_resolver

An iterative DNS resolver (RFC 1035) whose core is verified with Verus.

- `src/` is the verified library: the wire format and its decoder
  (`message`), with the proof that decoding gives back what encoding wrote
  (`message::codec_laws`); the `dig`-style text of a message
  (`message::formatter`); the iterative walk from the root servers
  (`resolver`, `root_hints`, `net`); the answer and zone cache (`cache`);
  what the server replies and how a UDP reply is cut to size (`server`);
  the DNS-over-HTTPS pieces (`doh`) and the command-line client helpers
  (`client`).
- `app/` is the program around it: sockets, threads, the worker pool,
  request deduplication, TLS, the axum DoH endpoint and the browser
  bindings.
- `tests/` runs the library on concrete messages, including scripted
  root-to-authoritative resolutions.
