# http_server

A small multi-threaded TCP echo server, with the HTTP message handling it
ships with. The library under `src/` is written in Verus and verified; the
program under `app/` runs the sockets and threads around it.

## Library (`src/`)

- `text` — characters and bytes: Unicode whitespace, searching and
  splitting, trimming, decimal numbers, `u16` parsing, UTF-8 decoding.
- `http::request` — reading the method and path from a request line.
- `http::response` — status codes, responses, `encode` (bytes on the wire,
  with `Content-Length` taken from the body) and `parse` (head up to the
  first blank line, body after it).
- `http::roundtrip` — the proof that parsing an encoded response gives back
  its status, its headers plus `Content-Length`, and its body.
- `error` — the server, connection and parse errors, and the one-line
  report of an error chain.
- `server` — the server's address, the accept loop's round-robin dispatch
  (`server::listener`), and a worker's decisions (`server::worker`): token
  bookkeeping, which events are served, and what to do after each poll and
  each read; with proofs that connections are spread round robin, that a
  dropped connection never comes back, that tokens are never reused, and
  that every chunk read is echoed.

## Program (`app/`)

`main` binds `127.0.0.1:8080`, starts four worker threads with their own
`mio` poll, and hands accepted connections to them over `crossbeam`
channels. Each loop asks the library what to do next and performs it.
