# mini_redis

A minimal Redis client and server. The library (`src/`) is verified with
Verus; `app/` holds the server binary and the asynchronous socket code.

- `frame` – RESP frames, their encoding (`write_frame`) and a decoder
  (`parse_frame`) proved to read back exactly what was encoded.
- `decimal` – the canonical decimal numerals of frame headers.
- `connection` – the read buffer of a connection: bytes in, frames out.
- `parse` – a cursor over the entries of an array frame.
- `cmd` – the commands: reading `GET` (and unknown commands) on the server,
  building the request frames that the client sends.
- `clients` – the client's decisions on the server's replies.
- `server` – the listener's accept backoff and the per-connection step.
- `text` – UTF-8 decoding and lowercasing, from the standard library.

`app/` drives the sockets with tokio: it writes the frames the library
builds, feeds the bytes it reads to the library, and acts on its decisions.
