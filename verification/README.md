# xmip-core-library-net

Network primitives, verified with Verus: addresses and networks in prefix
notation, authorities, hardware addresses, percent-encoding, URI paths,
line-oriented heads, `http://` and `https://` endpoints, HTTP/1.1 messages
both ways, and HTTP/2 (RFC 9113) with HPACK (RFC 7541): frames, settings,
stream states, flow control, the client's and the server's decisions.

- `src/` is the library. Every function states what it returns in
  `requires`/`ensures` over spec functions, and Verus proves it. The laws
  that span several functions (what a reader gives back of what a writer
  wrote, what an HPACK decoder in step with an encoder reads, what a
  settings frame applies) are public proof functions beside them.
- `app/` does the I/O the library leaves out: sockets, reading and writing
  frames and messages, the text of IP addresses, filesystem paths. The
  library decides each step; `app/` moves the octets.
- `tests/` runs the library on concrete values, RFC 7541's Appendix C
  among them.
