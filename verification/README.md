# spout

Reads bytes from stdin, uploads them to a configured backend, and prints the
URL it answers with (copying it to the clipboard unless told not to).

The library under `src/` is verified with Verus:

- `sanitize` strips EXIF, text, time and colour-profile metadata from PNG,
  JPEG and WebP input; each parser is proved equal to a specification of the
  format, and stripping is proved idempotent.
- `net` percent-encodes filenames (with a proved decoding round trip), tells
  private addresses apart (IPv4-mapped IPv6 addresses by their IPv4 part),
  checks URLs through the `url` crate, and picks the
  URL out of a response, plain or JSON (parsed by `serde_json`).
- `upload` makes up filenames (random part from `getrandom`, hex from `hex`),
  refuses dangerous ones, caps the input, and plans the request (content type
  from `mime_guess`).
- `cli`, `clipboard`, `config` and `app` hold the decisions of the program:
  reading the command line, the clipboard allowlist, profile selection, and
  what a server's answer comes to.
- `text` and `error` are the string helpers and the error messages.

`app/` is the program around it: argument and file I/O, the knuffel
configuration decoder, DNS resolution and the HTTP request with `reqwest`.
