# http_server

A small HTTP/1.1 server. The library (`src/`) holds everything that decides
or computes, each function with a contract proved by Verus:

- `http::request` — parsing raw request bytes into a `Request` whose path,
  headers and body borrow from the bytes; the grammar is stated over bytes
  in `spec_parse_request`.
- `http::query_string` — query strings with single and repeated keys. The
  entries are a `Vec` of (key, value) pairs whose keys are distinct (a type
  invariant) rather than a `HashMap`, since vstd models hashing only for
  primitive keys and not for `&str`. Lookups go through `get`, so the order
  of the entries is not observable.
- `http::method`, `http::status_code` — request methods and status codes.
- `http::response` — the wire form of a response (`Response::to_bytes`).
- `website_handler` — which file a request needs, whether a canonical path
  lies below the public directory (`serves_below`, compared component by
  component as `Path::starts_with` does), the response given that file, and
  the `{-}` template.
- `server` — the listening address.
- `text` — byte search, cutting `&str` at ASCII delimiters, decimal text.

The program (`app/main.rs`) runs the TCP accept loop on a thread, reads
files (canonicalising each path and asking `serves_below` before reading),
and writes responses.
