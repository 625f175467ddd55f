# segment_store

An HTTP service that stores streams of bytes ("segments") under paths:
`PUT /path` uploads a body into a new segment, `GET /path` streams a
segment to the client while it is still being written, `DELETE /path`
removes it, and `LIST /prefix?limit=..&offset=..` lists the stored paths.

- `src/` is the library, verified with Verus:
  - `chunk`: the `Bytes` buffers that segments hold, and the one call made on them;
  - `keys`: the order of paths and the range of a listing;
  - `segment`: an append-only sequence of chunks with a closed flag, and the
    step a reader takes at a position;
  - `app_state`: the index of segments by path, kept in key order;
  - `handlers`: what each request is answered, from its plain parts.
- `app/` is the server: routing, the locks and wake-ups shared between an
  uploader and its readers, and the conversion of requests and replies.
- `tests/` runs the library on concrete values.
