# rs-blobstore

A small HTTP service that stores binary blobs on disk: bytes in, identical bytes out.
A `POST` is answered as soon as its body is in memory; workers write it to disk in the
background. The rules of the service are a library whose promises are proved with
Verus; the service around it is ordinary Rust.

## Endpoints

- `POST /blobs/<path>`: the body is the blob. `202` when it is queued; `400` for a path
  that is not allowed or a length that is none, `411` without a length, `413` for a body
  that is too large, `503` when the queue is full.
- `GET /blobs/<path>`: the blob. `404` if there is none.
- `GET /healthz`: `200 ok`.

## Settings

| variable | default |
|---|---|
| `STORAGE_ROOT` | `/data` |
| `BIND_ADDR` | `0.0.0.0:8080` |
| `WRITE_QUEUE_CAPACITY` | `1024` |
| `WRITE_WORKERS` | `4` |
| `MAX_BODY_BYTES` | `1073741824` |
| `RUST_LOG` | `info` |

The bodies that wait to be written come to at most `MAX_BODY_BYTES` in all.

## Layout

- `src/`: the library.
  - `path`: Unix paths and the rule for paths that clients name.
  - `budget`: the shared limit on bytes that wait; `ledger`: what its count is over its
    life.
  - `routes`: whether a request is taken in, and what it is answered.
  - `writer`: the steps by which a worker stores a body; `disk`: what they do to files.
  - `text`, `config`: numbers as text, and settings.
  - `outside`: what is believed of other crates.
- `tests/`: the library at work.
- `app/`: `main`, HTTP and files.

A crash can lose what is still in the queue. Paths are Unix paths.
