# driftmap

Runtime semantic diffing of two live HTTP services: traffic to both is
captured, reassembled into HTTP messages, each response joined to the
request it answers on its connection, the exchanges of the two services
paired request by request, and compared by status, headers, normalised JSON bodies, inferred schemas and
latency. Each endpoint gets a drift score and a drift state with hysteresis.

## Layout

- `src/` — the library, verified with Verus:
  - `probe` — the record the kernel probe emits, how a frame becomes one,
    and how user space reads it back;
  - `capture` — per-stream TCP reassembly and HTTP message framing;
  - `http` — parsing of HTTP/1.x messages and endpoint templates;
  - `matcher` — pairing of exchanges from the two targets in a time window;
  - `diff` — protocol-level differences of a pair;
  - `json`, `semantic` — JSON documents and their normal form;
  - `schema` — schema inference per endpoint and target, and schema drift;
  - `scorer` — the rolling window of differences per endpoint;
  - `state` — the drift state machine with hysteresis;
  - `plugin`, `dashboard`, `export`, `config`, `pipeline` — the gRPC scorer,
    dashboard key handling, metric labels, configuration values and the
    pipeline's decisions (target of a stream, request of a response);
  - `keyed`, `text`, `clock` — keyed collections, text helpers, the clock.
- `app/` — the `driftmap` program: command line, eBPF loading, proxy,
  terminal dashboard, SQLite store, metrics and webhooks, WASM plugins, and
  the floating-point parts of scoring.
- `tests/` — tests of the library.
