# rauta

The verified core of an L7 HTTP gateway: routing with weighted Maglev tables, header filters,
rate limits, circuit breakers, connection pools, retries, listeners, TLS certificates by host name,
and the admin queries of its command line and tool server.

- `src/` is the library. Every decision that the gateway makes is a function here, with a contract
  that Verus proves. Time is an argument (nanoseconds since some start), and so is everything that a
  socket said.
- `tests/` runs the library on concrete values.
- `app/` is the program around it: sockets, locks, clocks, Prometheus metrics, the command line and
  the tool server. It performs the steps that the library names and hands back what happened.

| Module | What it decides |
|---|---|
| `router`, `prefix_tree`, `matching`, `maglev`, `hash` | which backend serves a request |
| `filters`, `headers` | how headers change |
| `rate_limiter`, `circuit_breaker`, `health_checker` | whether a route or backend takes a request |
| `request_handler`, `listener_manager`, `server` | what becomes of a request, a listener, a server |
| `forwarder`, `retry`, `protocol`, `http1_pool`, `http2_pool`, `worker` | how a request is sent |
| `tls` | which certificate a host is served with |
| `query`, `mcp`, `cli`, `metrics`, `routes` | admin queries, tools and configuration |
| `table`, `text`, `time`, `address`, `backend` | what the others are built on |

Calls into `matchit`, `regex`, `hyper`, `rustls`, `rustls-pemfile`, `uuid` and two functions of the
standard library stand behind trusted items, each with a comment that says what it claims.
