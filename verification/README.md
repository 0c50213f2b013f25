# proxy_router

A router for a proxy. It asks a `Recognize` implementation for the key of each
request and keeps the service that was bound for a key in a cache of bounded size.

When the cache is full and a new route is wanted, the router asks every service
how busy it is. If some are in use, the least recently used one that is idle is
given up. If all are in use, or none is, nothing is given up and the request is
refused.

The library under `src/` is written in Verus and verified.

- `router`, `inner`: the router, and the bound routes with the order of their use.
- `cache`, `routing`: what the cache holds and what can become of a request, as
  mathematical values; the contracts of `router` and `inner` speak of them.
- `laws`: what holds of every request and of every run of requests.
- `recognize`, `activity`: the traits that users of the router implement.
- `response`, `error`: the response to a request, and why there may be none.
- `route_map`: the calls into `indexmap`.
- `ctx`, `telemetry`: what the proxy reports of itself.

A few contracts are believed, not proved: those of the calls into `indexmap` in
`route_map`, and in `inner` those of the clock and of two functions of
`VecDeque`.

`app/` makes the router a shared `tower` service.
