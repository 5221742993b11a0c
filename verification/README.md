# nexa-proxy

A minimal HTTP reverse proxy with host-based routing and weighted
round-robin load balancing: a verified library, and a thin program around it.

- `src/domain_map.rs`: the route table, a map from domain names to values in
  which each domain occurs once.
- `src/config.rs`: the configuration types (listen addresses, routes,
  upstreams, TLS settings).
- `src/proxy.rs`: the routing state built from the configuration, the
  weighted round-robin selection, and the laws it obeys (each upstream gets
  its weight's share of every window of total-weight consecutive tickets).
- `src/request.rs`: what the proxy decides for each request: host parsing,
  metrics path, refusal of unroutable domains, the request forwarded as
  received (method, headers, body) to the chosen upstream, and the reply
  relayed back (status, headers, body).
- `app/`: the program: command line, JSON configuration file (re-read when
  it changes), Prometheus metrics, and the hyper/reqwest server that carries
  out the library's plans.
