# chorus_lib transports

Transports that carry the messages of a choreography between its locations.

- `src/location_map.rs`: a map from location names to values, one entry per name,
  viewed as a `Map`.
- `src/queues.rs`: first-in, first-out message queues as maps of sequences, and
  the laws that any run of sends and receives keeps.
- `src/transport.rs`: the configuration of a transport (`transport_config` builds
  it from the information of every location) and the channel of queues that a
  transport delivers into.
- `src/transport/local.rs`: the local transport, one FIFO queue per ordered pair
  of locations.
- `src/transport/http.rs`: the HTTP transport: the addresses of the other
  locations, the request that carries a message, the handling of a received
  request, and one FIFO queue per sending location.
- `app/`: sharing a transport between threads, blocking receives, JSON, and the
  HTTP server and client.
