# netom

The core of a route collector: it keeps the routes of many BGP sessions in one
table, answers queries on it, reads MRT files into it and streams it to BMP
clients. What it does is stated in contracts and proved with Verus.

- `src/` is the library.
  - `types`, `ingress`, `register`, `pamap`, `attrs`, `route`: prefixes,
    sessions and routes.
  - `raw_store`, `store`, `table`, `rib`, `rib_*`, `peer_stats`: the table,
    its life cycle and its laws.
  - `flowspec`, `validation`, `flowspec_query`, `evpn`, `evpn_rows`: FlowSpec
    rules and EVPN routes.
  - `query`, `filter`, `search`, `jsonl`, `jsonl_laws`, `memory`, `api`: queries
    and what they answer.
  - `mrt_*`, `explode`, `labelled`: reading MRT files and BGP messages.
  - `wire`, `text`, `bmp_builder`, `packing`, `aggregator`, `aggregator_laws`,
    `emit`, `client`, `dump`, `client_dump`, `full_dump`: BMP messages and the
    clients that they go to.
- `tests/` runs the library.
- `app/` is the ordinary Rust around it: sockets, files, HTTP and JSON.

Where the library calls other crates, the functions that do so are marked
`external_body`, and their comments say what is taken for granted of each call.
