# hl-md-latency-bench

Compares the latency of four HyperLiquid bbo market-data feeds: the official
websocket, the QuickNode gRPC stream, and the websockets of two self-hosted nodes.

- `src/` is the library, verified with Verus: reading messages (`search`, `number`,
  `content`, `feed`, `grpc_feed`), connecting and reconnecting (`config`, `connect`,
  `retry`, `session`), statistics (`clock`, `stats`, `aggregator`, `history`) and the
  report (`compare`, `ranking`, `offset`, `doc`, `report`, `calendar`).
- `app/` is the program around it: threads, sockets, clocks, logging and printing.
- `tests/` runs the library on concrete values.

A feed that cannot be reached is given up after three attempts and left out of the
comparison. The first part of the report is the latency of each feed, over the first
message of each exchange time. The second part says which feed had an update first; two
messages are the same update if both exchange time and content agree, where numbers are
compared by value (`70.0` is `70`), so it does not depend on how the clock is set.

Ctrl-C ends the measurement early and still writes the report.

| Variable | Meaning |
|---|---|
| `QUICKNODE_GRPC_URL` | gRPC endpoint, tried first |
| `QUICKNODE_RPC_URL`, `QUICKNODE_WSS_URL` | URL from which host and path token are taken |
| `QUICKNODE_TOKEN`, `QUICKNODE_GRPC_TOKEN`, `QUICKNODE_API_KEY` | further tokens |
| `OB_WSS_URL`, `OBAWS_WSS_URL` | websockets of the self-hosted nodes |
