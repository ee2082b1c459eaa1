# mpconn

A multi-connectivity tunnel: every packet that enters the tunnel device is
sent to the peer over each available network path, and the copies that come
back are put in order again before they leave the peer's tunnel device. A
network consists of one server and one or more clients.

## Layout

- `src/` is the verified library. Every function carries a contract that
  Verus proves:
  - `router`: the routing table (subnet matching, lookup, route learning and
    forgetting) and its laws;
  - `packet_sorter`, `sequencer`, `packet_queue`: re-ordering of a peer's
    packets by sequence number, with deadlines for missing packets;
  - `path_latency`: per-sequence-number arrival times and the estimated
    difference in delay between the paths;
  - `connection`, `endpoint`, `connection_manager`: peers, their sessions and
    connections, greetings and answers, and what goes out where;
  - `segmentation`: gathering datagrams into segmented sends and splitting
    segmented receives;
  - `settings`, `interface_address`: configuration values and the choice of
    a local address;
  - `crypto`, `ip_packet`, `btree_ext`: the calls into outside code, each
    with the contract it is trusted to meet.
- `tests/` exercises the library on concrete values.
- `app/` is the program around it: sockets, the tunnel device, timers,
  configuration files, (de)serialisation and the event loop. Run it as
  `mpconn --role server --config <file>.json` or
  `mpconn --role client --config <file>.json`.
