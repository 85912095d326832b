# zmq_poc

A market-data fan-out over ZeroMQ: a publisher cycles through symbols and
sends one tick at a time on a PUB socket, answers snapshot and ping requests
on a REP socket, and a subscriber coalesces the ticks it receives into one
batch per UI frame.

- `src/` is the verified library (Verus): the message types, the symbol
  names and symbol-list parsing, the publisher's schedule and snapshot book,
  and the subscriber's gap detection, snapshot filtering, drop counting and
  per-frame coalescing. Each is a state machine whose transitions carry
  exact contracts.
- `app/` runs those machines: bincode encoding of the messages, the ZeroMQ
  sockets, the threads and bounded channels, the clocks, the floating-point
  price walk, and the command-line and terminal programs.
- `tests/` exercises the library on concrete values.
