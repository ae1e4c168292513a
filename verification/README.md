# sfu

The decisions of a selective forwarding unit for video calls, verified with Verus:
who is in a room, who wants whose media, who is speaking, which layers fit a
receiver's downlink, and, packet by packet, what is forwarded to whom.

## Layout

- `src/` is the library. Every function states what it returns or changes, over a
  mathematical view of its state; the public `law_` proof functions state what holds
  across functions.
  - `room_state`, `subscription`, `speaker`, `layer_selector`, `forwarder`: one room.
  - `priority_queue`: a connection's outbound queues.
  - `affinity`, `health_beacon`, `spillover`: rooms spread over pods.
  - `config`, `trace`, `forwarding_health`: settings and the liveness probe.
  - `packet`, `ids`, `layer_map`, `text`, `rounding`, `float32`, `concurrent_map`:
    what the others are built from.
- `tests/` runs the library.
- `app/` is what surrounds it at run time: tasks, NATS, metrics, clocks, the
  environment.

## Conventions

Instants and durations are nanoseconds of a monotonic clock, except in
`forwarding_health`, where they are milliseconds. Single-precision quantities are
carried as bit patterns, and their arithmetic is verified against rounding to
nearest. State has one owner: locks belong to the caller.

The library trusts what it says of `dashmap::DashMap` in `subscription` and
`spillover`, of `bytes::Bytes` as a value that is passed on, and of
`String::push`. Each of these items says in its comment what it claims.
