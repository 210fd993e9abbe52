# plato_transport

A transport layer for sense modules, written in Verus:

- `transport`, `in_process`, `unix`, `network`: the `SenseTransport` trait,
  three transports that queue commands and responses in memory, and a factory
  (`Transport`) that hands them out as an `AnyTransport`. Each operation is
  specified over `LinkView` (commands sent, responses waiting, connection flag).
- `cache`: `ShadowCache`, keyed by `(sense_module, resource_id)` with a time to
  live per entry, specified as a map from keys to entries.
- `policy`: `TransportPolicy`, a command prefix allowlist and a sliding-window
  rate limit, specified by `check_spec`.
- `clock`: a monotonic clock read in nanoseconds. Every function that reads it
  has a twin ending in `_at` that takes the reading as an argument and whose
  contract is exact. The cache and the policy never act on a reading lower
  than the latest one they acted on, as the monotonic clock guarantees.
- `app/`: `Display` and `std::error::Error` for the error type, on a copy of it.

Methods that change state take `&mut self`: shared use across threads is left
to the caller (wrap a value in a `Mutex`).
