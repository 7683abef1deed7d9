# openshell_core

Verified filesystem policy for CDI (Container Device Interface) devices, and
the tracing decisions of the gateway.

- `src/` is the library. Every function states what it returns, and Verus
  proves it. `src/upstream.rs` holds all that is believed of outside crates.
- `src/laws.rs` states what holds of every derived policy, and
  `src/requests.rs` what holds of whole requests.
- `tests/` runs the library on concrete values, with real spec files.
- `app/` connects the library to spec directories, file metadata, JSON and the
  process-wide tracing subscriber.
