# Windows redirector

Decides, for every packet that the WinDivert driver takes out and for every
operation on a socket that it reports, what is done: whether a packet is sent on
its way, waits until the process behind it is known, or is intercepted on behalf
of that process.

- `src/` is the library, verified with Verus. `header.rs` says how packets are
  read, `renewal.rs` how their checksums are renewed, `listeners.rs` and
  `connections.rs` what is remembered, `redirector.rs` what is decided, and
  `laws.rs` what holds of the whole.
- `app/` is the driver, the event loops, the channels and the Python classes.
- `tests/` runs the library.

What is believed of other crates without proof stands in functions marked
`#[verifier::external_body]`: three recalculations and the parser of
`internet-packet`, and five methods of the cache of `lru_time_cache`. An entry of
that cache expires ten minutes after its last use; the contracts hold whatever
the clock says.
