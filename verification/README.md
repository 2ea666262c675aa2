# zink_client

The client core of a zink messenger: contacts and people, conversations as
message graphs, sending and receiving through untrusted relays, peer sync, and
the trust rules between devices.

- `src/` is the core, written in Verus. It decides: every function takes plain
  values, and its contract says what comes out. Nothing in it reads a file,
  waits, or dials.
- `app/` is the edge. It reads and writes the state directory, dials through
  transport ports, runs the timers, and hands what happened to the core. The
  wire format and its cryptography come in through the `Protocol` trait.
- `tests/` run the core on concrete values.

Values are compared through their models (`deep_view`). State that changes is
one `Client` value; a contract says which fields of it an operation changes.
Flows that alternate decisions and network work are small machines (`Backward`,
`Forward`, `Rewrap`, `RouteWalk`, `Deposit`, `BlobFetch`, `AvatarFetch`,
`Backoff`): the core says what to do next, the edge does it and reports back.
What the transport refuses to dial is handed in as a list of `Refusal`s. Chance
comes in through the `Draw` and `Mint` traits, whose spec functions say what an
outcome may be. Properties that span several operations are public proof
functions named `law_*`.
