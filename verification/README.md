# meerkat

A verified runtime for Meerkat, a distributed reactive programming language:
services host variables and definitions, and transactions read, write and
reconfigure them under locks.

Layout:

- `src/ast`: expressions, declarations and programs; their text; free
  variables and renaming.
- `src/new_runtime/evaluator`: evaluation and partial evaluation of
  expressions, specified by the `eval` function.
- `src/new_runtime/message`: basis stamps, transaction identities and the
  messages between services and clients.
- `src/new_runtime/service`: a service as a state machine: lock queue and
  grants, reads, writes, configuration, commit and propagation of values
  through definitions.
- `src/new_runtime/clients`: the clients that configure a service, do an
  action and check an assertion, as state machines.
- `src/frontend`, `src/runtime`: the first front end's syntax and the
  version naming of the earlier runtime.
- `src/table.rs`: a finite map kept in insertion order.
- `app/`: the command line and the actors that carry the messages.

Each state machine (`ServiceActor` and the three clients) says by an
`admits` predicate which messages the protocol lets it take in a state; its
`handle` requires one, and `accepts` tests for one, which the actors in
`app/` do before each delivery.

A service's well-formedness includes that every definition whose inputs all
have values holds the value of its expression over them; commits and
propagated values keep it, and the values that change are sent on to the
services that import them.
