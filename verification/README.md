# io-pimdir

The store and the sync engine of pimdir: an offline replica of mailboxes,
address books and calendars that several sources share. The library holds
the whole logic and performs no I/O; every function of it carries a contract
that Verus proves.

## Layout

- `src/`: the verified library.
  - `collection`, `object`, `placement`, `change`, `load`, `remote`: the item
    model and the two seams, storage and remote.
  - `hub`: the item several sources share, projected for one source and
    absorbing its writes.
  - `coroutine`, `open`, `mutate`, `rekey`: the verbs, as coroutines that a
    caller resumes with the answers it was asked for.
  - `summary`: what a writer records of a message, a card, an event, a task
    or a journal entry.
  - `codec`, `hash`, `sql`, `fnv`, `scan`: column encodings, body names and
    text.
  - `client`: what a store decides: the rows a batch moves, the tables they
    leave, the queue, the overlay of a reader, the locks.
  - `cli`: what the operator commands print.
- `app/`: the `pimdir` command and the handles it works through: SQLite, the
  blob files, the lock files and the terminal.
- `tests/`: the library run on concrete values.

## Contracts

A function says what it returns over a model of its arguments: texts are
sequences of characters, maps and sets are mathematical ones, and each type
has a view that the contracts speak of. Laws that relate several functions
are public proof functions, named `lemma_*`.

A few calls leave the library: JSON through `serde_json`, digests through
`blake3` and `sha2`, and case mapping and lossy decoding through the standard
library. Each goes through one function whose doc comment says what is taken
on trust.
