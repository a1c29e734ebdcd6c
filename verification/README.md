# kerai

Kerai keeps source code, documents and datasets as a knowledge graph inside Postgres,
replicates it between instances with signed CRDT operations, and runs a small economy
on top of it: the kōi currency, bounties, a Dutch-auction marketplace, and rewards
for the work agents do.

This crate is the verified core of that system, written in Verus. The public functions
in `src/` have contracts that Verus proves the code meets; the few small wrappers
around outside crates (regex, csv, syn, base64, hex, ed25519, rand) and std character
functions carry contracts that are trusted, not proved:

- `ledger`, `wallet`, `rewards`: balances derived from the ledger, transfers, mints,
  signed transfers with nonces, bounties, the reward schedule and mining bonuses.
- `auction`: Dutch auctions: parameter checks, price ticks down to the floor, and
  settlement at the current price.
- `crdt`: operation types and their checks, the version vector, the Lamport clock,
  remote operations and weight deltas.
- `crawler`: reference extraction from document paragraphs (DOIs, arXiv ids, URLs,
  citations, bibliography entries) with deduplication by key.
- `comments`, `scheduler`: comment placement for parsed Rust files, and the
  sliding-window pool of background parse workers.
- `ingest`, `promote`, `csv_graph`: CSV table and column naming, column type
  promotion, and the dataset graph.
- `init_doc`, `preferences`, `stack`, `agents`, `walks`: the init document, instance
  preferences, document and workspace stacks, the agent registry, and training walks
  over the graph.
- `text`, `hexcodec`: string and hex helpers with specifications.

Laws that relate several operations (a pull followed by a push changes nothing,
transfers conserve the supply, version-vector merges commute, ...) are public proof
functions next to the operations they are about.

`app/` is the Postgres extension around the library: SPI queries, JSON rendering,
background workers and the floating-point model code. `tests/` runs the library on
concrete values.
