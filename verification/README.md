# fugue_ir

The intermediate representation of a binary analysis: addresses and sets of them, instructions and
their flows, code blocks, functions, switches, problems, references between addresses and the
graph of calls, with the tables that hold them.

Everything under `src/` is verified with Verus, except the small wrappers around calls into outside
crates and the standard library: the comment above each says what is taken on trust. The library is
plain computation: tables live in memory, and what a change means for tables that are stored
elsewhere comes out as values (rows to write, slots to take and give back).

- `address`, `address_set`, `address_map`, `range_set`, `range_ext`, `parse`: offsets, addresses in
  spaces, ranges, sets and maps of them
- `id`, `stored_ids`: identities of table entries and how they are handed out
- `codec`, `order`, `anchored`: keys as bytes, ordered maps and sets, scans that can be resumed
- `insn`, `flow`, `location`, `block`, `basic_block`, `function`, `body`, `frame`, `switch`,
  `problem`, `segment`: the entities
- `incomplete`: functions under construction and how they are normalised
- `keyed_table`, `block_table`, `function_table`, `switch_table`, `problem_table`: the tables
- `staging`, `staged_records`, `staged_queries`, `prepared`, `staging_laws`: changes of functions
  and blocks that are collected, prepared and published together
- `block_buckets`, `block_index_writes`, `prepared_writes`, `batch_writes`, `stored_writes`,
  `index_rebuild`: what is written where tables are stored
- `reference`, `reference_index`: references between addresses
- `provenance`, `provenance_index`, `reference_staging`: references by who states them
- `call_graph`: what calls what

Proof functions whose names begin with `law_` state what holds between several functions.

`app/` is ordinary Rust around the library: text, errors, rows as bytes, and indexes that threads
share.
