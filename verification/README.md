# lau-database-theory

Database theory as a verified Rust library: every module under `src/` is
checked by Verus against contracts written over mathematical models
(sequences, sets and maps).

| Module | Contents |
|---|---|
| `relational` | values, tuples, relations; select, project, joins, union, difference, intersection, rename |
| `btree` | B-tree from `i64` keys to byte strings: insert with splits, search, range queries |
| `hash_index` | chained and extendible hash tables |
| `transactions` | schedules, conflicts, precedence graphs, conflict serializability, serial orders |
| `concurrency` | two-phase locking and timestamp ordering |
| `recovery` | write-ahead log and ARIES analysis, redo and undo |
| `normal_forms` | functional dependencies, closures, candidate keys, 1NF–BCNF, minimal cover, 3NF and BCNF decomposition |
| `agent_state` | an agent state store on a relation with B-tree and hash indexes; base64 |
| `query_opt` | query plans, the relations they read, selection pushdown, the statistics catalog |
| `attrset`, `strmap`, `text` | sets of attribute names, maps keyed by strings, decimal text |

Floating-point numbers are held as their bit patterns inside the library.
`app/` holds what works on them as floats (the optimizer's cost model and
join ordering, load factors, ordering of values) and serialisable copies of
the data types.
