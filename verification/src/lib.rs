//! Database theory, verified: B-tree and hash indexes, relational algebra,
//! transaction schedules and serializability, two-phase locking and timestamp
//! ordering, write-ahead logging with ARIES-style recovery, functional
//! dependencies and normal forms, and an agent state store built on them.

pub mod btree;
pub mod strmap;
pub mod concurrency;
pub mod text;
pub mod recovery;
pub mod attrset;
pub mod normal_forms;
pub mod transactions;
pub mod hash_index;
pub mod relational;
pub mod agent_state;
pub mod query_opt;
