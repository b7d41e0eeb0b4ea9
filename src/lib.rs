//! In-memory routing information base: per-session and per-router route
//! tables, point mutation, teardown and filtered queries.

pub mod types;
pub mod aspath;
pub mod assoc;
pub mod table;
pub mod store;
pub mod laws;
