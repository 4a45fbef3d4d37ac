//! Verified core of a cryptocurrency listing harvester: extraction of coin
//! observations from an embedded JSON payload, batch merge/ordering rules,
//! and an append-only time-series store with "latest" query semantics.
pub mod api;
pub mod database;
pub mod export;
pub mod fetch;
pub mod json;
pub mod model;
pub mod sorting;
pub mod strings;
