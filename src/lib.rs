//! A leaderless, eventually consistent model of threaded discussions.
//!
//! Every value is a join-semilattice: actors author content offline in their
//! own `Slice`, and any number of slices merge without coordination.
//!
//! - `lattice`: semilattices over mathematical values, and their laws.
//! - `primitives`: executable counters, sets, maps, guarded pairs and
//!   redactable cells, each tied to its mathematical model.
//! - `schema`: what one actor authors (`Owned`, `Shared`, `Slice`) and the
//!   join of all actors (`Root`).
//! - `actor`: the mutation interface of one actor on one device.
//! - `detailed`: the materialized view and the fold that computes it.
//! - `order`: the partial order that the join induces.
//! - `laws`: the algebraic laws, proved once for all values.

pub mod actor;
pub mod detailed;
pub mod lattice;
pub mod laws;
pub mod order;
pub mod primitives;
pub mod schema;
