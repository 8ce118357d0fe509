//! Ranked statistics over a repository's pull requests: which authors have
//! the most open requests, and which closed requests lived longest.
//!
//! The crate holds the verified pipeline — cursor walk bookkeeping,
//! per-author tallying, lifetime collection, and top-ten ranking — over plain
//! records. Fetching the records from the remote API and rendering the
//! ranked tables are left to the binary around it.

pub mod aggregate;
pub mod rank;
pub mod record;
pub mod report;
pub mod walk;
