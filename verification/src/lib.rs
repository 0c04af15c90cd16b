//! Bundles a web application together with a resolved, transitively closed
//! set of binary runtime packages: a lockfile model, a remote-index parser,
//! a dependency resolver, the bounded-concurrency download bookkeeping and
//! the archive planning, all with verified contracts.

pub mod bundle;
pub mod cli;
pub mod download;
pub mod errors;
pub mod js;
pub mod renv;
pub mod repo;
pub mod text;
