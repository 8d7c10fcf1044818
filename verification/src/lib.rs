//! Core of a short-link redirect service: an in-process table of aliases and
//! URL templates, kept in sync with a remote key-value store by a
//! replication worker, persisted through snapshots, and consulted by a
//! template renderer that builds the final redirect target.

pub mod datastore;
pub mod golink;
pub mod provider;
pub mod redirect;
pub mod rustlink;
pub mod snapshot;
pub mod state;
pub mod strings;
pub mod util;
