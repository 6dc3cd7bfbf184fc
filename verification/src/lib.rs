//! Core of a filtering DNS proxy: canonical domain names, the
//! reverse-label policy tries, policy evaluation, the query pipeline's
//! decisions, blocklist ingestion, and the supervision rules around the
//! upstream resolver child.

pub mod domain;
pub mod blocklist;
pub mod climate;
pub mod clock;
pub mod config;
pub mod dns;
pub mod filters;
pub mod name_trie;
pub mod policy;
pub mod supervisor;
pub mod telemetry;
pub mod timer;
pub mod trie;
