//! Activity of git projects under watched directories: reading what `git`
//! reports, keeping a journal of changes, and digesting it on a schedule.

pub mod collector;
pub mod collector_laws;
pub mod daemon;
pub mod daemon_laws;
pub mod digest;
pub mod digest_laws;
pub mod discovery;
pub mod discovery_laws;
pub mod git;
pub mod git_laws;
pub mod journal_laws;
pub mod json;
pub mod order;
pub mod period_laws;
pub mod scan_laws;
pub mod schedule;
pub mod search_laws;
pub mod server;
pub mod server_laws;
pub mod store;
pub mod store_laws;
pub mod text;
pub mod text_laws;
pub mod time;
pub mod time_laws;
