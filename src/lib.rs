//! Threshold-signing session coordination for a client of a guardian
//! federation: the ordered share list of a session, the session state
//! machine, the federation directory, the session store and the persisted
//! form of its sessions, the coordinator that decides each next step, and
//! the single-writer lock around the local database.

pub mod share;
pub mod session;
pub mod federation;
pub mod store;
pub mod record;
pub mod digest;
pub mod coordinator;
pub mod locked;
pub mod config_record;
