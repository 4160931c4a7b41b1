//! Hosts-file editing core: a parser and renderer for hosts-file text, the
//! rules for naming, listing and locating backups, and the session state that
//! a front end keeps between operations.

pub mod model;
pub mod text;
pub mod ip;
pub mod hosts;
pub mod backup;
pub mod laws;





