use vstd::prelude::*;

verus! {

/// The operating system family whose conventions (hosts-file location,
/// fixed system entries) apply.
#[derive(Clone, Copy, Debug, PartialEq, Eq, Structural)]
pub enum Platform {
    Windows,
    Unix,
}

/// One mapping line of a hosts file.
#[derive(Clone, Debug, PartialEq, Eq)]
pub struct HostEntry {
    pub ip: String,
    pub hostname: String,
    pub comment: String,
    pub enabled: bool,
}

/// The mathematical value of a `HostEntry`.
pub struct EntryModel {
    pub ip: Seq<char>,
    pub hostname: Seq<char>,
    pub comment: Seq<char>,
    pub enabled: bool,
}

impl View for HostEntry {
    type V = EntryModel;

    open spec fn view(&self) -> EntryModel {
        EntryModel {
            ip: self.ip@,
            hostname: self.hostname@,
            comment: self.comment@,
            enabled: self.enabled,
        }
    }
}

/// Summary of one saved backup, as shown to the user.
#[derive(Clone, Debug, PartialEq, Eq)]
pub struct BackupInfo {
    pub name: String,
    pub created_at: String,
    pub path: String,
}

/// What a front end keeps between operations: the entries last loaded or
/// saved, and whether write permission has been obtained.
pub struct AppState {
    pub hosts_entries: Vec<HostEntry>,
    pub is_elevated: bool,
}

impl AppState {
    /// A fresh session: no entries, not elevated.
    pub fn new() -> (r: AppState)
        ensures
            r.hosts_entries@.len() == 0,
            !r.is_elevated,
    {
        AppState { hosts_entries: Vec::new(), is_elevated: false }
    }

    /// Whether a write must first obtain permission.
    pub fn needs_elevation(&self) -> (r: bool)
        ensures
            r == !self.is_elevated,
    {
        !self.is_elevated
    }

    /// Records that write permission was obtained.
    pub fn mark_elevated(&mut self)
        ensures
            final(self).is_elevated,
            final(self).hosts_entries == old(self).hosts_entries,
    {
        self.is_elevated = true;
    }

    /// Adopts `entries` as the current in-memory copy.
    pub fn set_entries(&mut self, entries: Vec<HostEntry>)
        ensures
            final(self).hosts_entries == entries,
            final(self).is_elevated == old(self).is_elevated,
    {
        self.hosts_entries = entries;
    }
}

} // verus!
