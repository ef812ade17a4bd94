//! The record of what one boot mounted.
use vstd::prelude::*;

verus! {

/// What this boot did, as recorded for the front-end.
pub struct RuntimeState {
    pub timestamp: u64,
    pub pid: u32,
    pub storage_mode: String,
    pub mount_point: String,
    pub overlay_modules: Vec<String>,
    pub magic_modules: Vec<String>,
    pub nuke_active: bool,
    pub active_mounts: Vec<String>,
}

impl RuntimeState {
    /// The record of a boot, stamped with the time and process id given.
    pub fn new(
        timestamp: u64,
        pid: u32,
        storage_mode: String,
        mount_point: String,
        overlay_modules: Vec<String>,
        magic_modules: Vec<String>,
        nuke_active: bool,
        active_mounts: Vec<String>,
    ) -> (r: Self)
        ensures
            r.timestamp == timestamp,
            r.pid == pid,
            r.storage_mode == storage_mode,
            r.mount_point == mount_point,
            r.overlay_modules == overlay_modules,
            r.magic_modules == magic_modules,
            r.nuke_active == nuke_active,
            r.active_mounts == active_mounts,
    {
        RuntimeState {
            timestamp,
            pid,
            storage_mode,
            mount_point,
            overlay_modules,
            magic_modules,
            nuke_active,
            active_mounts,
        }
    }

    /// The state readers assume when no record exists.
    pub fn empty() -> (r: Self)
        ensures
            r.timestamp == 0,
            r.pid == 0,
            r.storage_mode@.len() == 0,
            r.mount_point@.len() == 0,
            r.overlay_modules@.len() == 0,
            r.magic_modules@.len() == 0,
            !r.nuke_active,
            r.active_mounts@.len() == 0,
    {
        RuntimeState {
            timestamp: 0,
            pid: 0,
            storage_mode: String::new(),
            mount_point: String::new(),
            overlay_modules: Vec::new(),
            magic_modules: Vec::new(),
            nuke_active: false,
            active_mounts: Vec::new(),
        }
    }
}

} // verus!
