//! Status of the HymoFS kernel device.
use vstd::prelude::*;
use crate::magic::EntryKind;
use crate::overlay::{relative_path, relative_to, strictly_under};
use crate::text::{join_path, path_join};

verus! {

/// The kernel protocol version this daemon speaks.
pub const HYMO_PROTOCOL_VERSION: i32 = 5;

/// Whether the HymoFS control device can be used.
#[derive(PartialEq, Eq, Structural, Clone, Copy, Debug)]
pub enum HymoFsStatus {
    Available,
    NotPresent,
    ProtocolMismatch,
}

/// The HymoFS control device, described by what was probed of it.
pub struct HymoFs;

impl HymoFs {
    /// Status from the probe: whether the device node exists and the version
    /// it reported, if any.
    pub fn check_status(dev_exists: bool, version: Option<i32>) -> (r: HymoFsStatus)
        ensures
            r == (if !dev_exists {
                HymoFsStatus::NotPresent
            } else {
                match version {
                    None => HymoFsStatus::NotPresent,
                    Some(v) => if v == HYMO_PROTOCOL_VERSION {
                        HymoFsStatus::Available
                    } else {
                        HymoFsStatus::ProtocolMismatch
                    },
                }
            }),
    {
        if !dev_exists {
            return HymoFsStatus::NotPresent;
        }
        match version {
            None => HymoFsStatus::NotPresent,
            Some(v) => if v == HYMO_PROTOCOL_VERSION {
                HymoFsStatus::Available
            } else {
                HymoFsStatus::ProtocolMismatch
            },
        }
    }

    /// Whether the device is present and speaks this protocol version.
    pub fn is_available(dev_exists: bool, version: Option<i32>) -> (r: bool)
        ensures
            r == (dev_exists && version == Some(HYMO_PROTOCOL_VERSION)),
    {
        match Self::check_status(dev_exists, version) {
            HymoFsStatus::Available => true,
            _ => false,
        }
    }
}

/// Whether HymoFS is usable on this device.
pub fn is_hymofs_active(dev_exists: bool, version: Option<i32>) -> (r: bool)
    ensures
        r == (dev_exists && version == Some(HYMO_PROTOCOL_VERSION)),
{
    HymoFs::is_available(dev_exists, version)
}

/// A redirection the HymoFS device is told about.
#[derive(Debug)]
pub enum HymoRule {
    /// Serve `target` from `source`.
    Redirect { target: String, source: String },
    /// Hide `target`.
    Hide { target: String },
}

/// The live path a module entry stands for: its path below the module
/// directory, placed below `target_base`.
pub open spec fn rule_target_spec(target_base: Seq<char>, module_dir: Seq<char>, entry: Seq<char>) -> Seq<
    char,
> {
    path_join(target_base, relative_to(entry, module_dir))
}

/// The live path for a module entry strictly below the module directory.
pub fn rule_target(target_base: &str, module_dir: &str, entry: &str) -> (r: String)
    requires
        strictly_under(entry@, module_dir@),
    ensures
        r@ == rule_target_spec(target_base@, module_dir@, entry@),
{
    let rel = relative_path(entry, module_dir);
    join_path(target_base, rel.as_str())
}

/// The rule injecting one module entry: files and symlinks are redirected,
/// a whiteout (character device 0) hides the live path, anything else has no rule.
pub fn injection_rule(kind: EntryKind, target: String, source: String) -> (r: Option<HymoRule>)
    ensures
        (kind is File || kind is Symlink) ==> (r == Some(HymoRule::Redirect { target, source })),
        (kind == EntryKind::CharDevice { rdev: 0 }) ==> (r == Some(HymoRule::Hide { target })),
        !(kind is File || kind is Symlink || (kind == EntryKind::CharDevice { rdev: 0 })) ==> (r is None),
{
    match kind {
        EntryKind::File | EntryKind::Symlink => Some(HymoRule::Redirect { target, source }),
        EntryKind::CharDevice { rdev } => if rdev == 0 {
            Some(HymoRule::Hide { target })
        } else {
            None
        },
        _ => None,
    }
}

/// Whether the rule for a module entry is deleted on removal: the same
/// entries that got one when the module was injected.
pub fn has_rule(kind: EntryKind) -> (r: bool)
    ensures
        r == (kind is File || kind is Symlink || (kind == EntryKind::CharDevice { rdev: 0 })),
{
    match kind {
        EntryKind::File | EntryKind::Symlink => true,
        EntryKind::CharDevice { rdev } => rdev == 0,
        _ => false,
    }
}

} // verus!
