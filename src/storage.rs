//! Choosing and setting up the working area: tmpfs first, else an ext4 image.
use vstd::prelude::*;

verus! {

/// Which backend holds the working area.
#[derive(PartialEq, Eq, Structural, Clone, Copy, Debug)]
pub enum StorageMode {
    Tmpfs,
    Ext4,
}

impl StorageMode {
    pub open spec fn name(self) -> Seq<char> {
        match self {
            StorageMode::Tmpfs => "tmpfs"@,
            StorageMode::Ext4 => "ext4"@,
        }
    }

    /// The name recorded in the runtime state.
    pub fn as_string(&self) -> (r: String)
        ensures
            r@ == self.name(),
    {
        match self {
            StorageMode::Tmpfs => String::from_str("tmpfs"),
            StorageMode::Ext4 => String::from_str("ext4"),
        }
    }
}

/// The mounted working area.
pub struct StorageHandle {
    pub mount_point: String,
    pub mode: String,
}

impl StorageHandle {
    /// The handle for a working area mounted at `mount_point`.
    pub fn new(mount_point: String, mode: StorageMode) -> (r: Self)
        ensures
            r.mount_point == mount_point,
            r.mode@ == mode.name(),
    {
        StorageHandle { mount_point, mode: mode.as_string() }
    }
}

/// Why the working area could not be set up.
#[derive(PartialEq, Eq, Structural, Clone, Copy, Debug)]
pub enum StorageError {
    ImageMissingAndCreateFailed,
    ImageCorruptAndUnrecoverable,
}

/// A step of setting up the working area.
#[derive(PartialEq, Eq, Structural, Clone, Copy, Debug)]
pub enum StorageStep {
    /// Nothing tried yet (the mount point is detached and created first).
    Begin,
    /// Mount a tmpfs and probe it for user xattrs.
    MountTmpfs,
    /// Check whether the image file exists.
    CheckImage,
    /// Create the image: 2 GiB, ext4 without journal.
    CreateImage,
    /// Mount the image.
    MountImage,
    /// Repair the image after a failed mount.
    RepairImage,
    /// Mount the image once more after repair.
    RemountImage,
}

/// What to do next.
#[derive(PartialEq, Eq, Structural, Clone, Copy, Debug)]
pub enum StorageAction {
    Run(StorageStep),
    Done(StorageMode),
    Fail(StorageError),
}

/// The selector's decisions: tmpfs first unless ext4 is forced, then the
/// image, created if missing and repaired once if it does not mount.
/// `ok` tells whether the step just run succeeded (for `CheckImage`, whether
/// the image exists; for `MountTmpfs`, whether the tmpfs mounted and took an
/// xattr, else it is detached before the image is tried).
pub open spec fn storage_next_spec(last: StorageStep, ok: bool, force_ext4: bool) -> StorageAction {
    match last {
        StorageStep::Begin => if force_ext4 {
            StorageAction::Run(StorageStep::CheckImage)
        } else {
            StorageAction::Run(StorageStep::MountTmpfs)
        },
        StorageStep::MountTmpfs => if ok {
            StorageAction::Done(StorageMode::Tmpfs)
        } else {
            StorageAction::Run(StorageStep::CheckImage)
        },
        StorageStep::CheckImage => if ok {
            StorageAction::Run(StorageStep::MountImage)
        } else {
            StorageAction::Run(StorageStep::CreateImage)
        },
        StorageStep::CreateImage => if ok {
            StorageAction::Run(StorageStep::MountImage)
        } else {
            StorageAction::Fail(StorageError::ImageMissingAndCreateFailed)
        },
        StorageStep::MountImage => if ok {
            StorageAction::Done(StorageMode::Ext4)
        } else {
            StorageAction::Run(StorageStep::RepairImage)
        },
        StorageStep::RepairImage => if ok {
            StorageAction::Run(StorageStep::RemountImage)
        } else {
            StorageAction::Fail(StorageError::ImageCorruptAndUnrecoverable)
        },
        StorageStep::RemountImage => if ok {
            StorageAction::Done(StorageMode::Ext4)
        } else {
            StorageAction::Fail(StorageError::ImageCorruptAndUnrecoverable)
        },
    }
}

/// Next action of the storage selector after `last` ran with outcome `ok`.
pub fn storage_next(last: StorageStep, ok: bool, force_ext4: bool) -> (r: StorageAction)
    ensures
        r == storage_next_spec(last, ok, force_ext4),
{
    match last {
        StorageStep::Begin => if force_ext4 {
            StorageAction::Run(StorageStep::CheckImage)
        } else {
            StorageAction::Run(StorageStep::MountTmpfs)
        },
        StorageStep::MountTmpfs => if ok {
            StorageAction::Done(StorageMode::Tmpfs)
        } else {
            StorageAction::Run(StorageStep::CheckImage)
        },
        StorageStep::CheckImage => if ok {
            StorageAction::Run(StorageStep::MountImage)
        } else {
            StorageAction::Run(StorageStep::CreateImage)
        },
        StorageStep::CreateImage => if ok {
            StorageAction::Run(StorageStep::MountImage)
        } else {
            StorageAction::Fail(StorageError::ImageMissingAndCreateFailed)
        },
        StorageStep::MountImage => if ok {
            StorageAction::Done(StorageMode::Ext4)
        } else {
            StorageAction::Run(StorageStep::RepairImage)
        },
        StorageStep::RepairImage => if ok {
            StorageAction::Run(StorageStep::RemountImage)
        } else {
            StorageAction::Fail(StorageError::ImageCorruptAndUnrecoverable)
        },
        StorageStep::RemountImage => if ok {
            StorageAction::Done(StorageMode::Ext4)
        } else {
            StorageAction::Fail(StorageError::ImageCorruptAndUnrecoverable)
        },
    }
}

/// Used-space percentage of a filesystem, 0 when its size is 0.
pub fn usage_percent(total: u64, free: u64) -> (r: u8)
    requires
        free <= total,
    ensures
        total == 0 ==> r == 0,
        total > 0 ==> r as int == ((total - free) as int * 100) / (total as int),
{
    if total == 0 {
        return 0;
    }
    let used = total - free;
    let pct = (used as u128) * 100 / (total as u128);
    assert(pct <= 100) by (nonlinear_arith)
        requires
            used <= total,
            total > 0,
            pct == (used as int * 100) / (total as int),
    ;
    pct as u8
}

} // verus!
