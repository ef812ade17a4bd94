//! The list of mount points handed to the kernel for later detachment.
use vstd::prelude::*;
use crate::text::{str_eq, trim_text, trimmed};

verus! {

/// Mount points to hand to the kernel for later detachment, collected during
/// one mount pass by its single owner.
pub struct UmountHints {
    pub canceled: bool,
    pub targets: Vec<String>,
}

/// ZygiskSU in enforcing mode with the tmpfs at `/debug_ramdisk` does its own
/// unmounting; hinting then stands down for the rest of the pass.
pub open spec fn zygisk_conflict(zygisksu_enabled: bool, enforcing: bool, tmpfs_dir: Seq<char>) -> bool {
    zygisksu_enabled && enforcing && trimmed(tmpfs_dir) == "/debug_ramdisk"@
}

impl UmountHints {
    /// An empty list.
    pub fn new() -> (r: Self)
        ensures
            !r.canceled,
            r.targets@.len() == 0,
    {
        UmountHints { canceled: false, targets: Vec::new() }
    }

    /// Records a mount point for detachment, unless hinting was canceled or
    /// is canceled now because ZygiskSU handles unmounting.
    pub fn send_unmountable(
        &mut self,
        target: String,
        zygisksu_enabled: bool,
        enforcing: bool,
        tmpfs_dir: &str,
    )
        ensures
            final(self).canceled == (old(self).canceled || zygisk_conflict(
                zygisksu_enabled,
                enforcing,
                tmpfs_dir@,
            )),
            final(self).targets@ == (if final(self).canceled {
                old(self).targets@
            } else {
                old(self).targets@.push(target)
            }),
    {
        if self.canceled {
            return;
        }
        if zygisksu_enabled && enforcing {
            let t = trim_text(tmpfs_dir);
            if str_eq(t.as_str(), "/debug_ramdisk") {
                self.canceled = true;
                return;
            }
        }
        self.targets.push(target);
    }

    /// Hands out the collected mount points and empties the list.
    pub fn commit(&mut self) -> (r: Vec<String>)
        ensures
            r@ == old(self).targets@,
            final(self).targets@.len() == 0,
            final(self).canceled == old(self).canceled,
    {
        let mut out: Vec<String> = Vec::new();
        std::mem::swap(&mut out, &mut self.targets);
        out
    }
}

} // verus!
