//! The daemon's configuration and how command-line values layer over it.
use vstd::prelude::*;

verus! {

/// The configuration file the daemon reads when no other path is given.
pub const CONFIG_FILE_DEFAULT: &'static str = "/data/adb/meta-hybrid/config.toml";

/// Effective daemon configuration, with paths held as plain strings.
pub struct Config {
    pub moduledir: String,
    pub tempdir: Option<String>,
    pub mountsource: String,
    pub verbose: bool,
    pub partitions: Vec<String>,
    pub force_ext4: bool,
    pub enable_nuke: bool,
    pub disable_umount: bool,
    pub allow_umount_coexistence: bool,
    pub dry_run: bool,
}

pub open spec fn default_moduledir_spec() -> Seq<char> {
    "/data/adb/modules/"@
}

pub open spec fn default_mountsource_spec() -> Seq<char> {
    "KSU"@
}

/// Default module directory.
pub fn default_moduledir() -> (r: String)
    ensures
        r@ == default_moduledir_spec(),
{
    String::from_str("/data/adb/modules/")
}

/// Default mount-source label.
pub fn default_mountsource() -> (r: String)
    ensures
        r@ == default_mountsource_spec(),
{
    String::from_str("KSU")
}

impl Config {
    /// Every field holds its default value.
    pub open spec fn is_default(&self) -> bool {
        &&& self.moduledir@ == default_moduledir_spec()
        &&& self.tempdir is None
        &&& self.mountsource@ == default_mountsource_spec()
        &&& !self.verbose
        &&& self.partitions@.len() == 0
        &&& !self.force_ext4
        &&& !self.enable_nuke
        &&& !self.disable_umount
        &&& !self.allow_umount_coexistence
        &&& !self.dry_run
    }

    /// Layers command-line values over the loaded configuration: a given
    /// directory, tempdir or source replaces the field, a set flag turns the
    /// field on, and a non-empty partition list replaces the configured one.
    pub fn merge_with_cli(
        &mut self,
        moduledir: Option<String>,
        tempdir: Option<String>,
        mountsource: Option<String>,
        verbose: bool,
        partitions: Vec<String>,
        dry_run: bool,
    )
        ensures
            final(self).moduledir@ == (match moduledir {
                Some(d) => d@,
                None => old(self).moduledir@,
            }),
            final(self).tempdir == (if tempdir is Some {
                tempdir
            } else {
                old(self).tempdir
            }),
            final(self).mountsource@ == (match mountsource {
                Some(s) => s@,
                None => old(self).mountsource@,
            }),
            final(self).verbose == (old(self).verbose || verbose),
            final(self).partitions@ == (if partitions@.len() > 0 {
                partitions@
            } else {
                old(self).partitions@
            }),
            final(self).dry_run == (old(self).dry_run || dry_run),
            final(self).force_ext4 == old(self).force_ext4,
            final(self).enable_nuke == old(self).enable_nuke,
            final(self).disable_umount == old(self).disable_umount,
            final(self).allow_umount_coexistence == old(self).allow_umount_coexistence,
    {
        if let Some(dir) = moduledir {
            self.moduledir = dir;
        }
        if tempdir.is_some() {
            self.tempdir = tempdir;
        }
        if let Some(source) = mountsource {
            self.mountsource = source;
        }
        if verbose {
            self.verbose = true;
        }
        if partitions.len() > 0 {
            self.partitions = partitions;
        }
        if dry_run {
            self.dry_run = true;
        }
    }

    /// Whether umount hinting ends up disabled: a ZygiskSU denylist in
    /// enforcing mode turns it off unless coexistence is allowed.
    pub fn effective_disable_umount(&self, zygisk_enforcing: bool) -> (r: bool)
        ensures
            r == (self.disable_umount || (zygisk_enforcing && !self.allow_umount_coexistence)),
    {
        self.disable_umount || (zygisk_enforcing && !self.allow_umount_coexistence)
    }
}

impl Default for Config {
    fn default() -> (r: Self)
        ensures
            r.is_default(),
    {
        Config {
            moduledir: default_moduledir(),
            tempdir: None,
            mountsource: default_mountsource(),
            verbose: false,
            partitions: Vec::new(),
            force_ext4: false,
            enable_nuke: false,
            disable_umount: false,
            allow_umount_coexistence: false,
            dry_run: false,
        }
    }
}

} // verus!
