//! The module inventory: mount modes, per-module rules and the scan filter.
use vstd::prelude::*;
use vstd::seq_lib::{to_multiset_build, to_multiset_insert};
use crate::text::{lemma_less_total, lemma_less_transitive, seq_less, str_eq, str_less};

verus! {

/// How a module's files are projected onto the live filesystem.
#[derive(PartialEq, Eq, Structural, Clone, Copy, Debug)]
pub enum MountMode {
    Overlay,
    Magic,
    Ignore,
}

impl Default for MountMode {
    fn default() -> (r: Self)
        ensures
            r == MountMode::Overlay,
    {
        MountMode::Overlay
    }
}

/// Per-path overrides as a map; a later entry for the same path wins.
pub open spec fn path_map(s: Seq<(String, MountMode)>) -> Map<Seq<char>, MountMode>
    decreases s.len(),
{
    if s.len() == 0 {
        Map::empty()
    } else {
        path_map(s.drop_last()).insert(s.last().0@, s.last().1)
    }
}

/// The mode a path gets from a list of overrides, else the default.
pub open spec fn mode_for(s: Seq<(String, MountMode)>, rel: Seq<char>, default: MountMode) -> MountMode {
    if path_map(s).contains_key(rel) {
        path_map(s)[rel]
    } else {
        default
    }
}

/// Overrides listed after others take precedence over them.
pub proof fn lemma_path_map_append(a: Seq<(String, MountMode)>, b: Seq<(String, MountMode)>)
    ensures
        path_map(a + b) == path_map(a).union_prefer_right(path_map(b)),
    decreases b.len(),
{
    if b.len() == 0 {
        assert(a + b =~= a);
        assert(path_map(a).union_prefer_right(path_map(b)) =~= path_map(a));
    } else {
        lemma_path_map_append(a, b.drop_last());
        assert((a + b).drop_last() =~= a + b.drop_last());
        assert(path_map(a + b) =~= path_map(a).union_prefer_right(path_map(b)));
    }
}

/// A module's projection rules: a default mode and per-path overrides.
pub struct ModuleRules {
    pub default_mode: MountMode,
    pub paths: Vec<(String, MountMode)>,
}

impl ModuleRules {
    pub open spec fn overrides(&self) -> Map<Seq<char>, MountMode> {
        path_map(self.paths@)
    }

    /// Default rules: overlay, with no overrides.
    pub fn new() -> (r: Self)
        ensures
            r.default_mode == MountMode::Overlay,
            r.paths@.len() == 0,
    {
        ModuleRules { default_mode: MountMode::Overlay, paths: Vec::new() }
    }

    /// The mode for a path inside the module: its override, else the default.
    pub fn get_mode(&self, relative_path: &str) -> (r: MountMode)
        ensures
            r == mode_for(self.paths@, relative_path@, self.default_mode),
    {
        let mut j = self.paths.len();
        assert(self.paths@.take(j as int) =~= self.paths@);
        while j > 0
            invariant
                j <= self.paths@.len(),
                mode_for(self.paths@, relative_path@, self.default_mode) == mode_for(
                    self.paths@.take(j as int),
                    relative_path@,
                    self.default_mode,
                ),
            decreases j,
        {
            assert(self.paths@.take(j as int).drop_last() =~= self.paths@.take(j - 1));
            if str_eq(self.paths[j - 1].0.as_str(), relative_path) {
                return self.paths[j - 1].1;
            }
            j = j - 1;
        }
        self.default_mode
    }

    /// Layers user rules over module-internal rules: the user's default mode
    /// wins and the user's overrides replace internal ones for the same path.
    pub fn layer_user_rules(&mut self, user: ModuleRules)
        ensures
            final(self).default_mode == user.default_mode,
            final(self).paths@ == old(self).paths@ + user.paths@,
            final(self).overrides() == old(self).overrides().union_prefer_right(user.overrides()),
    {
        proof {
            lemma_path_map_append(self.paths@, user.paths@);
        }
        self.default_mode = user.default_mode;
        let mut extra = user.paths;
        self.paths.append(&mut extra);
    }
}

/// An enabled module found in the module directory.
pub struct Module {
    pub id: String,
    pub source_path: String,
    pub rules: ModuleRules,
}

/// A subdirectory of the module directory, with what the scanner saw in it.
pub struct ModuleEntry {
    pub module: Module,
    pub is_dir: bool,
    pub has_disable: bool,
    pub has_remove: bool,
    pub has_skip_mount: bool,
}

/// Directory names that are never modules.
pub open spec fn reserved_name(name: Seq<char>) -> bool {
    name == "meta-hybrid"@ || name == "lost+found"@ || name == ".git"@
}

/// Whether an entry is an enabled module.
pub open spec fn admitted(e: ModuleEntry) -> bool {
    &&& e.is_dir
    &&& !reserved_name(e.module.id@)
    &&& !e.has_disable
    &&& !e.has_remove
    &&& !e.has_skip_mount
}

/// Ids in descending order (equal ids may sit side by side).
pub open spec fn descending(s: Seq<Module>) -> bool {
    forall|i: int, j: int| 0 <= i < j < s.len() ==> !seq_less(#[trigger] s[i].id@, #[trigger] s[j].id@)
}

/// The modules of the admitted entries.
pub open spec fn admitted_modules(entries: Seq<ModuleEntry>) -> Seq<Module> {
    entries.filter(|e: ModuleEntry| admitted(e)).map_values(|e: ModuleEntry| e.module)
}

/// Whether a directory name is one the scanner skips.
pub fn is_reserved_name(name: &str) -> (r: bool)
    ensures
        r == reserved_name(name@),
{
    str_eq(name, "meta-hybrid") || str_eq(name, "lost+found") || str_eq(name, ".git")
}

/// Inserts a module so that ids stay in descending order.
fn insert_descending(out: &mut Vec<Module>, m: Module)
    requires
        descending(old(out)@),
    ensures
        descending(final(out)@),
        final(out)@.to_multiset() == old(out)@.to_multiset().insert(m),
{
    let mut k: usize = 0;
    while k < out.len() && !str_less(out[k].id.as_str(), m.id.as_str())
        invariant
            out@ == old(out)@,
            k <= out.len(),
            forall|i: int| 0 <= i < k ==> !seq_less(#[trigger] out@[i].id@, m.id@),
        decreases out.len() - k,
    {
        k = k + 1;
    }
    let ghost old_out = out@;
    proof {
        to_multiset_insert(old_out, k as int, m);
    }
    out.insert(k, m);
    proof {
        let nv = out@;
        assert(nv =~= old_out.insert(k as int, m));
        assert forall|i: int, j: int| 0 <= i < j < nv.len() implies !seq_less(
            #[trigger] nv[i].id@,
            #[trigger] nv[j].id@,
        ) by {
            if i == k && j > k {
                lemma_less_total(old_out[k as int].id@, m.id@);
                if j > k + 1 && seq_less(m.id@, old_out[j - 1].id@) {
                    lemma_less_transitive(old_out[k as int].id@, m.id@, old_out[j - 1].id@);
                }
            }
        }
    }
}

/// Enabled modules among the entries, ordered by descending id.
pub fn scan(entries: Vec<ModuleEntry>) -> (r: Vec<Module>)
    ensures
        descending(r@),
        r@.to_multiset() == admitted_modules(entries@).to_multiset(),
{
    let ghost all = entries@;
    let mut out: Vec<Module> = Vec::new();
    let mut rest = entries;
    let ghost mut seen: Seq<ModuleEntry> = Seq::empty();
    assert(all.take(0) =~= seen);
    assert(all.skip(0) =~= all);
    assert(admitted_modules(seen) =~= Seq::<Module>::empty());
    while rest.len() > 0
        invariant
            seen.len() + rest@.len() == all.len(),
            seen == all.take(seen.len() as int),
            rest@ == all.skip(seen.len() as int),
            descending(out@),
            out@.to_multiset() == admitted_modules(seen).to_multiset(),
        decreases rest@.len(),
    {
        let e = rest.remove(0);
        proof {
            assert(e == all[seen.len() as int]);
            assert(rest@ =~= all.skip(seen.len() as int + 1));
            let ns = seen.push(e);
            assert(ns =~= all.take(ns.len() as int));
            let f = |x: ModuleEntry| admitted(x);
            let g = |x: ModuleEntry| x.module;
            seen.lemma_filter_push(e, f);
            if admitted(e) {
                assert(ns.filter(f).map_values(g) =~= seen.filter(f).map_values(g).push(e.module));
                to_multiset_build(seen.filter(f).map_values(g), e.module);
            } else {
                assert(ns.filter(f).map_values(g) =~= seen.filter(f).map_values(g));
            }
            seen = ns;
        }
        let keep = e.is_dir && !is_reserved_name(e.module.id.as_str()) && !e.has_disable
            && !e.has_remove && !e.has_skip_mount;
        if keep {
            insert_descending(&mut out, e.module);
        }
    }
    proof {
        assert(seen =~= all);
    }
    out
}

} // verus!
