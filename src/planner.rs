//! Mount planning: which modules are overlaid onto which partition, and
//! which go through magic mount.
use vstd::prelude::*;
use crate::text::views;
use crate::inventory::{descending, Module, MountMode};
use crate::text::{
    base_name, base_name_of, dir_name, dir_name_of, insert_sorted, join_path, path_join, seq_less,
    str_eq, strictly_sorted,
};

verus! {

/// Partitions every plan considers, in this order.
pub open spec fn builtin_partitions() -> Seq<Seq<char>> {
    seq!["system"@, "vendor"@, "system_ext"@, "product"@, "odm"@]
}

/// Built-in partitions followed by the configured extras that are not yet
/// listed, in their order.
pub open spec fn partitions_with(extra: Seq<Seq<char>>) -> Seq<Seq<char>>
    decreases extra.len(),
{
    if extra.len() == 0 {
        builtin_partitions()
    } else {
        let r = partitions_with(extra.drop_last());
        if r.contains(extra.last()) {
            r
        } else {
            r.push(extra.last())
        }
    }
}

/// Whether `s` is one of the strings in `v`.
pub fn contains_str(v: &Vec<String>, s: &str) -> (r: bool)
    ensures
        r == views(v@).contains(s@),
{
    let mut i: usize = 0;
    while i < v.len()
        invariant
            i <= v.len(),
            forall|k: int| 0 <= k < i ==> views(v@)[k] != s@,
        decreases v.len() - i,
    {
        if str_eq(v[i].as_str(), s) {
            assert(views(v@)[i as int] == s@);
            return true;
        }
        i = i + 1;
    }
    false
}

/// The partitions a plan targets: built-ins, then configured extras, each once.
pub fn target_partitions(extra: &Vec<String>) -> (r: Vec<String>)
    ensures
        views(r@) == partitions_with(views(extra@)),
{
    let mut r: Vec<String> = Vec::new();
    r.push(String::from_str("system"));
    r.push(String::from_str("vendor"));
    r.push(String::from_str("system_ext"));
    r.push(String::from_str("product"));
    r.push(String::from_str("odm"));
    let ghost ex = views(extra@);
    assert(views(r@) =~= builtin_partitions());
    assert(ex.take(0) =~= Seq::<Seq<char>>::empty());
    let mut i: usize = 0;
    while i < extra.len()
        invariant
            i <= extra.len(),
            ex == views(extra@),
            views(r@) == partitions_with(ex.take(i as int)),
        decreases extra.len() - i,
    {
        assert(ex.take(i + 1).drop_last() =~= ex.take(i as int));
        assert(ex.take(i + 1).last() == extra@[i as int]@);
        if !contains_str(&r, extra[i].as_str()) {
            r.push(extra[i].clone());
            assert(views(r@) =~= partitions_with(ex.take(i as int)).push(extra@[i as int]@));
        }
        i = i + 1;
    }
    assert(ex.take(extra.len() as int) =~= ex);
    r
}

/// What the planner needs to know of the disk, gathered beforehand.
/// Indexed by module, then by partition, in the orders handed to the planner.
pub struct PlanProbe {
    /// The module's synchronized copy exists in the working area.
    pub synced: Vec<bool>,
    /// `<working area>/<id>/<partition>` is a non-empty directory.
    pub synced_content: Vec<Vec<bool>>,
    /// `<module source>/<partition>` is a non-empty directory.
    pub source_content: Vec<Vec<bool>>,
    /// The canonical live target of `/<partition>` when it is a directory.
    pub targets: Vec<Option<String>>,
}

impl PlanProbe {
    /// The probe covers `n` modules and `m` partitions.
    pub open spec fn fits(&self, n: int, m: int) -> bool {
        &&& self.synced@.len() == n
        &&& self.synced_content@.len() == n
        &&& self.source_content@.len() == n
        &&& self.targets@.len() == m
        &&& forall|i: int| 0 <= i < n ==> (#[trigger] self.synced_content@[i])@.len() == m
        &&& forall|i: int| 0 <= i < n ==> (#[trigger] self.source_content@[i])@.len() == m
    }
}

/// One overlay mount: the partition, its live target and the lower layers,
/// highest precedence first.
pub struct OverlayOperation {
    pub partition_name: String,
    pub target: String,
    pub lowerdirs: Vec<String>,
}

pub open spec fn op_view(op: OverlayOperation) -> (Seq<char>, Seq<char>, Seq<Seq<char>>) {
    (op.partition_name@, op.target@, views(op.lowerdirs@))
}

/// The outcome of planning.
pub struct MountPlan {
    pub overlay_ops: Vec<OverlayOperation>,
    pub magic_module_paths: Vec<String>,
    pub overlay_module_ids: Vec<String>,
    pub magic_module_ids: Vec<String>,
}

/// Module `i` asks for magic mount and has content for some partition.
pub open spec fn magic_pick(mods: Seq<Module>, probe: PlanProbe, m: int, i: int) -> bool {
    &&& mods[i].rules.default_mode == MountMode::Magic
    &&& exists|j: int| 0 <= j < m && #[trigger] probe.source_content@[i]@[j]
}

/// Module `i` contributes a layer to partition `j`.
pub open spec fn layer_at(mods: Seq<Module>, probe: PlanProbe, i: int, j: int) -> bool {
    &&& mods[i].rules.default_mode == MountMode::Overlay
    &&& probe.synced@[i]
    &&& probe.synced_content@[i]@[j]
}

/// Module `i` contributes a layer to some partition.
pub open spec fn overlay_pick(mods: Seq<Module>, probe: PlanProbe, m: int, i: int) -> bool {
    exists|j: int| 0 <= j < m && #[trigger] layer_at(mods, probe, i, j)
}

/// Indices below `n` that `sel` picks, ascending.
pub open spec fn picked(n: int, sel: spec_fn(int) -> bool) -> Seq<int>
    decreases n,
{
    if n <= 0 {
        Seq::empty()
    } else {
        let r = picked(n - 1, sel);
        if sel(n - 1) {
            r.push(n - 1)
        } else {
            r
        }
    }
}

/// Ids of the modules below `n` that `sel` picks.
pub open spec fn picked_ids(mods: Seq<Module>, n: int, sel: spec_fn(int) -> bool) -> Set<Seq<char>> {
    Set::new(|x: Seq<char>| exists|i: int| 0 <= i < n && sel(i) && #[trigger] mods[i].id@ == x)
}

/// The layer directory of module `i` for a partition.
pub open spec fn layer_path(root: Seq<char>, mods: Seq<Module>, i: int, part: Seq<char>) -> Seq<char> {
    path_join(path_join(root, mods[i].id@), part)
}

/// Modules that give partition `j` a layer, in inventory order.
pub open spec fn layer_owners(mods: Seq<Module>, probe: PlanProbe, j: int) -> Seq<int> {
    picked(mods.len() as int, |i: int| layer_at(mods, probe, i, j))
}

/// The lower layers of partition `j`, in inventory order.
pub open spec fn layers_of(
    root: Seq<char>,
    mods: Seq<Module>,
    parts: Seq<Seq<char>>,
    probe: PlanProbe,
    j: int,
) -> Seq<Seq<char>> {
    layer_owners(mods, probe, j).map_values(|i: int| layer_path(root, mods, i, parts[j]))
}

/// The overlay operations for the first `k` partitions: one per partition
/// that has layers and a live directory target.
pub open spec fn planned_ops(
    root: Seq<char>,
    mods: Seq<Module>,
    parts: Seq<Seq<char>>,
    probe: PlanProbe,
    k: int,
) -> Seq<(Seq<char>, Seq<char>, Seq<Seq<char>>)>
    decreases k,
{
    if k <= 0 {
        Seq::empty()
    } else {
        let r = planned_ops(root, mods, parts, probe, k - 1);
        let ls = layers_of(root, mods, parts, probe, k - 1);
        match probe.targets@[k - 1] {
            Some(t) => if ls.len() > 0 {
                r.push((parts[k - 1], t@, ls))
            } else {
                r
            },
            None => r,
        }
    }
}

/// Everything `generate` promises of its plan.
pub open spec fn plan_matches(
    plan: MountPlan,
    root: Seq<char>,
    mods: Seq<Module>,
    parts: Seq<Seq<char>>,
    probe: PlanProbe,
) -> bool {
    let n = mods.len() as int;
    let m = parts.len() as int;
    &&& plan.overlay_ops@.map_values(|op: OverlayOperation| op_view(op)) == planned_ops(
        root,
        mods,
        parts,
        probe,
        m,
    )
    &&& views(plan.magic_module_paths@) == picked(n, |i: int| magic_pick(mods, probe, m, i)).map_values(
        |i: int| mods[i].source_path@,
    )
    &&& strictly_sorted(views(plan.overlay_module_ids@))
    &&& strictly_sorted(views(plan.magic_module_ids@))
    &&& views(plan.overlay_module_ids@).to_set() == picked_ids(
        mods,
        n,
        |i: int| overlay_pick(mods, probe, m, i),
    )
    &&& views(plan.magic_module_ids@).to_set() == picked_ids(
        mods,
        n,
        |i: int| magic_pick(mods, probe, m, i),
    )
}

/// Whether any partition directory of a module holds something; entry `j`
/// tells whether the directory for partition `j` is non-empty.
pub fn has_meaningful_content(v: &Vec<bool>) -> (r: bool)
    ensures
        r == exists|j: int| 0 <= j < v@.len() && #[trigger] v@[j],
{
    let mut j: usize = 0;
    while j < v.len()
        invariant
            j <= v.len(),
            forall|k: int| 0 <= k < j ==> !v@[k],
        decreases v.len() - j,
    {
        if v[j] {
            return true;
        }
        j = j + 1;
    }
    false
}

proof fn lemma_picked_ids_step(mods: Seq<Module>, n: int, sel: spec_fn(int) -> bool)
    requires
        0 <= n,
    ensures
        picked_ids(mods, n + 1, sel) == (if sel(n) {
            picked_ids(mods, n, sel).insert(mods[n].id@)
        } else {
            picked_ids(mods, n, sel)
        }),
{
    let a = picked_ids(mods, n + 1, sel);
    let b = if sel(n) {
        picked_ids(mods, n, sel).insert(mods[n].id@)
    } else {
        picked_ids(mods, n, sel)
    };
    assert forall|x: Seq<char>| a.contains(x) <==> b.contains(x) by {
        if a.contains(x) {
            let i = choose|i: int| 0 <= i < n + 1 && sel(i) && #[trigger] mods[i].id@ == x;
            if i < n {
                assert(picked_ids(mods, n, sel).contains(x));
            }
        }
        if b.contains(x) && !(sel(n) && x == mods[n].id@) {
            let i = choose|i: int| 0 <= i < n && sel(i) && #[trigger] mods[i].id@ == x;
            assert(0 <= i < n + 1 && sel(i) && mods[i].id@ == x);
        }
        if sel(n) && x == mods[n].id@ {
            assert(0 <= n < n + 1 && sel(n) && mods[n].id@ == x);
        }
    }
    assert(a =~= b);
}

/// The lower layers of partition `j`, highest precedence first.
fn collect_layers(
    root: &str,
    modules: &Vec<Module>,
    parts: &Vec<String>,
    probe: &PlanProbe,
    j: usize,
) -> (r: Vec<String>)
    requires
        probe.fits(modules@.len() as int, parts@.len() as int),
        j < parts@.len(),
    ensures
        views(r@) == layers_of(root@, modules@, views(parts@), *probe, j as int),
{
    let ghost mods = modules@;
    let ghost ps = views(parts@);
    let ghost f = |i: int| layer_at(mods, *probe, i, j as int);
    let ghost g = |i: int| layer_path(root@, mods, i, ps[j as int]);
    let mut out: Vec<String> = Vec::new();
    let mut i: usize = 0;
    assert(views(out@) =~= picked(0, f).map_values(g));
    while i < modules.len()
        invariant
            i <= modules@.len(),
            mods == modules@,
            ps == views(parts@),
            j < parts@.len(),
            probe.fits(modules@.len() as int, parts@.len() as int),
            f == (|i: int| layer_at(mods, *probe, i, j as int)),
            g == (|i: int| layer_path(root@, mods, i, ps[j as int])),
            views(out@) == picked(i as int, f).map_values(g),
        decreases modules@.len() - i,
    {
        let m = &modules[i];
        let is_overlay = match m.rules.default_mode {
            MountMode::Overlay => true,
            _ => false,
        };
        if is_overlay && probe.synced[i] && probe.synced_content[i][j] {
            let base = join_path(root, m.id.as_str());
            let layer = join_path(base.as_str(), parts[j].as_str());
            out.push(layer);
            assert(views(out@) =~= picked(i as int, f).map_values(g).push(g(i as int)));
        }
        i = i + 1;
    }
    out
}

/// Builds the mount plan. Modules come in inventory order and `partitions`
/// lists the targets (see `target_partitions`); `storage_root` is the working
/// area holding each module's synchronized copy under its id.
pub fn generate(
    modules: &Vec<Module>,
    partitions: &Vec<String>,
    storage_root: &str,
    probe: &PlanProbe,
) -> (plan: MountPlan)
    requires
        probe.fits(modules@.len() as int, partitions@.len() as int),
    ensures
        plan_matches(plan, storage_root@, modules@, views(partitions@), *probe),
{
    let ghost mods = modules@;
    let ghost ps = views(partitions@);
    let ghost m = partitions@.len() as int;
    let ghost msel = |i: int| magic_pick(mods, *probe, m, i);
    let ghost osel = |i: int| overlay_pick(mods, *probe, m, i);
    let ghost mpath = |i: int| mods[i].source_path@;

    let mut magic_paths: Vec<String> = Vec::new();
    let mut magic_ids: Vec<String> = Vec::new();
    let mut overlay_ids: Vec<String> = Vec::new();
    let mut i: usize = 0;
    proof {
        assert(views(magic_paths@) =~= picked(0, msel).map_values(mpath));
        assert(picked_ids(mods, 0, msel) =~= Set::empty());
        assert(picked_ids(mods, 0, osel) =~= Set::empty());
        assert(views(magic_ids@).to_set() =~= Set::empty());
        assert(views(overlay_ids@).to_set() =~= Set::empty());
    }
    while i < modules.len()
        invariant
            i <= modules@.len(),
            mods == modules@,
            m == partitions@.len(),
            probe.fits(modules@.len() as int, m),
            msel == (|i: int| magic_pick(mods, *probe, m, i)),
            osel == (|i: int| overlay_pick(mods, *probe, m, i)),
            mpath == (|i: int| mods[i].source_path@),
            views(magic_paths@) == picked(i as int, msel).map_values(mpath),
            strictly_sorted(views(magic_ids@)),
            strictly_sorted(views(overlay_ids@)),
            views(magic_ids@).to_set() == picked_ids(mods, i as int, msel),
            views(overlay_ids@).to_set() == picked_ids(mods, i as int, osel),
        decreases modules@.len() - i,
    {
        let md = &modules[i];
        proof {
            lemma_picked_ids_step(mods, i as int, msel);
            lemma_picked_ids_step(mods, i as int, osel);
        }
        match md.rules.default_mode {
            MountMode::Magic => {
                if has_meaningful_content(&probe.source_content[i]) {
                    magic_paths.push(md.source_path.clone());
                    insert_sorted(&mut magic_ids, md.id.clone());
                    assert(views(magic_paths@) =~= picked(i as int, msel).map_values(mpath).push(
                        mpath(i as int),
                    ));
                }
                proof {
                    assert(!osel(i as int));
                }
            },
            MountMode::Overlay => {
                if probe.synced[i] && has_meaningful_content(&probe.synced_content[i]) {
                    insert_sorted(&mut overlay_ids, md.id.clone());
                    proof {
                        let j = choose|j: int|
                            0 <= j < probe.synced_content@[i as int]@.len()
                                && #[trigger] probe.synced_content@[i as int]@[j];
                        assert(layer_at(mods, *probe, i as int, j));
                    }
                }
                proof {
                    assert(!msel(i as int));
                }
            },
            MountMode::Ignore => {
                proof {
                    assert(!msel(i as int));
                    assert(!osel(i as int));
                }
            },
        }
        i = i + 1;
    }

    let mut ops: Vec<OverlayOperation> = Vec::new();
    let mut j: usize = 0;
    assert(ops@.map_values(|op: OverlayOperation| op_view(op)) =~= planned_ops(
        storage_root@,
        mods,
        ps,
        *probe,
        0,
    ));
    while j < partitions.len()
        invariant
            j <= partitions@.len(),
            mods == modules@,
            ps == views(partitions@),
            probe.fits(modules@.len() as int, partitions@.len() as int),
            ops@.map_values(|op: OverlayOperation| op_view(op)) == planned_ops(
                storage_root@,
                mods,
                ps,
                *probe,
                j as int,
            ),
        decreases partitions@.len() - j,
    {
        let layers = collect_layers(storage_root, modules, partitions, probe, j);
        if layers.len() > 0 {
            match &probe.targets[j] {
                Some(t) => {
                    let op = OverlayOperation {
                        partition_name: partitions[j].clone(),
                        target: t.clone(),
                        lowerdirs: layers,
                    };
                    ops.push(op);
                    assert(ops@.map_values(|op: OverlayOperation| op_view(op)) =~= planned_ops(
                        storage_root@,
                        mods,
                        ps,
                        *probe,
                        j as int,
                    ).push((ps[j as int], t@, layers_of(storage_root@, mods, ps, *probe, j as int))));
                },
                None => {},
            }
        }
        j = j + 1;
    }
    MountPlan {
        overlay_ops: ops,
        magic_module_paths: magic_paths,
        overlay_module_ids: overlay_ids,
        magic_module_ids: magic_ids,
    }
}

/// Module ids are distinct.
pub open spec fn distinct_ids(mods: Seq<Module>) -> bool {
    forall|a: int, b: int|
        0 <= a < mods.len() && 0 <= b < mods.len() && a != b ==> #[trigger] mods[a].id@
            != #[trigger] mods[b].id@
}

proof fn lemma_picked_ids_member(mods: Seq<Module>, n: int, sel: spec_fn(int) -> bool, i: int)
    requires
        distinct_ids(mods),
        0 <= i < n <= mods.len(),
        picked_ids(mods, n, sel).contains(mods[i].id@),
    ensures
        sel(i),
{
    let k = choose|k: int| 0 <= k < n && sel(k) && #[trigger] mods[k].id@ == mods[i].id@;
    assert(k == i);
}

proof fn lemma_picked_only_selected(n: int, sel: spec_fn(int) -> bool, i: int)
    requires
        picked(n, sel).contains(i),
    ensures
        sel(i),
    decreases n,
{
    if n > 0 {
        let r = picked(n - 1, sel);
        if sel(n - 1) && i == n - 1 {
        } else {
            let k = choose|k: int| 0 <= k < picked(n, sel).len() && picked(n, sel)[k] == i;
            if sel(n - 1) {
                assert(k < r.len());
                assert(r[k] == i);
            }
            assert(r.contains(i));
            lemma_picked_only_selected(n - 1, sel, i);
        }
    }
}

/// A module whose rules say `ignore` is listed neither among the overlay
/// modules nor among the magic modules of the plan, owns no overlay layer and
/// is not among the modules handed to magic mount.
pub proof fn lemma_ignored_module_unplanned(
    plan: MountPlan,
    root: Seq<char>,
    mods: Seq<Module>,
    parts: Seq<Seq<char>>,
    probe: PlanProbe,
    i: int,
)
    requires
        plan_matches(plan, root, mods, parts, probe),
        distinct_ids(mods),
        0 <= i < mods.len(),
        mods[i].rules.default_mode == MountMode::Ignore,
    ensures
        !views(plan.overlay_module_ids@).contains(mods[i].id@),
        !views(plan.magic_module_ids@).contains(mods[i].id@),
        forall|j: int| 0 <= j < parts.len() ==> !(#[trigger] layer_owners(mods, probe, j)).contains(i),
        !picked(mods.len() as int, |k: int| magic_pick(mods, probe, parts.len() as int, k)).contains(i),
{
    assert forall|j: int| 0 <= j < parts.len() implies !(#[trigger] layer_owners(mods, probe, j)).contains(i) by {
        if layer_owners(mods, probe, j).contains(i) {
            lemma_picked_only_selected(mods.len() as int, |k: int| layer_at(mods, probe, k, j), i);
        }
    }
    if picked(mods.len() as int, |k: int| magic_pick(mods, probe, parts.len() as int, k)).contains(i) {
        lemma_picked_only_selected(
            mods.len() as int,
            |k: int| magic_pick(mods, probe, parts.len() as int, k),
            i,
        );
    }
    let n = mods.len() as int;
    let m = parts.len() as int;
    if views(plan.overlay_module_ids@).contains(mods[i].id@) {
        assert(views(plan.overlay_module_ids@).to_set().contains(mods[i].id@));
        lemma_picked_ids_member(mods, n, |k: int| overlay_pick(mods, probe, m, k), i);
    }
    if views(plan.magic_module_ids@).contains(mods[i].id@) {
        assert(views(plan.magic_module_ids@).to_set().contains(mods[i].id@));
        lemma_picked_ids_member(mods, n, |k: int| magic_pick(mods, probe, m, k), i);
    }
}

/// No module id is planned both as overlay and as magic.
pub proof fn lemma_overlay_magic_disjoint(
    plan: MountPlan,
    root: Seq<char>,
    mods: Seq<Module>,
    parts: Seq<Seq<char>>,
    probe: PlanProbe,
)
    requires
        plan_matches(plan, root, mods, parts, probe),
        distinct_ids(mods),
    ensures
        views(plan.overlay_module_ids@).to_set().disjoint(views(plan.magic_module_ids@).to_set()),
{
    let n = mods.len() as int;
    let m = parts.len() as int;
    let osel = |k: int| overlay_pick(mods, probe, m, k);
    let msel = |k: int| magic_pick(mods, probe, m, k);
    assert forall|x: Seq<char>|
        views(plan.overlay_module_ids@).to_set().contains(x) implies !views(
            plan.magic_module_ids@,
        ).to_set().contains(x) by {
        let a = choose|a: int| 0 <= a < n && osel(a) && #[trigger] mods[a].id@ == x;
        if views(plan.magic_module_ids@).to_set().contains(x) {
            lemma_picked_ids_member(mods, n, msel, a);
        }
    }
}

proof fn lemma_picked_ascending(n: int, sel: spec_fn(int) -> bool)
    ensures
        forall|a: int| 0 <= a < picked(n, sel).len() ==> 0 <= #[trigger] picked(n, sel)[a] < n,
        forall|a: int, b: int|
            0 <= a < b < picked(n, sel).len() ==> #[trigger] picked(n, sel)[a] < #[trigger] picked(
                n,
                sel,
            )[b],
    decreases n,
{
    if n > 0 {
        lemma_picked_ascending(n - 1, sel);
        let r = picked(n - 1, sel);
        let p = picked(n, sel);
        assert forall|a: int| 0 <= a < p.len() implies 0 <= #[trigger] p[a] < n by {
            if a < r.len() {
                assert(p[a] == r[a]);
            }
        }
        assert forall|a: int, b: int| 0 <= a < b < p.len() implies #[trigger] p[a] < #[trigger] p[b] by {
            assert(p[a] == r[a]);
            if b < r.len() {
                assert(p[b] == r[b]);
            }
        }
    }
}

proof fn lemma_planned_ops_origin(
    root: Seq<char>,
    mods: Seq<Module>,
    parts: Seq<Seq<char>>,
    probe: PlanProbe,
    k: int,
    e: int,
)
    requires
        0 <= e < planned_ops(root, mods, parts, probe, k).len(),
    ensures
        exists|j: int|
            0 <= j < k && #[trigger] layers_of(root, mods, parts, probe, j).len() > 0
                && planned_ops(root, mods, parts, probe, k)[e].0 == parts[j]
                && planned_ops(root, mods, parts, probe, k)[e].2 == layers_of(
                root,
                mods,
                parts,
                probe,
                j,
            ),
    decreases k,
{
    if k > 0 {
        let r = planned_ops(root, mods, parts, probe, k - 1);
        if e < r.len() {
            lemma_planned_ops_origin(root, mods, parts, probe, k - 1, e);
        } else {
            assert(layers_of(root, mods, parts, probe, k - 1).len() > 0);
        }
    }
}

/// Every overlay operation has at least one lower layer, its layers are those
/// of its partition in inventory order, and so, over modules listed by
/// descending id, the owners of its layers come in descending id order.
pub proof fn lemma_overlay_layers_descending(
    plan: MountPlan,
    root: Seq<char>,
    mods: Seq<Module>,
    parts: Seq<Seq<char>>,
    probe: PlanProbe,
    k: int,
)
    requires
        plan_matches(plan, root, mods, parts, probe),
        descending(mods),
        0 <= k < plan.overlay_ops@.len(),
    ensures
        plan.overlay_ops@[k].lowerdirs@.len() > 0,
        exists|j: int|
            0 <= j < parts.len() && #[trigger] layers_of(root, mods, parts, probe, j) == views(
                plan.overlay_ops@[k].lowerdirs@,
            ) && plan.overlay_ops@[k].partition_name@ == parts[j] && (forall|a: int, b: int|
                0 <= a < b < layer_owners(mods, probe, j).len() ==> !seq_less(
                    mods[layer_owners(mods, probe, j)[a]].id@,
                    mods[layer_owners(mods, probe, j)[b]].id@,
                )),
{
    let m = parts.len() as int;
    let ops = planned_ops(root, mods, parts, probe, m);
    assert(plan.overlay_ops@.map_values(|op: OverlayOperation| op_view(op))[k] == ops[k]);
    lemma_planned_ops_origin(root, mods, parts, probe, m, k);
    let j = choose|j: int|
        0 <= j < m && #[trigger] layers_of(root, mods, parts, probe, j).len() > 0 && ops[k].0
            == parts[j] && ops[k].2 == layers_of(root, mods, parts, probe, j);
    let owners = layer_owners(mods, probe, j);
    lemma_picked_ascending(mods.len() as int, |i: int| layer_at(mods, probe, i, j));
    assert forall|a: int, b: int| 0 <= a < b < owners.len() implies !seq_less(
        mods[owners[a]].id@,
        mods[owners[b]].id@,
    ) by {
        assert(owners[a] < owners[b]);
    }
}

/// A name shown in the plan tree, `UNKNOWN` when there is none.
pub open spec fn shown_name(p: Seq<char>) -> Seq<char> {
    if p.len() == 0 {
        "UNKNOWN"@
    } else {
        p
    }
}

/// The branch glyph of a tree line.
pub open spec fn branch(last: bool) -> Seq<char> {
    if last {
        "╰──"@
    } else {
        "├──"@
    }
}

/// The indent under an operation line.
pub open spec fn indent(last: bool) -> Seq<char> {
    if last {
        "    "@
    } else {
        "│   "@
    }
}

/// Lines for the layers of one operation: each names its module.
pub open spec fn layer_lines(layers: Seq<Seq<char>>, last_op: bool) -> Seq<Seq<char>> {
    Seq::new(
        layers.len(),
        |j: int|
            indent(last_op) + branch(j == layers.len() - 1) + " [Layer] "@ + shown_name(
                base_name(dir_name(layers[j])),
            ),
    )
}

/// Lines for one operation and its layers.
pub open spec fn op_lines(op: (Seq<char>, Seq<char>, Seq<Seq<char>>), last_op: bool) -> Seq<Seq<char>> {
    seq![branch(last_op) + " [Target: "@ + op.0 + "] "@ + op.1] + layer_lines(op.2, last_op)
}

/// Lines for the first `k` of the operations.
pub open spec fn ops_lines(ops: Seq<(Seq<char>, Seq<char>, Seq<Seq<char>>)>, k: int, magic_empty: bool) -> Seq<
    Seq<char>,
>
    decreases k,
{
    if k <= 0 {
        Seq::empty()
    } else {
        ops_lines(ops, k - 1, magic_empty) + op_lines(
            ops[k - 1],
            k - 1 == ops.len() - 1 && magic_empty,
        )
    }
}

/// Lines for the magic-mount modules.
pub open spec fn magic_lines(paths: Seq<Seq<char>>) -> Seq<Seq<char>> {
    Seq::new(
        paths.len(),
        |i: int| branch(i == paths.len() - 1) + " [Bind] "@ + shown_name(base_name(paths[i])),
    )
}

/// The whole plan as a tree of lines.
pub open spec fn visual_lines(ops: Seq<(Seq<char>, Seq<char>, Seq<Seq<char>>)>, paths: Seq<Seq<char>>) -> Seq<
    Seq<char>,
> {
    if ops.len() == 0 && paths.len() == 0 {
        seq![">> Empty plan. Standby mode."@]
    } else {
        (if ops.len() > 0 {
            seq!["[OverlayFS Fusion Sequence]"@] + ops_lines(ops, ops.len() as int, paths.len() == 0)
        } else {
            Seq::empty()
        }) + (if paths.len() > 0 {
            seq!["[Magic Mount Fallback Protocol]"@] + magic_lines(paths)
        } else {
            Seq::empty()
        })
    }
}

fn branch_str(last: bool) -> (r: &'static str)
    ensures
        r@ == branch(last),
{
    if last {
        "╰──"
    } else {
        "├──"
    }
}

fn shown_string(p: String) -> (r: String)
    ensures
        r@ == shown_name(p@),
{
    if p.as_str().unicode_len() == 0 {
        String::from_str("UNKNOWN")
    } else {
        p
    }
}

fn push_op_lines(out: &mut Vec<String>, op: &OverlayOperation, last_op: bool)
    ensures
        views(final(out)@) == views(old(out)@) + op_lines(op_view(*op), last_op),
{
    let mut head = String::from_str(branch_str(last_op));
    head.append(" [Target: ");
    head.append(op.partition_name.as_str());
    head.append("] ");
    head.append(op.target.as_str());
    let ghost start = views(out@);
    out.push(head);
    let ghost ls = views(op.lowerdirs@);
    let n = op.lowerdirs.len();
    let mut j: usize = 0;
    assert(views(out@) =~= start + seq![op_lines(op_view(*op), last_op)[0]]);
    while j < n
        invariant
            n == op.lowerdirs@.len(),
            ls == views(op.lowerdirs@),
            j <= n,
            views(out@) == start + seq![op_lines(op_view(*op), last_op)[0]] + layer_lines(
                ls,
                last_op,
            ).take(j as int),
        decreases n - j,
    {
        let mut line = String::from_str(if last_op {
            "    "
        } else {
            "│   "
        });
        line.append(branch_str(j == n - 1));
        line.append(" [Layer] ");
        let parent = dir_name_of(op.lowerdirs[j].as_str());
        let name = shown_string(base_name_of(parent.as_str()));
        line.append(name.as_str());
        let ghost before = views(out@);
        out.push(line);
        assert(views(out@) =~= before.push(layer_lines(ls, last_op)[j as int]));
        assert(layer_lines(ls, last_op).take(j + 1) =~= layer_lines(ls, last_op).take(j as int).push(
            layer_lines(ls, last_op)[j as int],
        ));
        j = j + 1;
    }
    assert(layer_lines(ls, last_op).take(n as int) =~= layer_lines(ls, last_op));
    assert(views(out@) =~= start + op_lines(op_view(*op), last_op));
}

impl MountPlan {
    /// The plan drawn as a tree, one line per operation, layer and magic
    /// module, for the log.
    pub fn print_visuals(&self) -> (r: Vec<String>)
        ensures
            views(r@) == visual_lines(
                self.overlay_ops@.map_values(|op: OverlayOperation| op_view(op)),
                views(self.magic_module_paths@),
            ),
    {
        let ghost ops = self.overlay_ops@.map_values(|op: OverlayOperation| op_view(op));
        let ghost paths = views(self.magic_module_paths@);
        let mut out: Vec<String> = Vec::new();
        let no = self.overlay_ops.len();
        let nm = self.magic_module_paths.len();
        if no == 0 && nm == 0 {
            out.push(String::from_str(">> Empty plan. Standby mode."));
            assert(views(out@) =~= seq![">> Empty plan. Standby mode."@]);
            return out;
        }
        let ghost mut first: Seq<Seq<char>> = Seq::empty();
        if no > 0 {
            out.push(String::from_str("[OverlayFS Fusion Sequence]"));
            let mut i: usize = 0;
            assert(views(out@) =~= seq!["[OverlayFS Fusion Sequence]"@] + ops_lines(ops, 0, nm == 0));
            while i < no
                invariant
                    no == self.overlay_ops@.len(),
                    nm == self.magic_module_paths@.len(),
                    ops == self.overlay_ops@.map_values(|op: OverlayOperation| op_view(op)),
                    i <= no,
                    views(out@) == seq!["[OverlayFS Fusion Sequence]"@] + ops_lines(
                        ops,
                        i as int,
                        nm == 0,
                    ),
                decreases no - i,
            {
                let last = i == no - 1 && nm == 0;
                let ghost before = views(out@);
                push_op_lines(&mut out, &self.overlay_ops[i], last);
                assert(ops[i as int] == op_view(self.overlay_ops@[i as int]));
                assert(views(out@) =~= seq!["[OverlayFS Fusion Sequence]"@] + ops_lines(
                    ops,
                    i + 1,
                    nm == 0,
                ));
                i = i + 1;
            }
            proof {
                first = views(out@);
            }
        }
        assert(views(out@) == first);
        if nm > 0 {
            out.push(String::from_str("[Magic Mount Fallback Protocol]"));
            let mut i: usize = 0;
            assert(views(out@) =~= first + seq!["[Magic Mount Fallback Protocol]"@] + magic_lines(
                paths,
            ).take(0));
            while i < nm
                invariant
                    nm == self.magic_module_paths@.len(),
                    paths == views(self.magic_module_paths@),
                    i <= nm,
                    views(out@) == first + seq!["[Magic Mount Fallback Protocol]"@] + magic_lines(
                        paths,
                    ).take(i as int),
                decreases nm - i,
            {
                let mut line = String::from_str(branch_str(i == nm - 1));
                line.append(" [Bind] ");
                let name = shown_string(base_name_of(self.magic_module_paths[i].as_str()));
                line.append(name.as_str());
                let ghost before = views(out@);
                out.push(line);
                assert(views(out@) =~= before.push(magic_lines(paths)[i as int]));
                assert(magic_lines(paths).take(i + 1) =~= magic_lines(paths).take(i as int).push(
                    magic_lines(paths)[i as int],
                ));
                i = i + 1;
            }
            assert(magic_lines(paths).take(nm as int) =~= magic_lines(paths));
        }
        assert(views(out@) =~= visual_lines(ops, paths));
        out
    }
}

} // verus!
