//! What happens after the mounts ran: overlay fallback to magic mount, the
//! final id lists, and the dry-run conflict report.
use vstd::prelude::*;
use crate::text::views;
use crate::planner::{contains_str, MountPlan, OverlayOperation};
use crate::text::{
    base_name, base_name_of, dir_name, dir_name_of, insert_sorted, lemma_push_to_set, strictly_sorted,
};

verus! {

/// Final module id lists after overlay fallback and magic mount.
pub struct ExecutionResult {
    pub overlay_module_ids: Vec<String>,
    pub magic_module_ids: Vec<String>,
}

/// Adds every string of `src` to the strictly ascending list `dst`.
pub fn merge_sorted(dst: &mut Vec<String>, src: &Vec<String>)
    requires
        strictly_sorted(views(old(dst)@)),
    ensures
        strictly_sorted(views(final(dst)@)),
        views(final(dst)@).to_set() == views(old(dst)@).to_set().union(views(src@).to_set()),
{
    let ghost s = views(src@);
    let mut i: usize = 0;
    assert(s.take(0).to_set() =~= Set::<Seq<char>>::empty());
    assert(views(dst@).to_set() =~= views(old(dst)@).to_set().union(s.take(0).to_set()));
    while i < src.len()
        invariant
            i <= src@.len(),
            s == views(src@),
            strictly_sorted(views(dst@)),
            views(dst@).to_set() == views(old(dst)@).to_set().union(s.take(i as int).to_set()),
        decreases src@.len() - i,
    {
        insert_sorted(dst, src[i].clone());
        proof {
            assert(s.take(i + 1) =~= s.take(i as int).push(s[i as int]));
            lemma_push_to_set(s.take(i as int), s[i as int]);
            assert(views(dst@).to_set() =~= views(old(dst)@).to_set().union(
                s.take(i + 1).to_set(),
            ));
        }
        i = i + 1;
    }
    assert(s.take(src@.len() as int) =~= s);
}

/// Last path components of the paths, each once, ascending.
pub fn names_of(paths: &Vec<String>) -> (r: Vec<String>)
    ensures
        strictly_sorted(views(r@)),
        views(r@).to_set() == views(paths@).to_set().map(|p: Seq<char>| base_name(p)),
{
    let ghost s = views(paths@);
    let ghost f = |p: Seq<char>| base_name(p);
    let mut out: Vec<String> = Vec::new();
    let mut i: usize = 0;
    assert(s.take(0).to_set().map(f) =~= Set::<Seq<char>>::empty());
    assert(views(out@).to_set() =~= Set::<Seq<char>>::empty());
    while i < paths.len()
        invariant
            i <= paths@.len(),
            s == views(paths@),
            f == (|p: Seq<char>| base_name(p)),
            strictly_sorted(views(out@)),
            views(out@).to_set() == s.take(i as int).to_set().map(f),
        decreases paths@.len() - i,
    {
        let name = base_name_of(paths[i].as_str());
        insert_sorted(&mut out, name);
        proof {
            let t = s.take(i as int);
            assert(s.take(i + 1) =~= t.push(s[i as int]));
            lemma_push_to_set(t, s[i as int]);
            assert forall|y: Seq<char>|
                t.push(s[i as int]).to_set().map(f).contains(y) <==> t.to_set().map(f).insert(
                    f(s[i as int]),
                ).contains(y) by {
                if t.push(s[i as int]).to_set().map(f).contains(y) {
                    let a = choose|a: Seq<char>| t.push(s[i as int]).to_set().contains(a) && f(a) == y;
                    if a != s[i as int] {
                        assert(t.to_set().contains(a));
                    }
                }
                if t.to_set().map(f).contains(y) {
                    let a = choose|a: Seq<char>| t.to_set().contains(a) && f(a) == y;
                    assert(t.push(s[i as int]).to_set().contains(a));
                }
                if y == f(s[i as int]) {
                    assert(t.push(s[i as int]).to_set().contains(s[i as int]));
                }
            }
            assert(t.push(s[i as int]).to_set().map(f) =~= t.to_set().map(f).insert(f(s[i as int])));
        }
        i = i + 1;
    }
    assert(s.take(paths@.len() as int) =~= s);
    out
}

/// Module directories behind the layers of an operation: each lower layer
/// `<root>/<id>/<partition>` stands for `<root>/<id>`.
pub open spec fn op_dirs(op: OverlayOperation) -> Set<Seq<char>> {
    views(op.lowerdirs@).to_set().map(|l: Seq<char>| dir_name(l))
}

/// Module directories of the first `k` operations whose mount failed.
pub open spec fn fallback_dirs(ops: Seq<OverlayOperation>, failed: Seq<bool>, k: int) -> Set<Seq<char>>
    decreases k,
{
    if k <= 0 {
        Set::empty()
    } else if failed[k - 1] {
        fallback_dirs(ops, failed, k - 1).union(op_dirs(ops[k - 1]))
    } else {
        fallback_dirs(ops, failed, k - 1)
    }
}

/// Module directories whose layers fall back to magic mount.
pub fn failed_layer_dirs(plan: &MountPlan, overlay_failed: &Vec<bool>) -> (r: Vec<String>)
    requires
        overlay_failed@.len() == plan.overlay_ops@.len(),
    ensures
        strictly_sorted(views(r@)),
        views(r@).to_set() == fallback_dirs(
            plan.overlay_ops@,
            overlay_failed@,
            plan.overlay_ops@.len() as int,
        ),
{
    let mut out: Vec<String> = Vec::new();
    let mut k: usize = 0;
    assert(views(out@).to_set() =~= Set::<Seq<char>>::empty());
    while k < plan.overlay_ops.len()
        invariant
            k <= plan.overlay_ops@.len(),
            overlay_failed@.len() == plan.overlay_ops@.len(),
            strictly_sorted(views(out@)),
            views(out@).to_set() == fallback_dirs(plan.overlay_ops@, overlay_failed@, k as int),
        decreases plan.overlay_ops@.len() - k,
    {
        if overlay_failed[k] {
            let op = &plan.overlay_ops[k];
            let mut dirs: Vec<String> = Vec::new();
            let mut l: usize = 0;
            let ghost ls = views(op.lowerdirs@);
            let ghost f = |p: Seq<char>| dir_name(p);
            assert(views(dirs@).to_set() =~= ls.take(0).to_set().map(f));
            while l < op.lowerdirs.len()
                invariant
                    l <= op.lowerdirs@.len(),
                    ls == views(op.lowerdirs@),
                    f == (|p: Seq<char>| dir_name(p)),
                    views(dirs@).to_set() == ls.take(l as int).to_set().map(f),
                decreases op.lowerdirs@.len() - l,
            {
                let d = dir_name_of(op.lowerdirs[l].as_str());
                let ghost prev = views(dirs@);
                dirs.push(d);
                proof {
                    let t = ls.take(l as int);
                    let x = ls[l as int];
                    assert(ls.take(l + 1) =~= t.push(x));
                    lemma_push_to_set(t, x);
                    lemma_push_to_set(prev, f(x));
                    assert(views(dirs@) =~= prev.push(f(x)));
                    assert forall|y: Seq<char>| t.push(x).to_set().map(f).contains(y) <==> t.to_set().map(f).insert(
                        f(x),
                    ).contains(y) by {
                        if t.push(x).to_set().map(f).contains(y) {
                            let a = choose|a: Seq<char>| t.push(x).to_set().contains(a) && f(a) == y;
                            if a != x {
                                assert(t.to_set().contains(a));
                            }
                        }
                        if t.to_set().map(f).contains(y) {
                            let a = choose|a: Seq<char>| t.to_set().contains(a) && f(a) == y;
                            assert(t.push(x).to_set().contains(a));
                        }
                        if y == f(x) {
                            assert(t.push(x).to_set().contains(x));
                        }
                    }
                    assert(t.push(x).to_set().map(f) =~= t.to_set().map(f).insert(f(x)));
                }
                l = l + 1;
            }
            assert(ls.take(op.lowerdirs@.len() as int) =~= ls);
            merge_sorted(&mut out, &dirs);
        }
        k = k + 1;
    }
    out
}

/// Paths handed to the magic-mount engine: the plan's magic modules and the
/// module directories of failed overlay operations, each once, ascending.
pub fn magic_queue(plan: &MountPlan, overlay_failed: &Vec<bool>) -> (r: Vec<String>)
    requires
        overlay_failed@.len() == plan.overlay_ops@.len(),
    ensures
        strictly_sorted(views(r@)),
        views(r@).to_set() == views(plan.magic_module_paths@).to_set().union(
            fallback_dirs(plan.overlay_ops@, overlay_failed@, plan.overlay_ops@.len() as int),
        ),
{
    let mut queue: Vec<String> = Vec::new();
    assert(views(queue@).to_set() =~= Set::<Seq<char>>::empty());
    merge_sorted(&mut queue, &plan.magic_module_paths);
    let dirs = failed_layer_dirs(plan, overlay_failed);
    merge_sorted(&mut queue, &dirs);
    assert(views(queue@).to_set() =~= views(plan.magic_module_paths@).to_set().union(
        views(dirs@).to_set(),
    ));
    queue
}

/// Ids of modules whose overlay mount failed.
pub open spec fn fallback_ids(plan: MountPlan, failed: Seq<bool>) -> Set<Seq<char>> {
    fallback_dirs(plan.overlay_ops@, failed, plan.overlay_ops@.len() as int).map(
        |d: Seq<char>| base_name(d),
    )
}

/// Final id lists. `overlay_failed[k]` tells whether the k-th overlay
/// operation failed, `queue` is the magic queue (see `magic_queue`) and
/// `magic_ok` whether the magic-mount engine succeeded on it. Failed overlay
/// modules leave the overlay list; magic ids are the queue's module ids when
/// the engine ran and succeeded, else none.
pub fn execute(plan: &MountPlan, overlay_failed: &Vec<bool>, queue: &Vec<String>, magic_ok: bool) -> (r:
    ExecutionResult)
    requires
        overlay_failed@.len() == plan.overlay_ops@.len(),
        views(queue@).to_set() == views(plan.magic_module_paths@).to_set().union(
            fallback_dirs(plan.overlay_ops@, overlay_failed@, plan.overlay_ops@.len() as int),
        ),
    ensures
        strictly_sorted(views(r.overlay_module_ids@)),
        strictly_sorted(views(r.magic_module_ids@)),
        views(r.overlay_module_ids@).to_set() == views(plan.overlay_module_ids@).to_set().difference(
            fallback_ids(*plan, overlay_failed@),
        ),
        views(r.magic_module_ids@).to_set() == (if queue@.len() > 0 && magic_ok {
            views(plan.magic_module_paths@).to_set().map(|p: Seq<char>| base_name(p)).union(
                fallback_ids(*plan, overlay_failed@),
            )
        } else {
            Set::empty()
        }),
{
    let dirs = failed_layer_dirs(plan, overlay_failed);
    let failed_ids = names_of(&dirs);
    let mut overlay: Vec<String> = Vec::new();
    let ghost ids = views(plan.overlay_module_ids@);
    let ghost gone = views(failed_ids@).to_set();
    let mut i: usize = 0;
    assert(views(overlay@).to_set() =~= ids.take(0).to_set().difference(gone));
    while i < plan.overlay_module_ids.len()
        invariant
            i <= plan.overlay_module_ids@.len(),
            ids == views(plan.overlay_module_ids@),
            gone == views(failed_ids@).to_set(),
            strictly_sorted(views(overlay@)),
            views(overlay@).to_set() == ids.take(i as int).to_set().difference(gone),
        decreases plan.overlay_module_ids@.len() - i,
    {
        let id = &plan.overlay_module_ids[i];
        let drop = contains_str(&failed_ids, id.as_str());
        proof {
            assert(ids.take(i + 1) =~= ids.take(i as int).push(ids[i as int]));
            lemma_push_to_set(ids.take(i as int), ids[i as int]);
            assert(drop == gone.contains(ids[i as int]));
        }
        if !drop {
            insert_sorted(&mut overlay, id.clone());
        }
        assert(views(overlay@).to_set() =~= ids.take(i + 1).to_set().difference(gone));
        i = i + 1;
    }
    assert(ids.take(plan.overlay_module_ids@.len() as int) =~= ids);
    let magic = if queue.len() > 0 && magic_ok {
        let names = names_of(queue);
        proof {
            let f = |p: Seq<char>| base_name(p);
            let a = views(plan.magic_module_paths@).to_set();
            let b = fallback_dirs(plan.overlay_ops@, overlay_failed@, plan.overlay_ops@.len() as int);
            assert forall|y: Seq<char>| #[trigger] a.union(b).map(f).contains(y) <==> a.map(f).union(
                b.map(f),
            ).contains(y) by {
                if a.union(b).map(f).contains(y) {
                    let x = choose|x: Seq<char>| a.union(b).contains(x) && f(x) == y;
                    if a.contains(x) {
                        assert(a.map(f).contains(y));
                    } else {
                        assert(b.map(f).contains(y));
                    }
                }
                if a.map(f).contains(y) {
                    let x = choose|x: Seq<char>| a.contains(x) && f(x) == y;
                    assert(a.union(b).contains(x));
                }
                if b.map(f).contains(y) {
                    let x = choose|x: Seq<char>| b.contains(x) && f(x) == y;
                    assert(a.union(b).contains(x));
                }
            }
            assert(a.union(b).map(f) =~= a.map(f).union(b.map(f)));
        }
        names
    } else {
        let empty: Vec<String> = Vec::new();
        assert(views(empty@).to_set() =~= Set::<Seq<char>>::empty());
        empty
    };
    ExecutionResult { overlay_module_ids: overlay, magic_module_ids: magic }
}

/// The module id a module directory stands for: its last path component.
pub fn extract_id(path: &str) -> (r: Option<String>)
    ensures
        r is None <==> base_name(path@).len() == 0,
        r matches Some(id) ==> id@ == base_name(path@),
{
    let name = base_name_of(path);
    if name.as_str().unicode_len() == 0 {
        None
    } else {
        Some(name)
    }
}

/// A relative path provided by more than one layer of an overlay.
pub struct ConflictEntry {
    pub partition: String,
    pub relative_path: String,
    pub contending_modules: Vec<String>,
}

/// Modules, in layer order, among the first `k` layers whose file list holds `p`.
pub open spec fn contenders(layers: Seq<Seq<char>>, files: Seq<Seq<Seq<char>>>, p: Seq<char>, k: int) -> Seq<
    Seq<char>,
>
    decreases k,
{
    if k <= 0 {
        Seq::empty()
    } else if files[k - 1].contains(p) {
        contenders(layers, files, p, k - 1).push(base_name(dir_name(layers[k - 1])))
    } else {
        contenders(layers, files, p, k - 1)
    }
}

/// Every path listed for the first `k` layers.
pub open spec fn listed_paths(files: Seq<Seq<Seq<char>>>, k: int) -> Set<Seq<char>>
    decreases k,
{
    if k <= 0 {
        Set::empty()
    } else {
        listed_paths(files, k - 1).union(files[k - 1].to_set())
    }
}

/// The file lists of the layers.
pub open spec fn file_views(files: Seq<Vec<String>>) -> Seq<Seq<Seq<char>>> {
    files.map_values(|f: Vec<String>| views(f@))
}

/// Conflicts among the layers of an overlay operation. `files[k]` lists the
/// relative paths of the files under layer `k`. Each path present in two or
/// more layers is reported once, in ascending order, with the modules that
/// provide it in layer order (the first one wins in the overlay).
pub fn analyze_conflicts(op: &OverlayOperation, files: &Vec<Vec<String>>) -> (r: Vec<ConflictEntry>)
    requires
        files@.len() == op.lowerdirs@.len(),
    ensures
        strictly_sorted(r@.map_values(|c: ConflictEntry| c.relative_path@)),
        r@.map_values(|c: ConflictEntry| c.relative_path@).to_set() == listed_paths(
            file_views(files@),
            files@.len() as int,
        ).filter(
            |p: Seq<char>|
                contenders(views(op.lowerdirs@), file_views(files@), p, files@.len() as int).len()
                    >= 2,
        ),
        forall|i: int|
            0 <= i < r@.len() ==> (#[trigger] r@[i]).partition == op.partition_name && views(
                r@[i].contending_modules@,
            ) == contenders(
                views(op.lowerdirs@),
                file_views(files@),
                r@[i].relative_path@,
                files@.len() as int,
            ),
{
    let n = files.len();
    let ghost fv = file_views(files@);
    let ghost ls = views(op.lowerdirs@);
    let mut all: Vec<String> = Vec::new();
    let mut k: usize = 0;
    assert(views(all@).to_set() =~= listed_paths(fv, 0));
    while k < n
        invariant
            n == files@.len(),
            fv == file_views(files@),
            k <= n,
            strictly_sorted(views(all@)),
            views(all@).to_set() == listed_paths(fv, k as int),
        decreases n - k,
    {
        merge_sorted(&mut all, &files[k]);
        assert(fv[k as int] == views(files@[k as int]@));
        k = k + 1;
    }
    let ghost keep = |p: Seq<char>| contenders(ls, fv, p, n as int).len() >= 2;
    let ghost av = views(all@);
    let mut out: Vec<ConflictEntry> = Vec::new();
    let mut i: usize = 0;
    let ghost pv = |c: ConflictEntry| c.relative_path@;
    assert(out@.map_values(pv) =~= av.take(0).filter(keep));
    while i < all.len()
        invariant
            av == views(all@),
            fv == file_views(files@),
            ls == views(op.lowerdirs@),
            n == files@.len(),
            n == op.lowerdirs@.len(),
            i <= all@.len(),
            keep == (|p: Seq<char>| contenders(ls, fv, p, n as int).len() >= 2),
            pv == (|c: ConflictEntry| c.relative_path@),
            out@.map_values(pv) == av.take(i as int).filter(keep),
            forall|j: int|
                0 <= j < out@.len() ==> (#[trigger] out@[j]).partition == op.partition_name
                    && views(out@[j].contending_modules@) == contenders(
                    ls,
                    fv,
                    out@[j].relative_path@,
                    n as int,
                ),
        decreases all@.len() - i,
    {
        let p = &all[i];
        let mut mods: Vec<String> = Vec::new();
        let mut k: usize = 0;
        while k < n
            invariant
                n == files@.len(),
                n == op.lowerdirs@.len(),
                fv == file_views(files@),
                ls == views(op.lowerdirs@),
                k <= n,
                views(mods@) == contenders(ls, fv, p@, k as int),
            decreases n - k,
        {
            let present = contains_str(&files[k], p.as_str());
            assert(fv[k as int] == views(files@[k as int]@));
            if present {
                let parent = dir_name_of(op.lowerdirs[k].as_str());
                let ghost before = views(mods@);
                mods.push(base_name_of(parent.as_str()));
                assert(views(mods@) =~= before.push(base_name(dir_name(ls[k as int]))));
            }
            k = k + 1;
        }
        let ghost before = out@.map_values(pv);
        assert(av.take(i + 1) =~= av.take(i as int).push(av[i as int]));
        proof {
            av.take(i as int).lemma_filter_push(av[i as int], keep);
        }
        if mods.len() >= 2 {
            out.push(ConflictEntry {
                partition: op.partition_name.clone(),
                relative_path: p.clone(),
                contending_modules: mods,
            });
            assert(out@.map_values(pv) =~= before.push(av[i as int]));
        } else {
            assert(out@.map_values(pv) =~= before);
        }
        i = i + 1;
    }
    proof {
        assert(av.take(av.len() as int) =~= av);
        let fl = av.filter(keep);
        broadcast use vstd::seq_lib::group_filter_ensures;
        assert forall|a: int, b: int| 0 <= a < b < fl.len() implies crate::text::seq_less(
            #[trigger] fl[a],
            #[trigger] fl[b],
        ) by {
            lemma_filter_sorted(av, keep, a, b);
        }
        assert forall|x| #[trigger] fl.to_set().contains(x) <==> av.to_set().filter(keep).contains(x) by {
            if av.to_set().filter(keep).contains(x) {
                let j = choose|j: int| 0 <= j < av.len() && av[j] == x;
                av.lemma_filter_contains(keep, j);
                assert(fl.contains(x));
            }
            if fl.to_set().contains(x) {
                let j = choose|j: int| 0 <= j < fl.len() && fl[j] == x;
                assert(fl.contains(fl[j]));
                av.lemma_filter_contains_rev(keep, fl[j]);
                assert(av.contains(fl[j]));
            }
        }
        assert(fl.to_set() =~= av.to_set().filter(keep));
    }
    out
}

proof fn lemma_filter_sorted(s: Seq<Seq<char>>, keep: spec_fn(Seq<char>) -> bool, a: int, b: int)
    requires
        strictly_sorted(s),
        0 <= a < b < s.filter(keep).len(),
    ensures
        crate::text::seq_less(s.filter(keep)[a], s.filter(keep)[b]),
    decreases s.len(),
{
    let f = s.filter(keep);
    let init = s.drop_last();
    assert(strictly_sorted(init)) by {
        assert forall|i: int, j: int| 0 <= i < j < init.len() implies crate::text::seq_less(
            #[trigger] init[i],
            #[trigger] init[j],
        ) by {
            assert(init[i] == s[i] && init[j] == s[j]);
        }
    }
    assert(s =~= init.push(s.last()));
    init.lemma_filter_push(s.last(), keep);
    let fi = init.filter(keep);
    if keep(s.last()) && b == f.len() - 1 {
        assert(f[b] == s.last());
        assert(f[a] == fi[a]);
        assert(fi.contains(fi[a]));
        init.lemma_filter_contains_rev(keep, fi[a]);
        assert(init.contains(fi[a]));
        let j = choose|j: int| 0 <= j < init.len() && init[j] == fi[a];
        assert(s[j] == fi[a]);
        assert(j < s.len() - 1);
    } else {
        assert(f[a] == fi[a] && f[b] == fi[b]);
        lemma_filter_sorted(init, keep, a, b);
    }
}

/// When the plan's overlay and magic ids are disjoint and each magic module
/// path is named by its id, the final overlay and magic ids are disjoint too.
pub proof fn lemma_execution_disjoint(
    plan: MountPlan,
    failed: Seq<bool>,
    overlay: Set<Seq<char>>,
    magic: Set<Seq<char>>,
    ran: bool,
)
    requires
        views(plan.overlay_module_ids@).to_set().disjoint(views(plan.magic_module_ids@).to_set()),
        forall|p: Seq<char>|
            #[trigger] views(plan.magic_module_paths@).to_set().contains(p) ==> views(
                plan.magic_module_ids@,
            ).to_set().contains(base_name(p)),
        overlay == views(plan.overlay_module_ids@).to_set().difference(fallback_ids(plan, failed)),
        magic == (if ran {
            views(plan.magic_module_paths@).to_set().map(|p: Seq<char>| base_name(p)).union(
                fallback_ids(plan, failed),
            )
        } else {
            Set::empty()
        }),
    ensures
        overlay.disjoint(magic),
{
    let f = |p: Seq<char>| base_name(p);
    assert forall|x: Seq<char>| overlay.contains(x) implies !magic.contains(x) by {
        if ran && views(plan.magic_module_paths@).to_set().map(f).contains(x) {
            let p = choose|p: Seq<char>| views(plan.magic_module_paths@).to_set().contains(p) && f(p) == x;
            assert(views(plan.magic_module_ids@).to_set().contains(x));
        }
    }
}

} // verus!
