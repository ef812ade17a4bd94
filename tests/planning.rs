use meta_hybrid::executor::{execute, magic_queue};
use meta_hybrid::inventory::{
    is_reserved_name, scan, Module, ModuleEntry, ModuleRules, MountMode,
};
use meta_hybrid::planner::{generate, target_partitions, MountPlan, OverlayOperation, PlanProbe};

fn strings(v: &[&str]) -> Vec<String> {
    v.iter().map(|s| s.to_string()).collect()
}

fn module(id: &str, mode: MountMode) -> Module {
    let mut rules = ModuleRules::new();
    rules.default_mode = mode;
    Module { id: id.to_string(), source_path: format!("/data/adb/modules/{}", id), rules }
}

fn entry(m: Module) -> ModuleEntry {
    ModuleEntry { module: m, is_dir: true, has_disable: false, has_remove: false, has_skip_mount: false }
}

/// A probe where `synced[i]` holds and module `i` has content exactly in the
/// listed partitions, both in its synchronized copy and in its source.
fn probe(n_parts: usize, content: &[&[usize]], targets: &[Option<&str>]) -> PlanProbe {
    let rows: Vec<Vec<bool>> = content
        .iter()
        .map(|ps| (0..n_parts).map(|j| ps.contains(&j)).collect())
        .collect();
    PlanProbe {
        synced: vec![true; content.len()],
        synced_content: rows.clone(),
        source_content: rows,
        targets: targets.iter().map(|t| t.map(|s| s.to_string())).collect(),
    }
}

fn all_targets(parts: &[String]) -> Vec<Option<String>> {
    parts.iter().map(|p| Some(format!("/{}", p))).collect()
}

#[test]
fn builtin_partitions_then_extras_once() {
    let parts = target_partitions(&strings(&["my_product", "vendor", "my_product"]));
    assert_eq!(
        parts,
        strings(&["system", "vendor", "system_ext", "product", "odm", "my_product"])
    );
}

#[test]
fn rules_user_overrides_win() {
    let mut internal = ModuleRules::new();
    internal.paths = vec![
        ("system/bin".to_string(), MountMode::Magic),
        ("system/lib".to_string(), MountMode::Ignore),
    ];
    assert_eq!(internal.get_mode("system/bin"), MountMode::Magic);
    assert_eq!(internal.get_mode("system/etc"), MountMode::Overlay);
    let mut user = ModuleRules::new();
    user.default_mode = MountMode::Magic;
    user.paths = vec![("system/lib".to_string(), MountMode::Overlay)];
    internal.layer_user_rules(user);
    assert_eq!(internal.default_mode, MountMode::Magic);
    assert_eq!(internal.get_mode("system/lib"), MountMode::Overlay);
    assert_eq!(internal.get_mode("system/bin"), MountMode::Magic);
    assert_eq!(internal.get_mode("vendor"), MountMode::Magic);
}

#[test]
fn scan_filters_and_sorts_descending() {
    let mut disabled = entry(module("delta", MountMode::Overlay));
    disabled.has_disable = true;
    let mut removed = entry(module("epsilon", MountMode::Overlay));
    removed.has_remove = true;
    let mut skipped = entry(module("zeta", MountMode::Overlay));
    skipped.has_skip_mount = true;
    let mut file = entry(module("file", MountMode::Overlay));
    file.is_dir = false;
    let entries = vec![
        entry(module("alpha", MountMode::Overlay)),
        disabled,
        entry(module("lost+found", MountMode::Overlay)),
        entry(module("gamma", MountMode::Magic)),
        removed,
        skipped,
        file,
        entry(module(".git", MountMode::Overlay)),
        entry(module("meta-hybrid", MountMode::Overlay)),
        entry(module("beta", MountMode::Overlay)),
    ];
    let mods = scan(entries);
    let ids: Vec<String> = mods.iter().map(|m| m.id.clone()).collect();
    assert_eq!(ids, strings(&["gamma", "beta", "alpha"]));
    assert!(is_reserved_name("lost+found"));
    assert!(!is_reserved_name("alpha"));
}

#[test]
fn two_modules_pure_overlay() {
    let mods = scan(vec![
        entry(module("alpha", MountMode::Overlay)),
        entry(module("beta", MountMode::Overlay)),
    ]);
    let parts = target_partitions(&Vec::new());
    let p = probe(parts.len(), &[&[0], &[0]], &[Some("/system"), None, None, None, None]);
    let plan = generate(&mods, &parts, "/mnt", &p);
    assert_eq!(plan.overlay_ops.len(), 1);
    let op = &plan.overlay_ops[0];
    assert_eq!(op.partition_name, "system");
    assert_eq!(op.target, "/system");
    assert_eq!(op.lowerdirs, strings(&["/mnt/beta/system", "/mnt/alpha/system"]));
    assert_eq!(plan.overlay_module_ids, strings(&["alpha", "beta"]));
    assert!(plan.magic_module_ids.is_empty());
    assert!(plan.magic_module_paths.is_empty());
}

#[test]
fn magic_forced_module() {
    let mods = scan(vec![entry(module("gamma", MountMode::Magic))]);
    let parts = target_partitions(&Vec::new());
    // system/bin/foo makes system non-empty; vendor/ is empty
    let p = probe(parts.len(), &[&[0]], &[Some("/system"), Some("/vendor"), None, None, None]);
    let plan = generate(&mods, &parts, "/mnt", &p);
    assert_eq!(plan.magic_module_paths, strings(&["/data/adb/modules/gamma"]));
    assert_eq!(plan.magic_module_ids, strings(&["gamma"]));
    assert!(plan.overlay_ops.is_empty());
    assert!(plan.overlay_module_ids.is_empty());
}

#[test]
fn magic_module_without_content_is_dropped() {
    let mods = scan(vec![entry(module("gamma", MountMode::Magic))]);
    let parts = target_partitions(&Vec::new());
    let p = probe(parts.len(), &[&[]], &[Some("/system"), None, None, None, None]);
    let plan = generate(&mods, &parts, "/mnt", &p);
    assert!(plan.magic_module_paths.is_empty());
    assert!(plan.magic_module_ids.is_empty());
}

#[test]
fn ignored_module_is_never_planned() {
    let mods = scan(vec![
        entry(module("a", MountMode::Ignore)),
        entry(module("b", MountMode::Overlay)),
        entry(module("c", MountMode::Magic)),
    ]);
    let parts = target_partitions(&Vec::new());
    let p = probe(parts.len(), &[&[0], &[0], &[0]], &[Some("/system"), None, None, None, None]);
    let plan = generate(&mods, &parts, "/mnt", &p);
    assert!(!plan.overlay_module_ids.contains(&"a".to_string()));
    assert!(!plan.magic_module_ids.contains(&"a".to_string()));
    for id in &plan.overlay_module_ids {
        assert!(!plan.magic_module_ids.contains(id));
    }
    assert_eq!(plan.overlay_module_ids, strings(&["b"]));
    assert_eq!(plan.magic_module_ids, strings(&["c"]));
}

#[test]
fn layers_follow_descending_ids_and_skip_missing_targets() {
    let mods = scan(vec![
        entry(module("m1", MountMode::Overlay)),
        entry(module("m3", MountMode::Overlay)),
        entry(module("m2", MountMode::Overlay)),
    ]);
    let parts = target_partitions(&strings(&["my_extra"]));
    let mut targets = all_targets(&parts);
    targets[5] = None;
    let p = probe(parts.len(), &[&[1, 5], &[1], &[0, 1]], &targets.iter().map(|t| t.as_deref()).collect::<Vec<_>>());
    let plan = generate(&mods, &parts, "/mnt", &p);
    assert_eq!(plan.overlay_ops.len(), 2);
    assert_eq!(plan.overlay_ops[0].partition_name, "system");
    assert_eq!(plan.overlay_ops[0].lowerdirs, strings(&["/mnt/m1/system"]));
    assert_eq!(plan.overlay_ops[1].partition_name, "vendor");
    assert_eq!(
        plan.overlay_ops[1].lowerdirs,
        strings(&["/mnt/m3/vendor", "/mnt/m2/vendor", "/mnt/m1/vendor"])
    );
    for op in &plan.overlay_ops {
        assert!(!op.lowerdirs.is_empty());
    }
    assert_eq!(plan.overlay_module_ids, strings(&["m1", "m2", "m3"]));
}

#[test]
fn unsynced_overlay_module_is_skipped() {
    let mods = scan(vec![entry(module("a", MountMode::Overlay))]);
    let parts = target_partitions(&Vec::new());
    let mut p = probe(parts.len(), &[&[0]], &[Some("/system"), None, None, None, None]);
    p.synced[0] = false;
    let plan = generate(&mods, &parts, "/mnt", &p);
    assert!(plan.overlay_ops.is_empty());
    assert!(plan.overlay_module_ids.is_empty());
}

fn fallback_plan() -> MountPlan {
    MountPlan {
        overlay_ops: vec![OverlayOperation {
            partition_name: "vendor".to_string(),
            target: "/vendor".to_string(),
            lowerdirs: strings(&["/mnt/b/vendor", "/mnt/a/vendor"]),
        }],
        magic_module_paths: Vec::new(),
        overlay_module_ids: strings(&["a", "b"]),
        magic_module_ids: Vec::new(),
    }
}

#[test]
fn overlay_failure_falls_back_to_magic() {
    let plan = fallback_plan();
    let failed = vec![true];
    let queue = magic_queue(&plan, &failed);
    assert_eq!(queue, strings(&["/mnt/a", "/mnt/b"]));
    let result = execute(&plan, &failed, &queue, true);
    assert!(result.overlay_module_ids.is_empty());
    assert_eq!(result.magic_module_ids, strings(&["a", "b"]));
}

#[test]
fn overlay_success_keeps_ids() {
    let plan = fallback_plan();
    let ok = vec![false];
    let queue = magic_queue(&plan, &ok);
    assert!(queue.is_empty());
    let result = execute(&plan, &ok, &queue, true);
    assert_eq!(result.overlay_module_ids, strings(&["a", "b"]));
    assert!(result.magic_module_ids.is_empty());
}

#[test]
fn magic_failure_clears_magic_ids() {
    let mut plan = fallback_plan();
    plan.magic_module_paths = strings(&["/data/adb/modules/c"]);
    let failed = vec![false];
    let queue = magic_queue(&plan, &failed);
    assert_eq!(queue, strings(&["/data/adb/modules/c"]));
    let ok = execute(&plan, &failed, &queue, true);
    assert_eq!(ok.magic_module_ids, strings(&["c"]));
    let bad = execute(&plan, &failed, &queue, false);
    assert!(bad.magic_module_ids.is_empty());
    assert_eq!(bad.overlay_module_ids, strings(&["a", "b"]));
}

#[test]
fn plan_visuals_draw_tree() {
    let mut plan = fallback_plan();
    plan.magic_module_paths = strings(&["/data/adb/modules/c"]);
    let lines = plan.print_visuals();
    assert_eq!(
        lines,
        strings(&[
            "[OverlayFS Fusion Sequence]",
            "├── [Target: vendor] /vendor",
            "│   ├── [Layer] b",
            "│   ╰── [Layer] a",
            "[Magic Mount Fallback Protocol]",
            "╰── [Bind] c",
        ])
    );
    let empty = MountPlan {
        overlay_ops: Vec::new(),
        magic_module_paths: Vec::new(),
        overlay_module_ids: Vec::new(),
        magic_module_ids: Vec::new(),
    };
    assert_eq!(empty.print_visuals(), strings(&[">> Empty plan. Standby mode."]));
}
