use meta_hybrid::overlay::{
    byte_size, child_mount_points, chunk_layers, is_strictly_under, legacy_options,
    lowerdir_option, needs_staging, plan_child, relative_path, staged_steps, ChildPlan,
    MAX_LOWERDIR_BYTES, STAGE_BATCH_BYTES,
};

fn strings(v: &[&str]) -> Vec<String> {
    v.iter().map(|s| s.to_string()).collect()
}

#[test]
fn lowerdir_joins_with_stock_root_last() {
    let s = lowerdir_option(&strings(&["/a", "/b"]), "/proc/self/fd/3");
    assert_eq!(s, "/a:/b:/proc/self/fd/3");
    assert_eq!(lowerdir_option(&Vec::new(), "/stock"), "/stock");
}

#[test]
fn legacy_options_string() {
    assert_eq!(legacy_options("/a:/b", &None, &None), "lowerdir=/a:/b");
    assert_eq!(
        legacy_options("/a", &Some("/u".to_string()), &Some("/w".to_string())),
        "lowerdir=/a,upperdir=/u,workdir=/w"
    );
    assert_eq!(legacy_options("/a", &Some("/u".to_string()), &None), "lowerdir=/a");
}

#[test]
fn staging_threshold() {
    let long = "x".repeat(MAX_LOWERDIR_BYTES + 1);
    let exact = "x".repeat(MAX_LOWERDIR_BYTES);
    assert!(needs_staging(&long, false, false));
    assert!(!needs_staging(&exact, false, false));
    assert!(!needs_staging(&long, true, true));
    assert!(!needs_staging(&long, false, true));
    assert_eq!(byte_size("é"), 2);
}

#[test]
fn staged_overlay_by_length() {
    let layers: Vec<String> = (0..120).map(|i| format!("/data/adb/modules/mod_{:03}/system/abcdefg", i)).collect();
    assert!(layers.iter().all(|l| l.len() == 40));
    let joined = layers.join(":");
    assert!(needs_staging(&joined, false, false));
    let batches = chunk_layers(&layers, STAGE_BATCH_BYTES);
    let expected = (joined.len() + STAGE_BATCH_BYTES - 1) / STAGE_BATCH_BYTES;
    assert_eq!(batches.len(), expected);
    assert_eq!(batches[0].len(), 85);
    assert_eq!(batches[1].len(), 35);
    for b in &batches {
        assert!(b.join(":").len() <= STAGE_BATCH_BYTES);
    }
    let flat: Vec<String> = batches.concat();
    assert_eq!(flat, layers);
    let steps = staged_steps(&batches, "/proc/self/fd/7", "/system", &strings(&["/run/staging/stage_1_0"]));
    assert_eq!(steps.len(), 2);
    assert_eq!(steps[0].target, "/run/staging/stage_1_0");
    assert_eq!(steps[0].lowers.len(), 36);
    assert_eq!(steps[0].lowers[..35], batches[1][..]);
    assert_eq!(steps[0].lowers[35], "/proc/self/fd/7");
    assert_eq!(steps[1].target, "/system");
    assert_eq!(steps[1].lowers[..85], batches[0][..]);
    assert_eq!(steps[1].lowers[85], "/run/staging/stage_1_0");
}

#[test]
fn oversized_layer_gets_its_own_batch() {
    let big = "y".repeat(50);
    let layers = vec!["/a".to_string(), big.clone(), "/b".to_string(), "/c".to_string()];
    let batches = chunk_layers(&layers, 10);
    assert_eq!(batches, vec![strings(&["/a"]), vec![big], strings(&["/b", "/c"])]);
    assert!(chunk_layers(&Vec::new(), 10).is_empty());
}

#[test]
fn child_mounts_strictly_below_root() {
    let points = strings(&["/system/bin", "/system", "/system2", "/system/app/x", "/system/bin", "/vendor"]);
    let kids = child_mount_points(&points, "/system");
    assert_eq!(kids, strings(&["/system/app/x", "/system/bin"]));
    assert!(is_strictly_under("/a/b", "/"));
    assert!(!is_strictly_under("/", "/"));
    assert_eq!(relative_path("/system/app/x", "/system"), "app/x");
    assert_eq!(relative_path("/system//bin", "/system"), "bin");
}

#[test]
fn child_restore_choices() {
    let roots = strings(&["/m/b/system", "/m/a/system"]);
    match plan_child(&roots, "bin", &vec![false, false], &vec![false, false], true) {
        ChildPlan::BindStock => {}
        _ => panic!("expected a bind of the stock content"),
    }
    match plan_child(&roots, "bin", &vec![true, true], &vec![true, true], true) {
        ChildPlan::Overlay(v) => assert_eq!(v, strings(&["/m/b/system/bin", "/m/a/system/bin"])),
        _ => panic!("expected an overlay"),
    }
    assert!(matches!(
        plan_child(&roots, "bin", &vec![true, true], &vec![true, false], true),
        ChildPlan::Skip
    ));
    assert!(matches!(
        plan_child(&roots, "bin", &vec![true, false], &vec![true, false], false),
        ChildPlan::Skip
    ));
}
