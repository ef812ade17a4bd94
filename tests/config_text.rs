use meta_hybrid::config::{default_moduledir, default_mountsource, Config};
use meta_hybrid::text::{
    base_name_of, dir_name_of, insert_sorted, join_path, parse_partition_list, str_eq, str_less,
    trim_text,
};

fn strings(v: &[&str]) -> Vec<String> {
    v.iter().map(|s| s.to_string()).collect()
}

#[test]
fn default_config_fields() {
    let c = Config::default();
    assert_eq!(c.moduledir, "/data/adb/modules/");
    assert_eq!(c.tempdir, None);
    assert_eq!(c.mountsource, "KSU");
    assert!(!c.verbose);
    assert!(c.partitions.is_empty());
    assert!(!c.force_ext4 && !c.enable_nuke && !c.disable_umount);
    assert!(!c.allow_umount_coexistence && !c.dry_run);
    assert_eq!(default_moduledir(), "/data/adb/modules/");
    assert_eq!(default_mountsource(), "KSU");
}

#[test]
fn merge_with_cli_overrides_given_values() {
    let mut c = Config::default();
    c.partitions = strings(&["my_part"]);
    c.merge_with_cli(
        Some("/m".to_string()),
        None,
        Some("SRC".to_string()),
        true,
        Vec::new(),
        false,
    );
    assert_eq!(c.moduledir, "/m");
    assert_eq!(c.tempdir, None);
    assert_eq!(c.mountsource, "SRC");
    assert!(c.verbose);
    assert_eq!(c.partitions, strings(&["my_part"]));
    assert!(!c.dry_run);
    c.merge_with_cli(None, Some("/t".to_string()), None, false, strings(&["a"]), true);
    assert_eq!(c.moduledir, "/m");
    assert_eq!(c.tempdir, Some("/t".to_string()));
    assert!(c.verbose);
    assert_eq!(c.partitions, strings(&["a"]));
    assert!(c.dry_run);
}

#[test]
fn zygisk_enforcement_disables_umount_unless_coexisting() {
    let mut c = Config::default();
    assert!(!c.effective_disable_umount(false));
    assert!(c.effective_disable_umount(true));
    c.allow_umount_coexistence = true;
    assert!(!c.effective_disable_umount(true));
    c.disable_umount = true;
    assert!(c.effective_disable_umount(false));
}

#[test]
fn partition_string_parses_flexibly() {
    assert_eq!(parse_partition_list("a, b,,c"), strings(&["a", "b", "c"]));
}

#[test]
fn partition_string_edge_cases() {
    assert!(parse_partition_list("").is_empty());
    assert!(parse_partition_list(" , ,").is_empty());
    assert_eq!(parse_partition_list("\tvendor \n"), strings(&["vendor"]));
    assert_eq!(parse_partition_list("my_product,"), strings(&["my_product"]));
    assert_eq!(trim_text("  x y \t"), "x y");
}

#[test]
fn string_order_and_equality() {
    assert!(str_less("alpha", "beta"));
    assert!(!str_less("beta", "alpha"));
    assert!(str_less("ab", "abc"));
    assert!(!str_less("abc", "abc"));
    assert!(str_eq("abc", "abc"));
    assert!(!str_eq("abc", "abd"));
}

#[test]
fn sorted_insert_keeps_set_order() {
    let mut v: Vec<String> = Vec::new();
    for s in ["m", "b", "z", "b", "a"] {
        insert_sorted(&mut v, s.to_string());
    }
    assert_eq!(v, strings(&["a", "b", "m", "z"]));
}

#[test]
fn path_helpers() {
    assert_eq!(join_path("/root", "beta"), "/root/beta");
    assert_eq!(join_path("/root/", "beta"), "/root/beta");
    assert_eq!(join_path("", "beta"), "beta");
    assert_eq!(base_name_of("/root/beta/system"), "system");
    assert_eq!(dir_name_of("/root/beta/system"), "/root/beta");
    assert_eq!(base_name_of("plain"), "plain");
    assert_eq!(dir_name_of("plain"), "");
}

#[test]
fn whitespace_matches_std() {
    for c in (0u32..=0x10FFFF).filter_map(char::from_u32) {
        let s = c.to_string();
        assert_eq!(trim_text(&s).is_empty(), c.is_whitespace(), "U+{:04X}", c as u32);
    }
    assert_eq!(parse_partition_list("\u{3000}odm\u{2009},\u{85}"), strings(&["odm"]));
}
