use meta_hybrid::config::Config;
use meta_hybrid::executor::{analyze_conflicts, extract_id};
use meta_hybrid::hymofs::{has_rule, injection_rule, rule_target, HymoRule};
use meta_hybrid::inventory::MountMode;
use meta_hybrid::magic::{collect_module_files, process_module, EntryKind, ModuleTree, Node, NodeFileType};
use meta_hybrid::modules::{
    choose_config, description_text, is_zygisksu_entry, mode_string, replace_description, ConfigLoadError,
    ModuleProp,
};
use meta_hybrid::planner::{has_meaningful_content, OverlayOperation};
use meta_hybrid::text::escape_html;

fn strings(v: &[&str]) -> Vec<String> {
    v.iter().map(|s| s.to_string()).collect()
}

#[test]
fn module_ids_from_paths() {
    assert_eq!(extract_id("/mnt/alpha"), Some("alpha".to_string()));
    assert_eq!(extract_id("/mnt/"), None);
    assert!(has_meaningful_content(&vec![false, true]));
    assert!(!has_meaningful_content(&vec![false, false]));
    assert!(!has_meaningful_content(&Vec::new()));
}

#[test]
fn html_is_escaped() {
    assert_eq!(escape_html("a<b> & \"c\" 'd'"), "a&lt;b&gt; &amp; &quot;c&quot; &#39;d&#39;");
    assert_eq!(escape_html("plain"), "plain");
    assert_eq!(escape_html(""), "");
}

#[test]
fn status_description_and_labels() {
    assert_eq!(
        description_text("tmpfs", false, 3, 1),
        "description=✅ Running～ (Tmpfs) 🐾 | Overlay: 3 | Magic: 1"
    );
    assert_eq!(
        description_text("ext4", true, 0, 12),
        "description=✅ Running～ (Ext4) 💿 | Overlay: 0 | Magic: 12 | Activated ✨"
    );
    assert_eq!(description_text("erofs", false, 1, 0), "description=✅ Running～ (EROFS) 🚀 | Overlay: 1 | Magic: 0");
    assert_eq!(mode_string(MountMode::Overlay), "auto");
    assert_eq!(mode_string(MountMode::Magic), "magic");
    assert_eq!(mode_string(MountMode::Ignore), "ignore");
}

#[test]
fn zygisksu_detection() {
    assert!(is_zygisksu_entry("zygisksu", true, true, false, false, false));
    assert!(!is_zygisksu_entry("zygisksu", true, false, false, false, false));
    assert!(!is_zygisksu_entry("zygisksu", true, true, true, false, false));
    assert!(!is_zygisksu_entry("other", true, true, false, false, false));
}

#[test]
fn config_loading_choices() {
    let custom = Config { verbose: true, ..Config::default() };
    assert!(choose_config(true, Ok(custom)).unwrap().verbose);
    assert_eq!(choose_config(true, Err(ConfigLoadError::NotFound)).err(), Some(ConfigLoadError::NotFound));
    let fallback = choose_config(false, Err(ConfigLoadError::NotFound)).unwrap();
    assert_eq!(fallback.mountsource, "KSU");
    assert_eq!(choose_config(false, Err(ConfigLoadError::Invalid)).err(), Some(ConfigLoadError::Invalid));
}

#[test]
fn conflicts_between_layers() {
    let op = OverlayOperation {
        partition_name: "system".to_string(),
        target: "/system".to_string(),
        lowerdirs: strings(&["/mnt/beta/system", "/mnt/alpha/system", "/mnt/aa/system"]),
    };
    let files = vec![
        strings(&["lib/libx.so", "bin/b"]),
        strings(&["lib/libx.so", "etc/only"]),
        strings(&["bin/b", "lib/libx.so"]),
    ];
    let report = analyze_conflicts(&op, &files);
    assert_eq!(report.len(), 2);
    assert_eq!(report[0].relative_path, "bin/b");
    assert_eq!(report[0].contending_modules, strings(&["beta", "aa"]));
    assert_eq!(report[1].relative_path, "lib/libx.so");
    assert_eq!(report[1].contending_modules, strings(&["beta", "alpha", "aa"]));
    assert_eq!(report[1].partition, "system");
    assert!(analyze_conflicts(&op, &vec![Vec::new(), Vec::new(), Vec::new()]).is_empty());
}

fn file(name: &str, path: &str) -> Node {
    Node::from_entry(name.to_string(), path.to_string(), EntryKind::File, false).unwrap()
}

#[test]
fn module_trees_assemble() {
    let mut sys1 = Node::new_root("system".to_string());
    sys1.add_child(file("a.so", "/m1/system/a.so"));
    let mut vendor1 = Node::new_root("vendor".to_string());
    vendor1.add_child(file("v.so", "/m1/vendor/v.so"));
    let t1 = process_module(ModuleTree { system: Some(sys1), partitions: vec![vendor1], extras: Vec::new() });
    let mut sys2 = Node::new_root("system".to_string());
    sys2.add_child(file("a.so", "/m2/system/a.so"));
    let mut extra = Node::new_root("my_extra".to_string());
    extra.add_child(file("e", "/m2/my_extra/e"));
    let t2 = process_module(ModuleTree { system: Some(sys2), partitions: Vec::new(), extras: vec![extra] });
    let root = collect_module_files(vec![t1, t2], &strings(&["vendor"])).unwrap();
    assert_eq!(root.name, "");
    let system = &root.children[root.find_child("system").unwrap()];
    let a = &system.children[system.find_child("a.so").unwrap()];
    assert_eq!(a.module_source, Some("/m1/system/a.so".to_string()));
    assert!(system.find_child("vendor").is_none());
    let vendor = &root.children[root.find_child("vendor").unwrap()];
    assert_eq!(vendor.file_type, NodeFileType::Directory);
    assert!(vendor.find_child("v.so").is_some());
    assert!(root.find_child("my_extra").is_some());
    let empty = process_module(ModuleTree { system: None, partitions: Vec::new(), extras: Vec::new() });
    assert!(collect_module_files(vec![empty], &Vec::new()).is_none());
}

#[test]
fn module_prop_fields() {
    let p = ModuleProp::parse("id=x\nname = Foo Mod \nversion=v1\r\nauthor=me\ndescription=first\ndescription= second=part\nbroken line\n");
    assert_eq!(p.name, "Foo Mod");
    assert_eq!(p.version, "v1");
    assert_eq!(p.author, "me");
    assert_eq!(p.description, "second=part");
    let empty = ModuleProp::parse("");
    assert_eq!(empty.name, "");
    assert_eq!(empty.description, "");
}

#[test]
fn description_line_is_replaced() {
    assert_eq!(
        replace_description("id=m\r\ndescription=old\nversion=1", "description=new"),
        "id=m\ndescription=new\nversion=1\n"
    );
    assert_eq!(replace_description("a\n\nb\n", "description=x"), "a\n\nb\n");
    assert_eq!(replace_description("", "description=x"), "\n");
}

#[test]
fn hymofs_rules_for_entries() {
    let t = rule_target("/system", "/data/adb/modules/m/system", "/data/adb/modules/m/system/bin/foo");
    assert_eq!(t, "/system/bin/foo");
    match injection_rule(EntryKind::File, t.clone(), "/src".to_string()) {
        Some(HymoRule::Redirect { target, source }) => {
            assert_eq!(target, "/system/bin/foo");
            assert_eq!(source, "/src");
        }
        _ => panic!("files are redirected"),
    }
    assert!(matches!(
        injection_rule(EntryKind::CharDevice { rdev: 0 }, t.clone(), String::new()),
        Some(HymoRule::Hide { .. })
    ));
    assert!(injection_rule(EntryKind::CharDevice { rdev: 3 }, t.clone(), String::new()).is_none());
    assert!(injection_rule(EntryKind::Directory, t, String::new()).is_none());
    assert!(has_rule(EntryKind::Symlink));
    assert!(!has_rule(EntryKind::Directory));
}

#[test]
fn whiteout_replace_survives_collection() {
    let base = "/m/system/app/Foo";
    let mut foo = Node::from_entry("Foo".to_string(), base.to_string(), EntryKind::Directory, true).unwrap();
    foo.add_child(Node::from_entry("oldfile".to_string(), format!("{}/oldfile", base), EntryKind::CharDevice { rdev: 0 }, false).unwrap());
    foo.add_child(file("newfile", &format!("{}/newfile", base)));
    foo.add_child(file(".replace", &format!("{}/.replace", base)));
    let mut app = Node::from_entry("app".to_string(), "/m/system/app".to_string(), EntryKind::Directory, false).unwrap();
    app.add_child(foo);
    let mut system = Node::new_root("system".to_string());
    system.add_child(app);
    let tree = process_module(ModuleTree { system: Some(system), partitions: Vec::new(), extras: Vec::new() });
    let root = collect_module_files(vec![tree], &Vec::new()).unwrap();
    let sys = &root.children[root.find_child("system").unwrap()];
    let app = &sys.children[sys.find_child("app").unwrap()];
    let foo = &app.children[app.find_child("Foo").unwrap()];
    assert!(foo.replace);
    assert_eq!(foo.children.len(), 3);
    let old = &foo.children[foo.find_child("oldfile").unwrap()];
    assert_eq!(old.file_type, NodeFileType::Whiteout);
    let new = &foo.children[foo.find_child("newfile").unwrap()];
    assert_eq!(new.module_source, Some("/m/system/app/Foo/newfile".to_string()));
}
