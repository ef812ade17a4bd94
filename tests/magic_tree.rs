use meta_hybrid::magic::{
    attach_partition, check_tmpfs, merge_nodes, move_child, plan_directory,
    should_elevate, EntryKind, Node, NodeFileType,
};

fn node(name: &str, path: &str, kind: EntryKind, replace: bool) -> Node {
    Node::from_entry(name.to_string(), path.to_string(), kind, replace).unwrap()
}

fn child<'a>(n: &'a Node, name: &str) -> &'a Node {
    &n.children[n.find_child(name).unwrap()]
}

fn whiteout_replace_tree() -> Node {
    let base = "/data/adb/modules/m/system/app/Foo";
    let mut foo = node("Foo", base, EntryKind::Directory, true);
    foo.add_child(node("oldfile", &format!("{}/oldfile", base), EntryKind::CharDevice { rdev: 0 }, false));
    foo.add_child(node("newfile", &format!("{}/newfile", base), EntryKind::File, false));
    foo.add_child(node(".replace", &format!("{}/.replace", base), EntryKind::File, false));
    let mut app = node("app", "/data/adb/modules/m/system/app", EntryKind::Directory, false);
    app.add_child(foo);
    let mut system = Node::new_root("system".to_string());
    system.add_child(app);
    system
}

#[test]
fn entries_become_nodes() {
    let w = node("x", "/m/x", EntryKind::CharDevice { rdev: 0 }, false);
    assert_eq!(w.file_type, NodeFileType::Whiteout);
    assert!(w.children.is_empty());
    assert!(Node::from_entry("c".to_string(), "/m/c".to_string(), EntryKind::CharDevice { rdev: 5 }, false).is_none());
    assert!(Node::from_entry("s".to_string(), "/m/s".to_string(), EntryKind::Other, false).is_none());
    let f = node("f", "/m/f", EntryKind::File, true);
    assert_eq!(f.file_type, NodeFileType::RegularFile);
    assert!(!f.replace);
    let d = node("d", "/m/d", EntryKind::Directory, true);
    assert!(d.replace);
    assert_eq!(d.module_source, Some("/m/d".to_string()));
    let root = Node::new_root("".to_string());
    assert_eq!(root.module_source, None);
    assert_eq!(root.file_type, NodeFileType::Directory);
}

#[test]
fn whiteout_and_replace_tree() {
    let system = whiteout_replace_tree();
    let foo = child(child(&system, "app"), "Foo");
    assert!(foo.replace);
    assert!(foo.module_source.is_some());
    assert_eq!(foo.children.len(), 3);
    let old = child(foo, "oldfile");
    assert_eq!(old.file_type, NodeFileType::Whiteout);
    assert!(old.children.is_empty());
    assert_eq!(child(foo, "newfile").file_type, NodeFileType::RegularFile);
    assert_eq!(child(foo, ".replace").module_source, Some("/data/adb/modules/m/system/app/Foo/.replace".to_string()));
    let mut foo_owned = whiteout_replace_tree().take_child("app").unwrap().take_child("Foo").unwrap();
    let live = vec![Some(NodeFileType::RegularFile), None, None];
    let plan = plan_directory(false, &mut foo_owned, &live);
    assert!(plan.create_tmpfs && plan.has_tmpfs);
    assert!(!plan.mirror_live);
}

#[test]
fn files_never_take_children() {
    let mut f = node("f", "/m/f", EntryKind::File, false);
    f.add_child(node("g", "/m/g", EntryKind::File, false));
    assert!(f.children.is_empty());
    let mut w = node("w", "/m/w", EntryKind::CharDevice { rdev: 0 }, false);
    w.add_child(node("g", "/m/g", EntryKind::File, false));
    assert!(w.children.is_empty());
}

#[test]
fn merge_earlier_module_wins_leaves() {
    let mut high = Node::new_root("system".to_string());
    high.add_child(node("a.so", "/m1/system/a.so", EntryKind::File, false));
    let mut low = Node::new_root("system".to_string());
    low.add_child(node("a.so", "/m2/system/a.so", EntryKind::File, false));
    low.add_child(node("b.so", "/m2/system/b.so", EntryKind::File, false));
    merge_nodes(&mut high, low);
    assert_eq!(high.children.len(), 2);
    assert_eq!(child(&high, "a.so").module_source, Some("/m1/system/a.so".to_string()));
    assert_eq!(child(&high, "b.so").module_source, Some("/m2/system/b.so".to_string()));
}

#[test]
fn merge_takes_first_occupant_of_synthetic_dir() {
    let mut high = Node::new_root("vendor".to_string());
    let low = node("vendor", "/m2/vendor", EntryKind::Directory, true);
    merge_nodes(&mut high, low);
    assert_eq!(high.module_source, Some("/m2/vendor".to_string()));
    assert!(high.replace);
    let mut leafy = Node::new_root("x".to_string());
    leafy.add_child(node("k", "/m1/x/k", EntryKind::File, false));
    let file = node("x", "/m2/x", EntryKind::File, false);
    merge_nodes(&mut leafy, file);
    assert_eq!(leafy.file_type, NodeFileType::Directory);
    assert_eq!(leafy.children.len(), 1);
    let mut whiteout = node("w", "/m1/w", EntryKind::CharDevice { rdev: 0 }, false);
    let mut dir = node("w", "/m2/w", EntryKind::Directory, false);
    dir.add_child(node("inner", "/m2/w/inner", EntryKind::File, false));
    merge_nodes(&mut whiteout, dir);
    assert_eq!(whiteout.file_type, NodeFileType::Whiteout);
    assert!(whiteout.children.is_empty());
}

#[test]
fn partitions_elevate_and_attach() {
    assert!(should_elevate("vendor", true, true));
    assert!(!should_elevate("vendor", true, false));
    assert!(should_elevate("odm", true, false));
    assert!(!should_elevate("odm", false, false));
    assert!(should_elevate("my_extra", true, false));
    let mut system = Node::new_root("system".to_string());
    system.add_child(node("vendor", "/m/system/vendor", EntryKind::Symlink, false));
    let mut vendor = Node::new_root("vendor".to_string());
    vendor.add_child(node("lib", "/m/vendor/lib", EntryKind::Directory, false));
    attach_partition(&mut system, vendor);
    assert_eq!(child(&system, "vendor").file_type, NodeFileType::Directory);
    let mut root = Node::new_root("".to_string());
    move_child(&mut system, &mut root, "vendor");
    assert!(system.find_child("vendor").is_none());
    assert!(child(&root, "vendor").find_child("lib").is_some());
}

#[test]
fn tmpfs_needed_when_types_differ() {
    let mut dir = node("bin", "/m/system/bin", EntryKind::Directory, false);
    dir.add_child(node("same", "/m/system/bin/same", EntryKind::File, false));
    dir.add_child(node("gone", "/m/system/bin/gone", EntryKind::CharDevice { rdev: 0 }, false));
    let live = vec![Some(NodeFileType::RegularFile), None];
    assert!(!check_tmpfs(&mut dir, &live));
    let live2 = vec![Some(NodeFileType::RegularFile), Some(NodeFileType::RegularFile)];
    assert!(check_tmpfs(&mut dir, &live2));
    let mut synthetic = Node::new_root("bin".to_string());
    synthetic.add_child(Node::new_root("sub".to_string()));
    synthetic.add_child(node("new", "/m/new", EntryKind::File, false));
    let live3 = vec![None, None];
    assert!(check_tmpfs(&mut synthetic, &live3));
    assert!(child(&synthetic, "sub").skip);
    assert!(!child(&synthetic, "new").skip);
    let inherited = plan_directory(true, &mut dir, &live2);
    assert!(inherited.has_tmpfs && !inherited.create_tmpfs && inherited.mirror_live);
}
