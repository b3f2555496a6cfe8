use patchkeeper::meta::{Branch, Branches, Metadata, Patches, Properties};

fn strings(items: &[&str]) -> Vec<String> {
    items.iter().map(|s| s.to_string()).collect()
}

#[test]
fn patches_add_and_peek() {
    let mut q = Patches::new();
    assert!(q.is_empty());
    q.add_top("b".to_string());
    q.add_top("a".to_string());
    q.add_bottom("c".to_string());
    assert!(!q.is_empty());
    assert_eq!(q.top(), "a".to_string());
    assert_eq!(q.bottom(), "c".to_string());
    assert_eq!(q.all(), strings(&["a", "b", "c"]));
    assert_eq!(q.all_reversed(), strings(&["c", "b", "a"]));
    assert_eq!(q.top_as_vec(), strings(&["a"]));
    assert_eq!(q.bottom_as_vec(), strings(&["c"]));
}

#[test]
fn patches_replace_top() {
    let mut q = Patches::new();
    q.add_top("a".to_string());
    q.add_bottom("b".to_string());
    q.replace_top("z".to_string());
    assert_eq!(q.all(), strings(&["z", "b"]));
}

#[test]
fn patches_remove_reports_presence() {
    let mut q = Patches::new();
    q.add_bottom("a".to_string());
    q.add_bottom("b".to_string());
    assert!(q.contains("a"));
    assert!(q.remove("a"));
    assert!(!q.contains("a"));
    assert!(!q.remove("a"));
    assert_eq!(q.all(), strings(&["b"]));
    q.remove_all();
    assert!(q.is_empty());
}

#[test]
fn patches_range_above_target() {
    let mut q = Patches::new();
    for id in ["d", "c", "b", "a"] {
        q.add_top(id.to_string());
    }
    // top to bottom: a b c d
    assert_eq!(q.range("c"), strings(&["a", "b"]));
    assert_eq!(q.range("a"), strings(&[]));
    assert_eq!(q.range("missing"), strings(&[]));
}

#[test]
fn patches_range_reversed_from_target() {
    let mut q = Patches::new();
    for id in ["d", "c", "b", "a"] {
        q.add_top(id.to_string());
    }
    assert_eq!(q.range_reversed("c"), strings(&["d", "c"]));
    assert_eq!(q.range_reversed("a"), strings(&["d", "c", "b", "a"]));
    assert_eq!(q.range_reversed("missing"), strings(&[]));
}

#[test]
fn properties_flags_and_values() {
    let mut p = Properties::new();
    assert!(p.is_empty());
    assert!(!p.contains("x"));
    assert_eq!(p.get_flag("x").unwrap(), false);
    assert_eq!(p.get("x").unwrap(), None);
    p.set_flag("x");
    assert!(p.contains("x"));
    assert_eq!(p.get_flag("x").unwrap(), true);
    p.set("y", "1".to_string());
    assert_eq!(p.get("y").unwrap(), Some("1".to_string()));
    p.set("y", "2".to_string());
    assert_eq!(p.get("y").unwrap(), Some("2".to_string()));
    p.remove("x");
    assert_eq!(p.get_flag("x").unwrap(), false);
    assert!(!p.is_empty());
}

#[test]
fn properties_wrong_kind_errors() {
    let mut p = Properties::new();
    p.set_flag("f");
    p.set("v", "7".to_string());
    let e = p.get("f").unwrap_err();
    assert_eq!(e.message(), "property 'f' is a flag, not a value");
    let e = p.get_flag("v").unwrap_err();
    assert_eq!(e.message(), "property 'v' is a value, not a flag");
}

#[test]
fn branches_acquire_creates_and_release_keeps() {
    let mut meta = Metadata::new();
    assert!(!meta.branches.contains("main"));
    let mut b = meta.branches.acquire("main");
    assert!(b.is_empty());
    assert_eq!(b.name().as_str(), "main");
    b.pushed.add_top("a".to_string());
    meta.branches.release(b);
    assert!(meta.branches.contains("main"));
    let b = meta.branches.acquire("main");
    assert_eq!(b.pushed.all(), strings(&["a"]));
    assert!(!meta.branches.contains("main"));
    meta.branches.release(b);
}

#[test]
fn branches_rename_moves_record() {
    let mut meta = Metadata::new();
    let mut b = meta.branches.acquire("old");
    b.popped.add_top("a".to_string());
    meta.branches.release(b);
    meta.branches.rename("old", "new");
    assert!(!meta.branches.contains("old"));
    assert!(meta.branches.contains("new"));
    let b = meta.branches.acquire("new");
    assert_eq!(b.popped.all(), strings(&["a"]));
}

#[test]
fn branch_new_is_empty() {
    let b = Branch::new("main");
    assert!(b.is_empty());
    let mut b = Branch::new("main");
    b.properties.set_flag("hidden");
    assert!(!b.is_empty());
    let _ = Branches::new();
}
