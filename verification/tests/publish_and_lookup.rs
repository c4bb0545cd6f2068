use cargo_print::publish::{find_member, publish_order, Member};
use cargo_print::lookup::{bytes_eq, find_by_manifest, find_by_name, parent_dir, LookupError, Package};

fn member(name: &str, deps: &[&str]) -> Member {
    Member { name: name.to_string(), deps: deps.iter().map(|s| s.to_string()).collect() }
}

fn pos(order: &[String], name: &str) -> usize {
    order.iter().position(|n| n == name).unwrap()
}

#[test]
fn publish_order_respects_dependencies() {
    let ms = vec![member("a", &["b", "c"]), member("b", &["c"]), member("c", &[])];
    let order = publish_order(&ms).unwrap();
    assert_eq!(order.len(), 3);
    assert!(pos(&order, "c") < pos(&order, "b"));
    assert!(pos(&order, "b") < pos(&order, "a"));
}

#[test]
fn publish_order_is_a_permutation() {
    let ms = vec![member("x", &[]), member("y", &["x"]), member("z", &["x"])];
    let mut order = publish_order(&ms).unwrap();
    order.sort();
    assert_eq!(order, vec!["x".to_string(), "y".to_string(), "z".to_string()]);
}

#[test]
fn publish_ignores_non_workspace_deps() {
    let ms = vec![member("a", &["serde", "b"]), member("b", &["rand"])];
    let order = publish_order(&ms).unwrap();
    assert_eq!(order.len(), 2);
    assert!(pos(&order, "b") < pos(&order, "a"));
}

#[test]
fn publish_cycle_is_fatal() {
    let ms = vec![member("a", &["b"]), member("b", &["a"])];
    assert!(publish_order(&ms).is_err());
}

#[test]
fn publish_self_dependency_is_a_cycle() {
    let ms = vec![member("a", &["a"])];
    assert!(publish_order(&ms).is_err());
}

#[test]
fn publish_empty_workspace() {
    let ms: Vec<Member> = vec![];
    let order = publish_order(&ms).unwrap();
    assert!(order.is_empty());
}

#[test]
fn find_member_by_name() {
    let ms = vec![member("a", &[]), member("b", &[])];
    assert_eq!(find_member(&ms, &"b".to_string()), Some(1));
    assert_eq!(find_member(&ms, &"c".to_string()), None);
}

fn package(name: &str, manifest: &str) -> Package {
    Package {
        name: name.to_string(),
        manifest_path: manifest.as_bytes().to_vec(),
        features: vec![],
        dependencies: vec![],
        targets: vec![],
    }
}

#[test]
fn manifest_lookup_finds_the_single_match() {
    let ps = vec![package("foo", "/ws/foo/Cargo.toml"), package("bar", "/ws/bar/Cargo.toml")];
    let i = find_by_manifest(&ps, &b"/ws/bar/Cargo.toml".to_vec()).unwrap();
    assert_eq!(i, 1);
}

#[test]
fn manifest_lookup_not_found() {
    let ps = vec![package("foo", "/ws/foo/Cargo.toml")];
    let e = find_by_manifest(&ps, &b"/elsewhere/Cargo.toml".to_vec()).unwrap_err();
    assert!(matches!(e, LookupError::NotFound));
}

#[test]
fn manifest_lookup_ambiguous() {
    let ps = vec![package("foo", "/ws/Cargo.toml"), package("bar", "/ws/Cargo.toml")];
    let e = find_by_manifest(&ps, &b"/ws/Cargo.toml".to_vec()).unwrap_err();
    assert!(matches!(e, LookupError::Ambiguous));
}

#[test]
fn name_lookup_finds_the_single_match() {
    let ps = vec![package("foo", "/ws/crates/foo/Cargo.toml")];
    let i = find_by_name(&ps, &"foo".to_string()).unwrap();
    assert_eq!(i, 0);
}

#[test]
fn name_lookup_not_found() {
    let ps = vec![package("foo", "/ws/foo/Cargo.toml")];
    let e = find_by_name(&ps, &"bar".to_string()).unwrap_err();
    assert!(matches!(e, LookupError::NotFound));
}

#[test]
fn name_lookup_ambiguous() {
    let ps = vec![package("foo", "/a/Cargo.toml"), package("foo", "/b/Cargo.toml")];
    let e = find_by_name(&ps, &"foo".to_string()).unwrap_err();
    assert!(matches!(e, LookupError::Ambiguous));
}

#[test]
fn directory_of_a_manifest() {
    let d = parent_dir(&b"/ws/crates/foo/Cargo.toml".to_vec());
    assert_eq!(d, b"/ws/crates/foo".to_vec());
}

#[test]
fn directory_of_a_root_manifest() {
    assert_eq!(parent_dir(&b"/Cargo.toml".to_vec()), b"/".to_vec());
}

#[test]
fn directory_of_a_bare_manifest() {
    assert_eq!(parent_dir(&b"Cargo.toml".to_vec()), b"".to_vec());
}

#[test]
fn bytes_eq_compares_contents() {
    assert!(bytes_eq(&b"abc".to_vec(), &b"abc".to_vec()));
    assert!(!bytes_eq(&b"abc".to_vec(), &b"abd".to_vec()));
    assert!(!bytes_eq(&b"abc".to_vec(), &b"ab".to_vec()));
}
