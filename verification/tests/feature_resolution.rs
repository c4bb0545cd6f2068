use cargo_print::features::{build_feature_graph, enabled_features, resolve_features, Dep, Feature};
use cargo_print::examples::{select_examples, Target};

fn feat(name: &str, implies: &[&str]) -> Feature {
    Feature { name: name.to_string(), implies: implies.iter().map(|s| s.to_string()).collect() }
}

fn dep(name: &str, rename: Option<&str>, optional: bool) -> Dep {
    Dep { name: name.to_string(), rename: rename.map(|s| s.to_string()), optional }
}

fn strings(v: &[&str]) -> Vec<String> {
    v.iter().map(|s| s.to_string()).collect()
}

fn sorted(mut v: Vec<String>) -> Vec<String> {
    v.sort();
    v
}

#[test]
fn default_features_close_transitively() {
    let g = vec![feat("default", &["a"]), feat("a", &["b"]), feat("b", &[])];
    let r = enabled_features(&g, &strings(&[]), false, false).unwrap();
    assert_eq!(sorted(r), strings(&["a", "b", "default"]));
}

#[test]
fn no_default_features_yields_empty() {
    let g = vec![feat("default", &["a"]), feat("a", &["b"]), feat("b", &[])];
    let r = enabled_features(&g, &strings(&[]), true, false).unwrap();
    assert!(r.is_empty());
}

#[test]
fn selection_closes_under_implication() {
    let g = vec![feat("default", &["x"]), feat("x", &["y"]), feat("y", &[]), feat("z", &[])];
    let r = enabled_features(&g, &strings(&["z", "y"]), true, false).unwrap();
    assert_eq!(sorted(r), strings(&["y", "z"]));
}

#[test]
fn all_features_enables_every_node() {
    let g = vec![feat("default", &["x"]), feat("x", &[]), feat("z", &[])];
    let r = enabled_features(&g, &strings(&[]), false, true).unwrap();
    assert_eq!(sorted(r), strings(&["default", "x", "z"]));
}

#[test]
fn optional_dep_is_a_resolvable_feature() {
    let features = vec![feat("default", &[])];
    let deps = vec![dep("serde", None, true)];
    let g = build_feature_graph(features, &deps);
    let r = enabled_features(&g, &strings(&["serde"]), true, false).unwrap();
    assert_eq!(sorted(r), strings(&["serde"]));
}

#[test]
fn renamed_optional_dep_uses_effective_name() {
    let deps = vec![dep("serde", Some("ser"), true)];
    let g = build_feature_graph(vec![], &deps);
    let r = enabled_features(&g, &strings(&["ser"]), true, false).unwrap();
    assert_eq!(sorted(r), strings(&["ser"]));
    assert!(enabled_features(&g, &strings(&["serde"]), true, false).is_err());
}

#[test]
fn non_optional_dep_is_not_a_feature() {
    let deps = vec![dep("serde", None, false)];
    let g = build_feature_graph(vec![], &deps);
    assert!(enabled_features(&g, &strings(&["serde"]), true, false).is_err());
}

#[test]
fn explicit_feature_shadows_optional_dep() {
    let features = vec![feat("serde", &["extra"]), feat("extra", &[])];
    let deps = vec![dep("serde", None, true)];
    let g = build_feature_graph(features, &deps);
    // the explicit edges survive: enabling serde pulls in extra
    let r = enabled_features(&g, &strings(&["serde"]), true, false).unwrap();
    assert_eq!(sorted(r), strings(&["extra", "serde"]));
}

#[test]
fn invalid_feature_is_reported() {
    let g = vec![feat("default", &[])];
    let e = enabled_features(&g, &strings(&["nope"]), false, false).unwrap_err();
    assert_eq!(e, strings(&["nope"]));
}

#[test]
fn resolver_terminates_on_cycles() {
    let g = vec![feat("a", &["b"]), feat("b", &["c"]), feat("c", &["a"])];
    let r = resolve_features(&g, &strings(&["a"]));
    assert_eq!(sorted(r), strings(&["a", "b", "c"]));
    assert!(resolve_features(&g, &strings(&["a"])).len() <= g.len());
}

#[test]
fn resolver_is_idempotent() {
    let g = vec![feat("default", &["a"]), feat("a", &["b"]), feat("b", &[]), feat("z", &[])];
    let once = resolve_features(&g, &strings(&["default"]));
    let twice = resolve_features(&g, &once);
    assert_eq!(sorted(once), sorted(twice));
}

#[test]
fn resolver_output_contains_seed() {
    let g = vec![feat("a", &[]), feat("b", &[])];
    let r = resolve_features(&g, &strings(&["b", "a", "b"]));
    assert_eq!(sorted(r), strings(&["a", "b"]));
}

fn target(name: &str, kinds: &[&str], req: &[&str]) -> Target {
    Target {
        name: name.to_string(),
        kinds: kinds.iter().map(|s| s.to_string()).collect(),
        required_features: req.iter().map(|s| s.to_string()).collect(),
    }
}

#[test]
fn selector_takes_exactly_buildable_examples() {
    let targets = vec![
        target("plain", &["example"], &[]),
        target("needs_x", &["example"], &["x"]),
        target("needs_y", &["example"], &["y"]),
        target("needs_both", &["example"], &["x", "y"]),
        target("a_lib", &["lib"], &[]),
        target("a_bin", &["bin"], &["x"]),
    ];
    let enabled = strings(&["x"]);
    let r = select_examples(&targets, &enabled);
    assert_eq!(sorted(r), strings(&["needs_x", "plain"]));
}

#[test]
fn selector_collapses_duplicate_names() {
    let targets = vec![target("twin", &["example"], &[]), target("twin", &["example"], &[])];
    let r = select_examples(&targets, &strings(&[]));
    assert_eq!(r, strings(&["twin"]));
}

#[test]
fn selector_on_empty_enabled_set() {
    let targets = vec![target("plain", &["example"], &[]), target("needs_x", &["example"], &["x"])];
    let r = select_examples(&targets, &strings(&[]));
    assert_eq!(r, strings(&["plain"]));
}

#[test]
fn validation_applies_even_with_all_features() {
    let g = vec![feat("a", &[])];
    assert!(enabled_features(&g, &strings(&["nope"]), false, true).is_err());
}

#[test]
fn absent_default_node_adds_nothing() {
    let g = vec![feat("a", &[])];
    let r = enabled_features(&g, &strings(&[]), false, false).unwrap();
    assert!(r.is_empty());
}
