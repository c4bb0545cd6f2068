use cargo_print::args::{parse_examples_args, parse_subcommand, split_on_spaces, Subcommand};

fn strings(v: &[&str]) -> Vec<String> {
    v.iter().map(|s| s.to_string()).collect()
}

fn sorted(mut v: Vec<String>) -> Vec<String> {
    v.sort();
    v
}

#[test]
fn subcommands_are_recognized() {
    assert!(matches!(parse_subcommand(&"examples".to_string()), Some(Subcommand::Examples)));
    assert!(matches!(parse_subcommand(&"publish".to_string()), Some(Subcommand::Publish)));
    assert!(matches!(parse_subcommand(&"package".to_string()), Some(Subcommand::Package)));
    assert!(matches!(parse_subcommand(&"directory".to_string()), Some(Subcommand::Directory)));
    assert!(parse_subcommand(&"frobnicate".to_string()).is_none());
    assert!(parse_subcommand(&"".to_string()).is_none());
}

#[test]
fn split_discards_empty_fragments() {
    assert_eq!(split_on_spaces(&"z y".to_string()), strings(&["z", "y"]));
    assert_eq!(split_on_spaces(&"  a   b ".to_string()), strings(&["a", "b"]));
    assert_eq!(split_on_spaces(&"".to_string()), strings(&[]));
    assert_eq!(split_on_spaces(&"   ".to_string()), strings(&[]));
    assert_eq!(split_on_spaces(&"one".to_string()), strings(&["one"]));
}

#[test]
fn examples_flags_parse_in_any_order() {
    let o = parse_examples_args(&strings(&["--all-features", "--no-default-features"])).unwrap();
    assert!(o.all);
    assert!(o.no_default);
    assert!(o.features.is_empty());
}

#[test]
fn examples_features_value_is_split_on_spaces() {
    let o = parse_examples_args(&strings(&["--features", "z y"])).unwrap();
    assert!(!o.all);
    assert!(!o.no_default);
    assert_eq!(sorted(o.features), strings(&["y", "z"]));
}

#[test]
fn repeated_features_flags_accumulate() {
    let o = parse_examples_args(&strings(&["--features", "a b", "--features", "b c"])).unwrap();
    assert_eq!(sorted(o.features), strings(&["a", "b", "c"]));
}

#[test]
fn features_value_may_be_a_flag_name() {
    let o = parse_examples_args(&strings(&["--features", "--all-features"])).unwrap();
    assert!(!o.all);
    assert_eq!(o.features, strings(&["--all-features"]));
}

#[test]
fn missing_features_value_is_a_usage_error() {
    assert!(parse_examples_args(&strings(&["--features"])).is_none());
}

#[test]
fn unknown_token_is_a_usage_error() {
    assert!(parse_examples_args(&strings(&["--frobnicate"])).is_none());
    assert!(parse_examples_args(&strings(&["--no-default-features", "extra"])).is_none());
}

#[test]
fn no_arguments_parse_to_defaults() {
    let o = parse_examples_args(&strings(&[])).unwrap();
    assert!(!o.all);
    assert!(!o.no_default);
    assert!(o.features.is_empty());
}
