use gt6tg::meta::GeneratorMeta;
use gt6tg::meta::namespaces_compatible;
use gt6tg::rule::substitute;

fn meta(group: &str, namespace: &str, extensions: &[&str]) -> GeneratorMeta {
    GeneratorMeta {
        group: group.to_string(),
        namespace: namespace.to_string(),
        completed: true,
        extensions: extensions.iter().map(|s| s.to_string()).collect(),
    }
}

#[test]
fn combine_compatible_namespaces() {
    let mut a = meta("g", "a.b", &["x"]);
    let b = meta("h", "a.b.c", &["y", "x"]);
    a.combine(&b);
    assert_eq!(a.group, "g");
    assert_eq!(a.namespace, "a.b.c");
    assert_eq!(a.extensions, vec!["x".to_string(), "y".to_string()]);
    assert!(!a.is_empty());
}

#[test]
fn combine_keeps_more_specific_own_namespace() {
    let mut a = meta("g", "a.b.c", &[]);
    let b = meta("h", "a.b", &[]);
    a.combine(&b);
    assert_eq!(a.namespace, "a.b.c");
    assert!(!a.is_empty());
}

#[test]
fn combine_incompatible_namespaces_poisons() {
    let mut a = meta("g", "a.b", &["x"]);
    let b = meta("h", "a.x", &[]);
    a.combine(&b);
    assert!(a.is_empty());
    assert_eq!(a.group, "");
}

#[test]
fn combine_with_poisoned_stays_poisoned() {
    let mut a = meta("", "a.b", &["x"]);
    let b = meta("h", "a.b.c", &["y"]);
    a.combine(&b);
    assert!(a.is_empty());
    assert_eq!(a.namespace, "a.b");
    assert_eq!(a.extensions, vec!["x".to_string()]);
}

#[test]
fn empty_namespace_is_prefix_of_everything() {
    assert!(namespaces_compatible("", "a.b"));
    assert!(namespaces_compatible("a.b", ""));
    assert!(namespaces_compatible("a", "a.b"));
    assert!(!namespaces_compatible("a.b", "a.x"));
}

#[test]
fn with_namespace_rescopes() {
    let a = meta("g", "a", &["x"]);
    let b = a.with_namespace("a.b".to_string());
    assert_eq!(b.group, "g");
    assert_eq!(b.namespace, "a.b");
    assert_eq!(b.extensions, vec!["x".to_string()]);
}

#[test]
fn is_empty_iff_group_empty() {
    assert!(meta("", "ns", &[]).is_empty());
    assert!(!meta("g", "", &[]).is_empty());
}

#[test]
fn substitute_replaces_placeholder() {
    assert_eq!(substitute("Hello {0}!", "World"), "Hello World!");
    assert_eq!(substitute("{0}", "酒"), "酒");
    assert_eq!(substitute("no placeholder", "x"), "no placeholder");
    assert_eq!(substitute("{0}-{0}", "a"), "a-a");
}
