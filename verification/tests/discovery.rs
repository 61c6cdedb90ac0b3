use asm_lookup::discover::{finalize_discovery, str_starts_with, SelectionPredicate};
use asm_lookup::order::{insert_sorted_unique, sorted_dedup, str_eq, str_lt};

fn s(x: &str) -> String {
    x.to_string()
}

#[test]
fn predicate_requires_the_extension() {
    let pred = SelectionPredicate { extension: s("s"), stem_prefix: None };
    assert!(pred.matches(Some("crate_name-123abc"), Some("s")));
    assert!(!pred.matches(Some("crate_name-123abc"), Some("ll")));
    assert!(!pred.matches(Some("crate_name-123abc"), None));
    // Without a prefix requirement the stem may even be missing.
    assert!(pred.matches(None, Some("s")));
}

#[test]
fn predicate_requires_the_sub_target_prefix() {
    let pred = SelectionPredicate { extension: s("s"), stem_prefix: Some(s("demo-")) };
    assert!(pred.matches(Some("demo-1a2b"), Some("s")));
    assert!(!pred.matches(Some("other-1a2b"), Some("s")));
    assert!(!pred.matches(None, Some("s")));
    assert!(!pred.matches(Some("demo-1a2b"), Some("ll")));
}

#[test]
fn prefix_check_is_exact() {
    assert!(str_starts_with("demo-1a2b", "demo-"));
    assert!(!str_starts_with("dem", "demo-"));
    assert!(str_starts_with("anything", ""));
    assert!(!str_starts_with("Demo-1", "demo-"));
}

#[test]
fn discovery_merges_sorts_and_deduplicates() {
    let primary = vec![s("target/deps/z.s"), s("target/deps/a.s")];
    let secondary = vec![s("target/examples/demo-1.s"), s("target/deps/a.s")];
    let files = finalize_discovery(primary, secondary);
    assert_eq!(
        files,
        vec![s("target/deps/a.s"), s("target/deps/z.s"), s("target/examples/demo-1.s")]
    );
}

#[test]
fn discovery_is_idempotent_over_walk_order() {
    // Two walks of the same tree visit the same files in different orders;
    // the finished lists are identical.
    let first = finalize_discovery(vec![s("b.s"), s("a.s"), s("c.s")], Vec::new());
    let second = finalize_discovery(vec![s("c.s"), s("b.s"), s("a.s")], Vec::new());
    assert_eq!(first, second);
    assert_eq!(first, vec![s("a.s"), s("b.s"), s("c.s")]);
}

#[test]
fn sorted_dedup_keeps_each_string_once() {
    let out = sorted_dedup(vec![s("b"), s("a"), s("b"), s("a"), s("a")]);
    assert_eq!(out, vec![s("a"), s("b")]);
}

#[test]
fn sorted_insert_keeps_ascending_order() {
    let mut v = vec![s("b"), s("d")];
    insert_sorted_unique(&mut v, s("c"));
    insert_sorted_unique(&mut v, s("a"));
    insert_sorted_unique(&mut v, s("e"));
    insert_sorted_unique(&mut v, s("c"));
    assert_eq!(v, vec![s("a"), s("b"), s("c"), s("d"), s("e")]);
}

#[test]
fn string_comparisons_are_lexicographic() {
    assert!(str_lt("a", "b"));
    assert!(str_lt("a", "ab"));
    assert!(!str_lt("ab", "a"));
    assert!(!str_lt("a", "a"));
    assert!(str_eq("a", "a"));
    assert!(!str_eq("a", "ab"));
}
