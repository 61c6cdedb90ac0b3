use asm_lookup::suggest::{rank_suggestions, trailing_part, SUGGESTION_THRESHOLD};

fn s(x: &str) -> String {
    x.to_string()
}

#[test]
fn threshold_is_four() {
    assert_eq!(SUGGESTION_THRESHOLD, 4);
}

#[test]
fn trailing_part_takes_text_after_last_delimiter() {
    assert_eq!(trailing_part("lib.rs:pkg::f"), "f");
    assert_eq!(trailing_part("a:b:c"), "c");
    assert_eq!(trailing_part("ends_with:"), "");
    assert_eq!(trailing_part("no_delimiter"), "no_delimiter");
    assert_eq!(trailing_part(""), "");
}

#[test]
fn suggestion_threshold_scenario() {
    // Bare names "foo1" (distance 1), "bar" (distance 3) and
    // "completely_different" (far beyond 4) against query name "foo": the
    // first two are suggested, ascending by distance; the third is excluded.
    let catalog = vec![s("completely_different"), s("bar"), s("foo1")];
    let sug = rank_suggestions(&catalog, "foo");
    assert_eq!(sug, vec![s("foo1"), s("bar")]);
}

#[test]
fn equal_distances_keep_lexicographic_order() {
    // "z" and "zzz" are both at distance 1 of "zz": the tie is broken by the
    // catalog's own lexicographic order.
    let catalog = vec![s("pkg::z"), s("pkg::zzz")];
    let sug = rank_suggestions(&catalog, "pkg::zz");
    assert_eq!(sug, vec![s("pkg::z"), s("pkg::zzz")]);
}

#[test]
fn distance_counts_real_edits() {
    // kitten -> sitting is the classic three-edit pair: within the
    // threshold, so it must be suggested.
    let catalog = vec![s("lib.rs:kitten")];
    let sug = rank_suggestions(&catalog, "query.rs:sitting");
    assert_eq!(sug, vec![s("lib.rs:kitten")]);
}

#[test]
fn distance_five_is_excluded() {
    // "abcde" against the empty bare name needs five insertions: one past
    // the threshold.
    let catalog = vec![s("loc:abcde"), s("loc:abcd")];
    let sug = rank_suggestions(&catalog, "q:");
    assert_eq!(sug, vec![s("loc:abcd")]);
}

#[test]
fn only_the_bare_name_is_compared() {
    // The location prefix differs wildly; the bare names are identical, so
    // the distance is zero.
    let catalog = vec![s("some/very/long/path.rs:f")];
    let sug = rank_suggestions(&catalog, "f");
    assert_eq!(sug, vec![s("some/very/long/path.rs:f")]);
}

#[test]
fn empty_catalog_suggests_nothing() {
    let catalog: Vec<String> = Vec::new();
    let sug = rank_suggestions(&catalog, "pkg::f");
    assert!(sug.is_empty());
}
