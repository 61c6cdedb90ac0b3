use asm_lookup::report::{report, Report};
use asm_lookup::resolve::{resolve_outcomes, ParseOutcome, PerFileOutcome, Resolver};

fn s(x: &str) -> String {
    x.to_string()
}

fn not_found(names: &[&str]) -> PerFileOutcome<String, Vec<String>> {
    PerFileOutcome::NotFound(names.iter().map(|n| s(n)).collect())
}

fn found(rep: &str) -> PerFileOutcome<String, Vec<String>> {
    PerFileOutcome::Found(s(rep), Vec::new())
}

#[test]
fn short_circuit_returns_first_match() {
    // Both files hold the requested function with different content: the
    // match must come from the first file in the given order.
    let outcomes = vec![found("parsed from A"), found("parsed from B")];
    match resolve_outcomes(outcomes) {
        ParseOutcome::Resolved(rep, _) => assert_eq!(rep, "parsed from A"),
        ParseOutcome::Unresolved(_) => panic!("expected a find"),
    }
}

#[test]
fn short_circuit_stops_the_scan() {
    // Feeding outcomes one file at a time: the first find ends the scan, so
    // the second file is never parsed.
    let mut resolver = Resolver::new();
    let mut parsed = 0;
    let per_file = vec![found("parsed from A"), found("parsed from B")];
    let mut hit = None;
    for outcome in per_file {
        parsed += 1;
        if let Some(h) = resolver.absorb(outcome) {
            hit = Some(h);
            break;
        }
    }
    assert_eq!(parsed, 1);
    let (rep, table) = hit.expect("expected a find");
    assert_eq!(rep, "parsed from A");
    assert!(table.is_empty());
}

#[test]
fn later_find_still_wins_over_catalogs() {
    let outcomes = vec![not_found(&["a::x"]), found("parsed from B"), not_found(&["c::y"])];
    match resolve_outcomes(outcomes) {
        ParseOutcome::Resolved(rep, _) => assert_eq!(rep, "parsed from B"),
        ParseOutcome::Unresolved(_) => panic!("expected a find"),
    }
}

#[test]
fn empty_query_listing_is_sorted_and_deduplicated() {
    // Per-file catalogs ["a::x", "b::y"] and ["a::x", "c::z"] merge into
    // ["a::x", "b::y", "c::z"].
    let outcomes = vec![not_found(&["a::x", "b::y"]), not_found(&["a::x", "c::z"])];
    match resolve_outcomes(outcomes) {
        ParseOutcome::Resolved(_, _) => panic!("nothing should be found"),
        ParseOutcome::Unresolved(catalog) => {
            assert_eq!(catalog, vec![s("a::x"), s("b::y"), s("c::z")]);
        }
    }
}

#[test]
fn empty_query_listing_report() {
    let outcomes = vec![not_found(&["b::y", "a::x"]), not_found(&["c::z", "a::x"])];
    let outcome = resolve_outcomes(outcomes);
    match report(outcome, None) {
        Report::Listing(catalog) => {
            assert_eq!(catalog, vec![s("a::x"), s("b::y"), s("c::z")]);
        }
        _ => panic!("expected a listing"),
    }
}

#[test]
fn catalog_is_order_independent() {
    // Scanning the same files in any order yields an identical catalog.
    let forward = vec![not_found(&["b", "d"]), not_found(&["a", "d"]), not_found(&["c"])];
    let backward = vec![not_found(&["c"]), not_found(&["a", "d"]), not_found(&["b", "d"])];
    let c1 = match resolve_outcomes(forward) {
        ParseOutcome::Unresolved(c) => c,
        _ => panic!("nothing should be found"),
    };
    let c2 = match resolve_outcomes(backward) {
        ParseOutcome::Unresolved(c) => c,
        _ => panic!("nothing should be found"),
    };
    assert_eq!(c1, c2);
    assert_eq!(c1, vec![s("a"), s("b"), s("c"), s("d")]);
}

#[test]
fn catalog_is_strictly_ascending_without_duplicates() {
    let outcomes = vec![
        not_found(&["m::f", "a::g", "m::f"]),
        not_found(&["a::g", "z::h", "m::f"]),
    ];
    let catalog = match resolve_outcomes(outcomes) {
        ParseOutcome::Unresolved(c) => c,
        _ => panic!("nothing should be found"),
    };
    for w in catalog.windows(2) {
        assert!(w[0] < w[1]);
    }
    assert_eq!(catalog, vec![s("a::g"), s("m::f"), s("z::h")]);
}

#[test]
fn resolved_report_passes_payload_through() {
    let outcomes = vec![found("the function body")];
    let outcome = resolve_outcomes(outcomes);
    match report(outcome, Some(s("pkg::f"))) {
        Report::Resolved(rep, table) => {
            assert_eq!(rep, "the function body");
            assert!(table.is_empty());
        }
        _ => panic!("expected the find to pass through"),
    }
}

#[test]
fn unmatched_query_suggests_near_names() {
    // Catalog entries "pkg::z" and "pkg::zzz" have bare names "z" and "zzz",
    // both at edit distance 1 of the query's bare name "zz"; the third entry
    // is far beyond the threshold and is excluded.
    let outcomes = vec![
        not_found(&["pkg::z", "other::quite_different"]),
        not_found(&["pkg::zzz"]),
    ];
    let outcome = resolve_outcomes(outcomes);
    match report(outcome, Some(s("pkg::zz"))) {
        Report::Diagnostic { requested, suggestions } => {
            assert_eq!(requested, "pkg::zz");
            assert_eq!(suggestions, vec![s("pkg::z"), s("pkg::zzz")]);
        }
        _ => panic!("expected a diagnostic"),
    }
}

#[test]
fn unmatched_query_with_nothing_near_suggests_nothing() {
    let outcomes = vec![not_found(&["other::quite_different"])];
    let outcome = resolve_outcomes(outcomes);
    match report(outcome, Some(s("pkg::zz"))) {
        Report::Diagnostic { requested, suggestions } => {
            assert_eq!(requested, "pkg::zz");
            assert!(suggestions.is_empty());
        }
        _ => panic!("expected a diagnostic"),
    }
}
