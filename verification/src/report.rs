//! What the caller reports after a scan: a find is passed through untouched;
//! with no query the whole catalog is listed; an unmatched query yields a
//! diagnostic carrying the requested path and the ranked suggestions.

use vstd::prelude::*;

use crate::order::{contains_str, strictly_sorted};
use crate::resolve::ParseOutcome;
use crate::suggest::{rank_suggestions, ranked_ahead, suggestion_distance, SUGGESTION_THRESHOLD};

verus! {

/// The user-facing shape of a scan's outcome.
pub enum Report<F, T> {
    /// The requested function was found: the parser's representation and
    /// auxiliary file table, unchanged.
    Resolved(F, T),
    /// No query was given: every discovered identifier, in catalog order.
    Listing(Vec<String>),
    /// A query was given but matched nowhere: the requested path and the
    /// ranked suggestions within the threshold, possibly none.
    Diagnostic { requested: String, suggestions: Vec<String> },
}

/// Decides the user-facing shape of the outcome. The catalog is consulted
/// only when nothing was found: listed whole without a query, ranked against
/// the query's bare name with one.
pub fn report<F, T>(outcome: ParseOutcome<F, T>, query: Option<String>) -> (r: Report<F, T>)
    ensures
        outcome is Resolved ==> r == Report::<F, T>::Resolved(
            outcome->Resolved_0,
            outcome->Resolved_1,
        ),
        outcome is Unresolved && query is None ==> r is Listing && r->Listing_0
            == outcome->Unresolved_0,
        outcome is Unresolved && query is Some ==> {
            &&& r is Diagnostic
            &&& r->Diagnostic_requested == query->0
            &&& forall|x: Seq<char>|
                contains_str(r->Diagnostic_suggestions@, x) <==> (contains_str(
                    outcome->Unresolved_0@,
                    x,
                ) && suggestion_distance(x, query->0@) <= SUGGESTION_THRESHOLD)
            &&& forall|i: int, j: int|
                0 <= i < j < r->Diagnostic_suggestions@.len() ==> ranked_ahead(
                    r->Diagnostic_suggestions@[i]@,
                    r->Diagnostic_suggestions@[j]@,
                    query->0@,
                )
        },
{
    match outcome {
        ParseOutcome::Resolved(f, t) => Report::Resolved(f, t),
        ParseOutcome::Unresolved(catalog) => match query {
            Option::None => Report::Listing(catalog),
            Option::Some(q) => {
                let suggestions = rank_suggestions(&catalog, q.as_str());
                Report::Diagnostic { requested: q, suggestions }
            },
        },
    }
}

} // verus!
