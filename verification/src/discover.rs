//! Artifact discovery. A directory walk (performed by the caller) hands in
//! every file it visits; a selection predicate over the file-name stem and
//! extension decides which qualify, and the qualifying paths — possibly from
//! two passes, a primary output directory and a named sub-target's directory
//! — are merged, sorted into a total order and deduplicated, so that the
//! final list does not depend on the walk's visitation order.

use vstd::prelude::*;

use crate::order::{
    contains_str, lemma_sorted_unique_equal, sorted_dedup, str_eq, strictly_sorted,
};

verus! {

/// Which files of an output directory qualify: the extension must be the
/// emitted output extension and, when a named sub-target is scanned, the
/// stem must carry the sub-target's prefix.
pub struct SelectionPredicate {
    /// The required file extension.
    pub extension: String,
    /// The required stem prefix, when scanning a named sub-target's files.
    pub stem_prefix: Option<String>,
}

/// An optional textual file-name component: a component that is not
/// representable as text has no value, and is judged as such rather than
/// failing the traversal.
pub open spec fn component_view(c: Option<&str>) -> Option<Seq<char>> {
    match c {
        Option::None => Option::None,
        Option::Some(s) => Option::Some(s@),
    }
}

/// Does the predicate select a file with this stem and extension?
pub open spec fn selects(
    pred: SelectionPredicate,
    stem: Option<Seq<char>>,
    ext: Option<Seq<char>>,
) -> bool {
    &&& ext == Option::Some(pred.extension@)
    &&& match pred.stem_prefix {
        Option::None => true,
        Option::Some(p) => stem is Some && p@.is_prefix_of(stem->0),
    }
}

/// Does `s` start with the prefix `p`?
pub fn str_starts_with(s: &str, p: &str) -> (r: bool)
    ensures
        r == p@.is_prefix_of(s@),
{
    let sn = s.unicode_len();
    let pn = p.unicode_len();
    if pn > sn {
        return false;
    }
    let mut i: usize = 0;
    while i < pn
        invariant
            i <= pn,
            pn <= sn,
            sn == s@.len(),
            pn == p@.len(),
            forall|j: int| 0 <= j < i ==> s@[j] == p@[j],
        decreases pn - i,
    {
        if s.get_char(i) != p.get_char(i) {
            proof {
                assert(s@.subrange(0, pn as int)[i as int] == s@[i as int]);
            }
            return false;
        }
        i += 1;
    }
    proof {
        assert(p@ =~= s@.subrange(0, pn as int));
    }
    true
}

impl SelectionPredicate {
    /// Does a file with this stem and extension qualify?
    pub fn matches(&self, stem: Option<&str>, ext: Option<&str>) -> (r: bool)
        ensures
            r == selects(*self, component_view(stem), component_view(ext)),
    {
        let ext_ok = match ext {
            Option::None => false,
            Option::Some(e) => str_eq(e, self.extension.as_str()),
        };
        if !ext_ok {
            return false;
        }
        match &self.stem_prefix {
            Option::None => true,
            Option::Some(p) => match stem {
                Option::None => false,
                Option::Some(st) => str_starts_with(st, p.as_str()),
            },
        }
    }
}

/// Merges the qualifying paths of the discovery passes and fixes the final
/// order: sorted ascending and deduplicated, so two traversal paths that
/// named the same file appear once, and the walk's visitation order leaves
/// no trace.
pub fn finalize_discovery(primary: Vec<String>, secondary: Vec<String>) -> (r: Vec<String>)
    ensures
        strictly_sorted(r@),
        forall|x: Seq<char>|
            contains_str(r@, x) <==> (contains_str(primary@, x) || contains_str(secondary@, x)),
{
    let ghost p0 = primary@;
    let ghost s0 = secondary@;
    let mut all = primary;
    let mut rest = secondary;
    all.append(&mut rest);
    proof {
        assert forall|x: Seq<char>|
            contains_str(all@, x) <==> (contains_str(p0, x) || contains_str(s0, x)) by {
            if contains_str(all@, x) {
                let k = choose|k: int| 0 <= k < all@.len() && all@[k]@ == x;
                if k < p0.len() {
                    assert(p0[k]@ == x);
                    assert(contains_str(p0, x));
                } else {
                    assert(s0[k - p0.len()]@ == x);
                    assert(contains_str(s0, x));
                }
            }
            if contains_str(p0, x) {
                let k = choose|k: int| 0 <= k < p0.len() && p0[k]@ == x;
                assert(all@[k]@ == x);
                assert(contains_str(all@, x));
            }
            if contains_str(s0, x) {
                let k = choose|k: int| 0 <= k < s0.len() && s0[k]@ == x;
                assert(all@[k + p0.len()]@ == x);
                assert(contains_str(all@, x));
            }
        }
    }
    sorted_dedup(all)
}

/// Discovery is idempotent. Two walks of an unchanged directory tree see the
/// same files, in whatever order; their finished lists — strictly ascending
/// and duplicate-free — are then identical, element for element.
pub proof fn lemma_discovery_idempotent(r1: Seq<String>, r2: Seq<String>)
    requires
        strictly_sorted(r1),
        strictly_sorted(r2),
        forall|x: Seq<char>| contains_str(r1, x) <==> contains_str(r2, x),
    ensures
        r1.len() == r2.len(),
        forall|i: int| 0 <= i < r1.len() ==> r1[i]@ == r2[i]@,
{
    lemma_sorted_unique_equal(r1, r2);
}

} // verus!
