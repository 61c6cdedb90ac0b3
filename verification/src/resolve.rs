//! The function resolution engine. Candidate artifact files are scanned in a
//! caller-chosen order; an external per-file parser reports, for each file,
//! either that the requested function was found there (carrying the parser's
//! opaque function representation and auxiliary file table) or the list of
//! every function identifier it enumerated in that file. The first file that
//! yields a find terminates the scan — no later file is consulted — and when
//! none does, the per-file identifier lists are merged into one strictly
//! ascending, duplicate-free catalog whose content is independent of the scan
//! order.

use vstd::prelude::*;

use crate::order::{
    contains_str, insert_sorted_unique, lemma_contains_take_step, lemma_sorted_unique_equal,
    strictly_sorted,
};

verus! {

/// What the external per-file parser reports for one artifact file: the
/// requested function together with its auxiliary file table, or the
/// identifiers of every function enumerated in that file. The payloads `F`
/// and `T` are owned by the parser and passed through unmodified.
pub enum PerFileOutcome<F, T> {
    Found(F, T),
    NotFound(Vec<String>),
}

/// The outcome of a whole scan: the requested function as parsed from the
/// first file that held it, or the merged catalog of every identifier
/// discovered across all files.
pub enum ParseOutcome<F, T> {
    Resolved(F, T),
    Unresolved(Vec<String>),
}

/// Does `o` report the identifier `x` among the functions of its file?
pub open spec fn mentions<F, T>(o: PerFileOutcome<F, T>, x: Seq<char>) -> bool {
    o is NotFound && contains_str(o->NotFound_0@, x)
}

/// Did any file of the scan yield a find?
pub open spec fn any_found<F, T>(s: Seq<PerFileOutcome<F, T>>) -> bool {
    exists|i: int| 0 <= i < s.len() && s[i] is Found
}

/// Is `x` reported by at least one file of the scan?
pub open spec fn catalog_mentions<F, T>(s: Seq<PerFileOutcome<F, T>>, x: Seq<char>) -> bool {
    exists|i: int| 0 <= i < s.len() && mentions(s[i], x)
}

proof fn lemma_mentions_take_step<F, T>(s: Seq<PerFileOutcome<F, T>>, i: int, x: Seq<char>)
    requires
        0 <= i < s.len(),
    ensures
        catalog_mentions(s.take(i + 1), x) <==> (catalog_mentions(s.take(i), x) || mentions(
            s[i],
            x,
        )),
{
    if catalog_mentions(s.take(i + 1), x) {
        let k = choose|k: int| 0 <= k < i + 1 && mentions(#[trigger] s.take(i + 1)[k], x);
        if k < i {
            assert(s.take(i)[k] == s[k]);
            assert(catalog_mentions(s.take(i), x));
        }
    }
    if catalog_mentions(s.take(i), x) {
        let k = choose|k: int| 0 <= k < i && mentions(#[trigger] s.take(i)[k], x);
        assert(s.take(i + 1)[k] == s[k]);
        assert(catalog_mentions(s.take(i + 1), x));
    }
    if mentions(s[i], x) {
        assert(s.take(i + 1)[i] == s[i]);
        assert(catalog_mentions(s.take(i + 1), x));
    }
}

/// The state of one scan: the identifiers accumulated from the files that
/// did not hold the requested function, kept strictly ascending and
/// duplicate-free at every step.
pub struct Resolver {
    catalog: Vec<String>,
}

impl Resolver {
    /// The accumulated catalog is strictly ascending (hence duplicate-free).
    pub closed spec fn wf(&self) -> bool {
        strictly_sorted(self.catalog@)
    }

    /// Has identifier `x` been reported by any file absorbed so far?
    pub closed spec fn sees(&self, x: Seq<char>) -> bool {
        contains_str(self.catalog@, x)
    }

    /// The accumulated catalog, as character sequences in catalog order.
    pub closed spec fn catalog_view(&self) -> Seq<Seq<char>> {
        self.catalog@.map_values(|s: String| s@)
    }

    /// A fresh scan: nothing seen yet.
    pub fn new() -> (r: Resolver)
        ensures
            r.wf(),
            forall|x: Seq<char>| !r.sees(x),
            r.catalog_view().len() == 0,
    {
        Resolver { catalog: Vec::new() }
    }

    /// Feeds one file's outcome into the scan. A find is handed back at once
    /// — the scan is over and the catalog is not extended — while a list of
    /// identifiers is merged into the accumulated catalog.
    pub fn absorb<F, T>(&mut self, outcome: PerFileOutcome<F, T>) -> (r: Option<(F, T)>)
        requires
            old(self).wf(),
        ensures
            final(self).wf(),
            (match outcome {
                PerFileOutcome::Found(f, t) => {
                    &&& r == Some((f, t))
                    &&& final(self).catalog_view() == old(self).catalog_view()
                    &&& forall|x: Seq<char>| final(self).sees(x) == old(self).sees(x)
                },
                PerFileOutcome::NotFound(table) => {
                    &&& r is None
                    &&& forall|x: Seq<char>|
                        final(self).sees(x) <==> (old(self).sees(x) || contains_str(table@, x))
                },
            }),
    {
        match outcome {
            PerFileOutcome::Found(f, t) => Some((f, t)),
            PerFileOutcome::NotFound(table) => {
                let n = table.len();
                let mut i: usize = 0;
                while i < n
                    invariant
                        i <= n,
                        n == table.len(),
                        strictly_sorted(self.catalog@),
                        forall|x: Seq<char>|
                            contains_str(self.catalog@, x) <==> (contains_str(
                                old(self).catalog@,
                                x,
                            ) || contains_str(table@.take(i as int), x)),
                    decreases n - i,
                {
                    insert_sorted_unique(&mut self.catalog, table[i].clone());
                    proof {
                        assert forall|x: Seq<char>|
                            contains_str(self.catalog@, x) <==> (contains_str(
                                old(self).catalog@,
                                x,
                            ) || contains_str(table@.take(i + 1), x)) by {
                            lemma_contains_take_step(table@, i as int, x);
                        }
                    }
                    i += 1;
                }
                proof {
                    assert(table@.take(n as int) =~= table@);
                }
                None
            },
        }
    }

    /// Ends the scan with no find: hands out the merged catalog, strictly
    /// ascending, duplicate-free, holding exactly the identifiers seen.
    pub fn finish(self) -> (c: Vec<String>)
        requires
            self.wf(),
        ensures
            strictly_sorted(c@),
            forall|x: Seq<char>| contains_str(c@, x) <==> self.sees(x),
            c@.map_values(|s: String| s@) == self.catalog_view(),
    {
        self.catalog
    }
}

/// The scan's result `r` is the find of file `i`, and no earlier file held
/// one: the at-most-one-match policy gives precedence to the first file in
/// the supplied order.
pub open spec fn first_found_at<F, T>(
    s: Seq<PerFileOutcome<F, T>>,
    i: int,
    r: ParseOutcome<F, T>,
) -> bool {
    &&& 0 <= i < s.len()
    &&& s[i] is Found
    &&& (forall|j: int| 0 <= j < i ==> !(s[j] is Found))
    &&& r == ParseOutcome::Resolved(s[i]->Found_0, s[i]->Found_1)
}

/// Scans a sequence of per-file outcomes in order. The first find wins and
/// ends the scan (outcomes past it are not consulted for the result); when
/// there is none, the identifiers of all files are merged into one strictly
/// ascending, duplicate-free catalog.
#[verifier::loop_isolation(false)]
pub fn resolve_outcomes<F, T>(outcomes: Vec<PerFileOutcome<F, T>>) -> (r: ParseOutcome<F, T>)
    ensures
        any_found(outcomes@) ==> r is Resolved && (exists|i: int|
            first_found_at(outcomes@, i, r)),
        !any_found(outcomes@) ==> r is Unresolved && strictly_sorted(r->Unresolved_0@) && (forall|
            x: Seq<char>,
        |
            contains_str(r->Unresolved_0@, x) <==> catalog_mentions(outcomes@, x)),
{
    let ghost orig = outcomes@;
    let mut remaining = outcomes;
    let mut resolver = Resolver::new();
    let ghost mut done: int = 0;
    while remaining.len() > 0
        invariant
            0 <= done <= orig.len(),
            remaining@ =~= orig.skip(done),
            forall|j: int| 0 <= j < done ==> !(orig[j] is Found),
            resolver.wf(),
            forall|x: Seq<char>| resolver.sees(x) <==> catalog_mentions(orig.take(done), x),
        decreases remaining@.len(),
    {
        let o = remaining.remove(0);
        proof {
            assert(o == orig.skip(done)[0]);
            assert(o == orig[done]);
            assert(remaining@ =~= orig.skip(done + 1));
        }
        let step = resolver.absorb(o);
        match step {
            Some((f, t)) => {
                let found = ParseOutcome::Resolved(f, t);
                proof {
                    assert(orig[done] is Found);
                    assert(any_found(orig));
                    assert(first_found_at(orig, done, found));
                }
                return found;
            },
            None => {
                proof {
                    assert forall|x: Seq<char>|
                        resolver.sees(x) <==> catalog_mentions(orig.take(done + 1), x) by {
                        lemma_mentions_take_step(orig, done, x);
                    }
                    done = done + 1;
                }
            },
        }
    }
    proof {
        assert(orig.skip(done).len() == 0);
        assert(done == orig.len());
        assert(orig.take(done) =~= orig);
        if any_found(orig) {
            let i = choose|i: int| 0 <= i < orig.len() && orig[i] is Found;
            assert(false);
        }
    }
    let ghost rsnap = resolver;
    let catalog = resolver.finish();
    proof {
        assert forall|x: Seq<char>| contains_str(catalog@, x) <==> catalog_mentions(orig, x) by {
            assert(contains_str(catalog@, x) <==> rsnap.sees(x));
            assert(rsnap.sees(x) <==> catalog_mentions(orig.take(done), x));
            assert(orig.take(done) == orig);
        }
    }
    ParseOutcome::Unresolved(catalog)
}

/// Determinism of resolution. Two scans over the same files — the same
/// per-file outcomes, in any order — agree on whether the function was found
/// anywhere, and their merged catalogs are identical, element for element.
/// (Which find is returned is a separate matter: it is the first in the
/// given order.)
pub proof fn lemma_resolution_deterministic<F, T>(
    s1: Seq<PerFileOutcome<F, T>>,
    s2: Seq<PerFileOutcome<F, T>>,
    c1: Seq<String>,
    c2: Seq<String>,
)
    requires
        s1.to_multiset() == s2.to_multiset(),
        strictly_sorted(c1),
        strictly_sorted(c2),
        forall|x: Seq<char>| contains_str(c1, x) <==> catalog_mentions(s1, x),
        forall|x: Seq<char>| contains_str(c2, x) <==> catalog_mentions(s2, x),
    ensures
        any_found(s1) == any_found(s2),
        c1.len() == c2.len(),
        forall|i: int| 0 <= i < c1.len() ==> c1[i]@ == c2[i]@,
{
    broadcast use vstd::seq_lib::group_to_multiset_ensures;

    assert forall|o: PerFileOutcome<F, T>| s1.contains(o) <==> s2.contains(o) by {
        assert(s1.contains(o) <==> s1.to_multiset().count(o) > 0);
        assert(s2.contains(o) <==> s2.to_multiset().count(o) > 0);
    }
    if any_found(s1) {
        let i = choose|i: int| 0 <= i < s1.len() && s1[i] is Found;
        assert(s1.contains(s1[i]));
        let j = choose|j: int| 0 <= j < s2.len() && s2[j] == s1[i];
        assert(any_found(s2));
    }
    if any_found(s2) {
        let i = choose|i: int| 0 <= i < s2.len() && s2[i] is Found;
        assert(s2.contains(s2[i]));
        let j = choose|j: int| 0 <= j < s1.len() && s1[j] == s2[i];
        assert(any_found(s1));
    }
    assert forall|x: Seq<char>| catalog_mentions(s1, x) <==> catalog_mentions(s2, x) by {
        if catalog_mentions(s1, x) {
            let i = choose|i: int| 0 <= i < s1.len() && mentions(s1[i], x);
            assert(s1.contains(s1[i]));
            let j = choose|j: int| 0 <= j < s2.len() && s2[j] == s1[i];
            assert(catalog_mentions(s2, x));
        }
        if catalog_mentions(s2, x) {
            let i = choose|i: int| 0 <= i < s2.len() && mentions(s2[i], x);
            assert(s2.contains(s2[i]));
            let j = choose|j: int| 0 <= j < s1.len() && s1[j] == s2[i];
            assert(catalog_mentions(s1, x));
        }
    }
    lemma_sorted_unique_equal(c1, c2);
}

} // verus!
