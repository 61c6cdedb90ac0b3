//! Fuzzy suggestion ranking for an unmatched query. Catalog entries are
//! ranked by the Levenshtein edit distance between their bare name — the
//! substring after the final `:` delimiter — and the query's bare name;
//! entries within a fixed threshold are suggested, nearest first, ties broken
//! by the catalog's own lexicographic order.

use vstd::prelude::*;

use crate::order::{
    contains_str, lemma_contains_take_step, lemma_lex_lt_total, lemma_lex_lt_transitive, lex_lt,
    str_eq, str_lt,
};

verus! {

/// Entries whose bare name lies within this edit distance of the query's
/// bare name are suggested.
pub const SUGGESTION_THRESHOLD: usize = 4;

/// The Levenshtein edit distance: the least number of single-character
/// insertions, deletions and substitutions that turns `a` into `b`.
pub open spec fn levenshtein(a: Seq<char>, b: Seq<char>) -> nat
    decreases a.len() + b.len(),
{
    if a.len() == 0 {
        b.len()
    } else if b.len() == 0 {
        a.len()
    } else {
        let del = levenshtein(a.drop_first(), b) + 1;
        let ins = levenshtein(a, b.drop_first()) + 1;
        let sub = levenshtein(a.drop_first(), b.drop_first()) + (if a[0] == b[0] {
            0nat
        } else {
            1nat
        });
        if del <= ins && del <= sub {
            del
        } else if ins <= sub {
            ins
        } else {
            sub
        }
    }
}

/// The bare name of an identifier: the substring after the final `:`
/// delimiter, or the whole identifier when it has none. The location prefix
/// before the final delimiter may itself contain delimiters.
pub open spec fn trailing(s: Seq<char>) -> Seq<char>
    decreases s.len(),
{
    if s.len() == 0 {
        s
    } else if s.last() == ':' {
        Seq::empty()
    } else {
        trailing(s.drop_last()).push(s.last())
    }
}

/// How near catalog entry `entry` is to the query: the edit distance
/// between the two bare names.
pub open spec fn suggestion_distance(entry: Seq<char>, query: Seq<char>) -> nat {
    levenshtein(trailing(entry), trailing(query))
}

/// `x` ranks strictly ahead of `y` as a suggestion for `query`: strictly
/// nearer, or equally near and lexicographically earlier.
pub open spec fn ranked_ahead(x: Seq<char>, y: Seq<char>, query: Seq<char>) -> bool {
    ||| suggestion_distance(x, query) < suggestion_distance(y, query)
    ||| (suggestion_distance(x, query) == suggestion_distance(y, query) && lex_lt(x, y))
}

proof fn lemma_ranked_ahead_transitive(x: Seq<char>, y: Seq<char>, z: Seq<char>, query: Seq<char>)
    requires
        ranked_ahead(x, y, query),
        ranked_ahead(y, z, query),
    ensures
        ranked_ahead(x, z, query),
{
    if suggestion_distance(x, query) == suggestion_distance(y, query)
        && suggestion_distance(y, query) == suggestion_distance(z, query) {
        lemma_lex_lt_transitive(x, y, z);
    }
}

proof fn lemma_trailing_after_colon(s: Seq<char>, p: int)
    requires
        0 <= p < s.len(),
        s[p] == ':',
        forall|j: int| p < j < s.len() ==> s[j] != ':',
    ensures
        trailing(s) == s.subrange(p + 1, s.len() as int),
    decreases s.len(),
{
    if p == s.len() - 1 {
        assert(s.last() == ':');
        assert(trailing(s) =~= s.subrange(p + 1, s.len() as int));
    } else {
        assert(s.last() != ':');
        let d = s.drop_last();
        assert(d[p] == ':');
        lemma_trailing_after_colon(d, p);
        assert(s.subrange(p + 1, s.len() as int) =~= d.subrange(p + 1, d.len() as int).push(
            s.last(),
        ));
    }
}

proof fn lemma_trailing_no_colon(s: Seq<char>)
    requires
        forall|j: int| 0 <= j < s.len() ==> s[j] != ':',
    ensures
        trailing(s) == s,
    decreases s.len(),
{
    if s.len() > 0 {
        assert(s.last() != ':');
        lemma_trailing_no_colon(s.drop_last());
        assert(s.drop_last().push(s.last()) =~= s);
    }
}

/// Hands out the bare name: the slice after the final `:`, or the whole
/// slice when there is no `:`.
#[verifier::loop_isolation(false)]
pub fn trailing_part(s: &str) -> (r: &str)
    ensures
        r@ == trailing(s@),
{
    let n = s.unicode_len();
    let mut i: usize = n;
    while i > 0 && s.get_char(i - 1) != ':'
        invariant
            i <= n,
            forall|j: int| i <= j < n ==> s@[j] != ':',
        decreases i,
    {
        i -= 1;
    }
    let r = s.substring_char(i, n);
    proof {
        if i == 0 {
            lemma_trailing_no_colon(s@);
            assert(s@.subrange(0, n as int) =~= s@);
        } else {
            lemma_trailing_after_colon(s@, i - 1);
        }
    }
    r
}

/// Relies on edit_distance::edit_distance: the Levenshtein distance between
/// the two strings, counted over characters.
#[verifier::external_body]
fn edit_dist(a: &str, b: &str) -> (r: usize)
    ensures
        r as nat == levenshtein(a@, b@),
{
    edit_distance::edit_distance(a, b)
}

spec fn pairs_contain(v: Seq<(usize, String)>, x: Seq<char>) -> bool {
    exists|k: int| 0 <= k < v.len() && v[k].1@ == x
}

spec fn pairs_wf(v: Seq<(usize, String)>, query: Seq<char>) -> bool {
    &&& forall|k: int|
        0 <= k < v.len() ==> (#[trigger] v[k]).0 as nat == suggestion_distance(v[k].1@, query)
    &&& forall|k: int, l: int| 0 <= k < l < v.len() ==> ranked_ahead(v[k].1@, v[l].1@, query)
}

/// Inserts one near-enough entry into the ranking, keeping it strictly
/// ordered by distance, ties by lexicographic order; an entry already
/// ranked is not duplicated.
#[verifier::rlimit(60)]
fn insert_ranked(pairs: &mut Vec<(usize, String)>, d: usize, s: String, Ghost(query): Ghost<
    Seq<char>,
>)
    requires
        d as nat == suggestion_distance(s@, query),
        pairs_wf(old(pairs)@, query),
    ensures
        pairs_wf(final(pairs)@, query),
        forall|x: Seq<char>|
            pairs_contain(final(pairs)@, x) <==> (pairs_contain(old(pairs)@, x) || x == s@),
{
    let n = pairs.len();
    let mut i: usize = 0;
    loop
        invariant
            i <= n,
            n == pairs.len(),
            pairs@ == old(pairs)@,
            d as nat == suggestion_distance(s@, query),
            pairs_wf(pairs@, query),
            forall|j: int| 0 <= j < i ==> ranked_ahead((#[trigger] pairs@[j]).1@, s@, query),
        ensures
            i <= n,
            n == pairs.len(),
            pairs@ == old(pairs)@,
            forall|j: int| 0 <= j < i ==> ranked_ahead((#[trigger] pairs@[j]).1@, s@, query),
            i < n ==> ranked_ahead(s@, pairs@[i as int].1@, query),
        decreases n - i,
    {
        if i == n {
            break;
        }
        let pd = pairs[i].0;
        if pd < d {
            i += 1;
        } else if pd > d {
            proof {
                assert(ranked_ahead(s@, pairs@[i as int].1@, query));
            }
            break;
        } else if str_lt(pairs[i].1.as_str(), s.as_str()) {
            i += 1;
        } else if str_eq(pairs[i].1.as_str(), s.as_str()) {
            // Already ranked: nothing changes, and the ranking holds s.
            assert(pairs_contain(pairs@, s@));
            return;
        } else {
            proof {
                lemma_lex_lt_total(s@, pairs@[i as int].1@);
                assert(ranked_ahead(s@, pairs@[i as int].1@, query));
            }
            break;
        }
    }
    let ghost prior = pairs@;
    pairs.insert(i, (d, s));
    proof {
        prior.insert_ensures(i as int, (d, s));
        assert(pairs@[i as int].1 == s);
        assert forall|k: int, l: int| 0 <= k < l < pairs@.len() implies ranked_ahead(
            pairs@[k].1@,
            pairs@[l].1@,
            query,
        ) by {
            if l < i {
                assert(pairs@[k] == prior[k]);
                assert(pairs@[l] == prior[l]);
            } else if l == i {
                assert(pairs@[k] == prior[k]);
            } else if k == i {
                assert(pairs@[l] == prior[l - 1]);
                if l - 1 > i {
                    lemma_ranked_ahead_transitive(
                        pairs@[k].1@,
                        prior[i as int].1@,
                        prior[l - 1].1@,
                        query,
                    );
                }
            } else if k < i {
                assert(pairs@[k] == prior[k]);
                assert(pairs@[l] == prior[l - 1]);
                if k == l - 1 {
                    lemma_ranked_ahead_transitive(
                        prior[k].1@,
                        pairs@[i as int].1@,
                        prior[l - 1].1@,
                        query,
                    );
                }
            } else {
                assert(pairs@[k] == prior[k - 1]);
                assert(pairs@[l] == prior[l - 1]);
            }
        }
        assert forall|x: Seq<char>|
            pairs_contain(pairs@, x) <==> (pairs_contain(prior, x) || x == s@) by {
            if pairs_contain(pairs@, x) {
                let k = choose|k: int| 0 <= k < pairs@.len() && pairs@[k].1@ == x;
                if k < i {
                    assert(prior[k].1@ == x);
                    assert(pairs_contain(prior, x));
                } else if k > i {
                    assert(prior[k - 1].1@ == x);
                    assert(pairs_contain(prior, x));
                }
            }
            if pairs_contain(prior, x) {
                let k = choose|k: int| 0 <= k < prior.len() && prior[k].1@ == x;
                if k < i {
                    assert(pairs@[k].1@ == x);
                } else {
                    assert(pairs@[k + 1].1@ == x);
                }
                assert(pairs_contain(pairs@, x));
            }
            if x == s@ {
                assert(pairs_contain(pairs@, x));
            }
        }
    }
}

/// Ranks the catalog's entries as suggestions for `query`: exactly those
/// entries whose bare name lies within `SUGGESTION_THRESHOLD` of the
/// query's bare name, nearest first, ties in lexicographic order.
#[verifier::loop_isolation(false)]
pub fn rank_suggestions(catalog: &Vec<String>, query: &str) -> (sug: Vec<String>)
    ensures
        forall|x: Seq<char>|
            contains_str(sug@, x) <==> (contains_str(catalog@, x) && suggestion_distance(
                x,
                query@,
            ) <= SUGGESTION_THRESHOLD),
        forall|i: int, j: int|
            0 <= i < j < sug@.len() ==> ranked_ahead(sug@[i]@, sug@[j]@, query@),
{
    let q_trail = trailing_part(query);
    let mut pairs: Vec<(usize, String)> = Vec::new();
    let n = catalog.len();
    let mut i: usize = 0;
    while i < n
        invariant
            i <= n,
            pairs_wf(pairs@, query@),
            forall|x: Seq<char>|
                pairs_contain(pairs@, x) <==> (contains_str(catalog@.take(i as int), x)
                    && suggestion_distance(x, query@) <= SUGGESTION_THRESHOLD),
        decreases n - i,
    {
        let entry = &catalog[i];
        let e_trail = trailing_part(entry.as_str());
        let d = edit_dist(e_trail, q_trail);
        let ghost before = pairs@;
        if d <= SUGGESTION_THRESHOLD {
            insert_ranked(&mut pairs, d, entry.clone(), Ghost(query@));
        }
        proof {
            assert forall|x: Seq<char>|
                pairs_contain(pairs@, x) <==> (contains_str(catalog@.take(i + 1), x)
                    && suggestion_distance(x, query@) <= SUGGESTION_THRESHOLD) by {
                lemma_contains_take_step(catalog@, i as int, x);
            }
        }
        i += 1;
    }
    proof {
        assert(catalog@.take(n as int) =~= catalog@);
    }
    let mut sug: Vec<String> = Vec::new();
    let m = pairs.len();
    let mut k: usize = 0;
    while k < m
        invariant
            k <= m,
            m == pairs.len(),
            sug@.len() == k,
            forall|l: int| 0 <= l < k ==> (#[trigger] sug@[l])@ == pairs@[l].1@,
        decreases m - k,
    {
        sug.push(pairs[k].1.clone());
        k += 1;
    }
    proof {
        assert forall|x: Seq<char>| contains_str(sug@, x) <==> pairs_contain(pairs@, x) by {
            if contains_str(sug@, x) {
                let l = choose|l: int| 0 <= l < sug@.len() && sug@[l]@ == x;
                assert(pairs@[l].1@ == x);
                assert(pairs_contain(pairs@, x));
            }
            if pairs_contain(pairs@, x) {
                let l = choose|l: int| 0 <= l < pairs@.len() && pairs@[l].1@ == x;
                assert(sug@[l]@ == x);
                assert(contains_str(sug@, x));
            }
        }
    }
    sug
}

} // verus!
