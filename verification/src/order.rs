//! Lexicographic ordering of identifier strings and maintenance of strictly
//! ascending, duplicate-free string sequences. This is the backbone shared by
//! artifact discovery (sorted, deduplicated file lists) and the function
//! catalog (sorted, deduplicated identifier lists): both owe their
//! order-independence to the uniqueness of sorted duplicate-free sequences,
//! proved here as `lemma_sorted_unique_equal`.

use vstd::prelude::*;

verus! {

/// Strict lexicographic order on character sequences, characters ordered by
/// Unicode scalar value. Catalogs and discovered file lists are kept strictly
/// ascending in this order.
pub open spec fn lex_lt(a: Seq<char>, b: Seq<char>) -> bool
    decreases a.len(),
{
    if b.len() == 0 {
        false
    } else if a.len() == 0 {
        true
    } else if (a[0] as u32) < (b[0] as u32) {
        true
    } else if a[0] == b[0] {
        lex_lt(a.drop_first(), b.drop_first())
    } else {
        false
    }
}

pub proof fn lemma_lex_lt_irreflexive(a: Seq<char>)
    ensures
        !lex_lt(a, a),
    decreases a.len(),
{
    if a.len() > 0 {
        lemma_lex_lt_irreflexive(a.drop_first());
    }
}

pub proof fn lemma_lex_lt_asymmetric(a: Seq<char>, b: Seq<char>)
    requires
        lex_lt(a, b),
    ensures
        !lex_lt(b, a),
    decreases a.len(),
{
    if a.len() > 0 && b.len() > 0 && a[0] == b[0] {
        lemma_lex_lt_asymmetric(a.drop_first(), b.drop_first());
    }
}

pub proof fn lemma_lex_lt_transitive(a: Seq<char>, b: Seq<char>, c: Seq<char>)
    requires
        lex_lt(a, b),
        lex_lt(b, c),
    ensures
        lex_lt(a, c),
    decreases a.len(),
{
    if a.len() > 0 && b.len() > 0 && c.len() > 0 && a[0] == b[0] && b[0] == c[0] {
        lemma_lex_lt_transitive(a.drop_first(), b.drop_first(), c.drop_first());
    }
}

/// Two characters with the same Unicode scalar value are the same character.
proof fn lemma_char_eq_by_scalar(a: char, b: char)
    requires
        a as u32 == b as u32,
    ensures
        a == b,
{
    vstd::utf8::char_u32_cast(a, a as u32);
    vstd::utf8::char_u32_cast(b, b as u32);
}

/// Any two character sequences are ordered or equal: the order is total.
pub proof fn lemma_lex_lt_total(a: Seq<char>, b: Seq<char>)
    ensures
        lex_lt(a, b) || lex_lt(b, a) || a == b,
    decreases a.len(),
{
    if a.len() == 0 && b.len() == 0 {
        assert(a =~= b);
    } else if a.len() > 0 && b.len() > 0 && a[0] == b[0] {
        lemma_lex_lt_total(a.drop_first(), b.drop_first());
        if !lex_lt(a, b) && !lex_lt(b, a) {
            assert(a.drop_first() == b.drop_first());
            assert forall|i: int| 0 <= i < a.len() implies a[i] == b[i] by {
                if i > 0 {
                    assert(a.drop_first()[i - 1] == a[i]);
                    assert(b.drop_first()[i - 1] == b[i]);
                }
            }
            assert(a =~= b);
        }
    } else if a.len() > 0 && b.len() > 0 {
        if a[0] as u32 == b[0] as u32 {
            lemma_char_eq_by_scalar(a[0], b[0]);
        }
    }
}

/// Does the sequence of strings hold an element whose characters are `x`?
pub open spec fn contains_str(v: Seq<String>, x: Seq<char>) -> bool {
    exists|i: int| 0 <= i < v.len() && v[i]@ == x
}

/// Strictly ascending in lexicographic order; in particular, duplicate-free.
pub open spec fn strictly_sorted(v: Seq<String>) -> bool {
    forall|i: int, j: int| 0 <= i < j < v.len() ==> lex_lt(v[i]@, v[j]@)
}

/// A strictly ascending sequence holds no two equal strings: the catalog
/// invariant of strict ascent subsumes deduplication.
pub proof fn lemma_strictly_sorted_distinct(v: Seq<String>)
    requires
        strictly_sorted(v),
    ensures
        forall|i: int, j: int| 0 <= i < j < v.len() ==> v[i]@ != v[j]@,
{
    assert forall|i: int, j: int| 0 <= i < j < v.len() implies v[i]@ != v[j]@ by {
        lemma_lex_lt_irreflexive(v[i]@);
    }
}

/// A strictly ascending sequence is determined by its members: two such
/// sequences holding exactly the same strings are identical, element for
/// element. Every order-independence guarantee — the catalog produced by
/// resolution, and the file list produced by discovery — rests on this fact.
pub proof fn lemma_sorted_unique_equal(a: Seq<String>, b: Seq<String>)
    requires
        strictly_sorted(a),
        strictly_sorted(b),
        forall|x: Seq<char>| contains_str(a, x) <==> contains_str(b, x),
    ensures
        a.len() == b.len(),
        forall|i: int| 0 <= i < a.len() ==> a[i]@ == b[i]@,
    decreases a.len(),
{
    if a.len() == 0 {
        if b.len() > 0 {
            assert(contains_str(b, b[0]@));
            assert(contains_str(a, b[0]@));
            assert(false);
        }
    } else if b.len() == 0 {
        assert(contains_str(a, a[0]@));
        assert(contains_str(b, a[0]@));
        assert(false);
    } else {
        // The heads are equal: each is a member of the other sequence, and a
        // member at a later position would be strictly greater.
        assert(contains_str(a, a[0]@));
        let j = choose|j: int| 0 <= j < b.len() && b[j]@ == a[0]@;
        assert(contains_str(b, b[0]@));
        let k = choose|k: int| 0 <= k < a.len() && a[k]@ == b[0]@;
        if j > 0 && k > 0 {
            assert(lex_lt(b[0]@, b[j]@));
            assert(lex_lt(a[0]@, a[k]@));
            lemma_lex_lt_asymmetric(b[0]@, a[0]@);
            assert(false);
        }
        assert(a[0]@ == b[0]@);

        let at = a.drop_first();
        let bt = b.drop_first();
        assert forall|i: int, j2: int| 0 <= i < j2 < at.len() implies lex_lt(
            at[i]@,
            at[j2]@,
        ) by {
            assert(at[i] == a[i + 1]);
            assert(at[j2] == a[j2 + 1]);
        }
        assert forall|i: int, j2: int| 0 <= i < j2 < bt.len() implies lex_lt(
            bt[i]@,
            bt[j2]@,
        ) by {
            assert(bt[i] == b[i + 1]);
            assert(bt[j2] == b[j2 + 1]);
        }
        assert forall|x: Seq<char>| contains_str(at, x) implies contains_str(bt, x) by {
            let i = choose|i: int| 0 <= i < at.len() && at[i]@ == x;
            assert(a[i + 1]@ == x);
            assert(contains_str(a, x));
            let j2 = choose|j2: int| 0 <= j2 < b.len() && b[j2]@ == x;
            if j2 == 0 {
                // x would equal the shared head, yet lie strictly above it.
                assert(lex_lt(a[0]@, a[i + 1]@));
                lemma_lex_lt_irreflexive(x);
                assert(false);
            }
            assert(bt[j2 - 1]@ == x);
        }
        assert forall|x: Seq<char>| contains_str(bt, x) implies contains_str(at, x) by {
            let i = choose|i: int| 0 <= i < bt.len() && bt[i]@ == x;
            assert(b[i + 1]@ == x);
            assert(contains_str(b, x));
            let j2 = choose|j2: int| 0 <= j2 < a.len() && a[j2]@ == x;
            if j2 == 0 {
                assert(lex_lt(b[0]@, b[i + 1]@));
                lemma_lex_lt_irreflexive(x);
                assert(false);
            }
            assert(at[j2 - 1]@ == x);
        }
        lemma_sorted_unique_equal(at, bt);
        assert forall|i: int| 0 <= i < a.len() implies a[i]@ == b[i]@ by {
            if i > 0 {
                assert(at[i - 1] == a[i]);
                assert(bt[i - 1] == b[i]);
            }
        }
    }
}

/// Extending a prefix by one element extends its membership by exactly that
/// element.
pub proof fn lemma_contains_take_step(v: Seq<String>, i: int, x: Seq<char>)
    requires
        0 <= i < v.len(),
    ensures
        contains_str(v.take(i + 1), x) <==> (contains_str(v.take(i), x) || v[i]@ == x),
{
    if contains_str(v.take(i + 1), x) {
        let k = choose|k: int| 0 <= k < i + 1 && #[trigger] v.take(i + 1)[k]@ == x;
        if k < i {
            assert(v.take(i)[k]@ == x);
            assert(contains_str(v.take(i), x));
        } else {
            assert(v[i]@ == x);
        }
    }
    if contains_str(v.take(i), x) {
        let k = choose|k: int| 0 <= k < i && #[trigger] v.take(i)[k]@ == x;
        assert(v.take(i + 1)[k]@ == x);
        assert(contains_str(v.take(i + 1), x));
    }
    if v[i]@ == x {
        assert(v.take(i + 1)[i]@ == x);
        assert(contains_str(v.take(i + 1), x));
    }
}

/// Character-for-character equality of two string slices.
pub fn str_eq(a: &str, b: &str) -> (r: bool)
    ensures
        r == (a@ == b@),
{
    let a_len = a.unicode_len();
    let b_len = b.unicode_len();
    if a_len != b_len {
        assert(a@ != b@);
        return false;
    }
    let mut i: usize = 0;
    while i < a_len
        invariant
            i <= a_len,
            a_len == a@.len(),
            b_len == b@.len(),
            a_len == b_len,
            forall|j: int| 0 <= j < i ==> a@[j] == b@[j],
        decreases a_len - i,
    {
        if a.get_char(i) != b.get_char(i) {
            assert(a@ != b@);
            return false;
        }
        i += 1;
    }
    assert(a@ =~= b@);
    true
}

/// Is `a` lexicographically strictly below `b`?
pub fn str_lt(a: &str, b: &str) -> (r: bool)
    ensures
        r == lex_lt(a@, b@),
{
    let a_len = a.unicode_len();
    let b_len = b.unicode_len();
    let mut i: usize = 0;
    proof {
        assert(a@.skip(0) =~= a@);
        assert(b@.skip(0) =~= b@);
    }
    loop
        invariant
            i <= a_len,
            i <= b_len,
            a_len == a@.len(),
            b_len == b@.len(),
            lex_lt(a@, b@) == lex_lt(a@.skip(i as int), b@.skip(i as int)),
        decreases a_len - i,
    {
        proof {
            assert(a@.skip(i as int).len() == a_len - i);
            assert(b@.skip(i as int).len() == b_len - i);
        }
        if i == a_len {
            return i < b_len;
        }
        if i == b_len {
            return false;
        }
        let ca = a.get_char(i);
        let cb = b.get_char(i);
        proof {
            assert(a@.skip(i as int)[0] == a@[i as int]);
            assert(b@.skip(i as int)[0] == b@[i as int]);
        }
        if (ca as u32) < (cb as u32) {
            return true;
        }
        if ca != cb {
            return false;
        }
        proof {
            assert(a@.skip(i as int).drop_first() =~= a@.skip(i + 1));
            assert(b@.skip(i as int).drop_first() =~= b@.skip(i + 1));
        }
        i += 1;
    }
}

/// Inserts `s` into a strictly ascending vector of strings, keeping it
/// strictly ascending: a string already present is not inserted again.
#[verifier::rlimit(60)]
pub fn insert_sorted_unique(v: &mut Vec<String>, s: String)
    requires
        strictly_sorted(old(v)@),
    ensures
        strictly_sorted(final(v)@),
        forall|x: Seq<char>|
            contains_str(final(v)@, x) <==> (contains_str(old(v)@, x) || x == s@),
{
    let n = v.len();
    let mut i: usize = 0;
    loop
        invariant
            i <= n,
            n == v.len(),
            v@ == old(v)@,
            strictly_sorted(v@),
            forall|j: int| 0 <= j < i ==> lex_lt(v@[j]@, s@),
        ensures
            i <= n,
            n == v.len(),
            v@ == old(v)@,
            forall|j: int| 0 <= j < i ==> lex_lt(v@[j]@, s@),
            i < n ==> lex_lt(s@, v@[i as int]@),
        decreases n - i,
    {
        if i == n {
            break;
        }
        if str_lt(v[i].as_str(), s.as_str()) {
            i += 1;
        } else if str_eq(v[i].as_str(), s.as_str()) {
            // Already present: the vector is unchanged and already holds s.
            assert(contains_str(v@, s@));
            return;
        } else {
            proof {
                lemma_lex_lt_total(s@, v@[i as int]@);
            }
            break;
        }
    }
    let ghost prior = v@;
    v.insert(i, s);
    proof {
        prior.insert_ensures(i as int, s);
        assert(v@[i as int] == s);
        assert forall|p: int, q: int| 0 <= p < q < v@.len() implies lex_lt(v@[p]@, v@[q]@) by {
            if q < i {
                assert(v@[p] == prior[p]);
                assert(v@[q] == prior[q]);
            } else if q == i {
                assert(v@[p] == prior[p]);
            } else if p == i {
                assert(v@[q] == prior[q - 1]);
                if q - 1 > i {
                    lemma_lex_lt_transitive(v@[p]@, prior[i as int]@, prior[q - 1]@);
                }
            } else if p < i {
                assert(v@[p] == prior[p]);
                assert(v@[q] == prior[q - 1]);
                if p == q - 1 {
                    lemma_lex_lt_transitive(prior[p]@, v@[i as int]@, prior[q - 1]@);
                }
            } else {
                assert(v@[p] == prior[p - 1]);
                assert(v@[q] == prior[q - 1]);
            }
        }
        assert forall|x: Seq<char>|
            contains_str(v@, x) <==> (contains_str(prior, x) || x == v@[i as int]@) by {
            if contains_str(v@, x) {
                let k = choose|k: int| 0 <= k < v@.len() && v@[k]@ == x;
                if k < i {
                    assert(prior[k]@ == x);
                    assert(contains_str(prior, x));
                } else if k > i {
                    assert(prior[k - 1]@ == x);
                    assert(contains_str(prior, x));
                }
            }
            if contains_str(prior, x) {
                let k = choose|k: int| 0 <= k < prior.len() && prior[k]@ == x;
                if k < i {
                    assert(v@[k]@ == x);
                } else {
                    assert(v@[k + 1]@ == x);
                }
                assert(contains_str(v@, x));
            }
            if x == v@[i as int]@ {
                assert(contains_str(v@, x));
            }
        }
    }
}

/// Sorts the given strings ascending and removes duplicates: the result is
/// strictly ascending and holds exactly the strings of the input.
pub fn sorted_dedup(items: Vec<String>) -> (r: Vec<String>)
    ensures
        strictly_sorted(r@),
        forall|x: Seq<char>| contains_str(r@, x) <==> contains_str(items@, x),
{
    let mut r: Vec<String> = Vec::new();
    let n = items.len();
    let mut i: usize = 0;
    while i < n
        invariant
            i <= n,
            n == items.len(),
            strictly_sorted(r@),
            forall|x: Seq<char>|
                contains_str(r@, x) <==> contains_str(items@.take(i as int), x),
        decreases n - i,
    {
        insert_sorted_unique(&mut r, items[i].clone());
        proof {
            assert forall|x: Seq<char>|
                contains_str(r@, x) <==> contains_str(items@.take(i + 1), x) by {
                lemma_contains_take_step(items@, i as int, x);
            }
        }
        i += 1;
    }
    proof {
        assert(items@.take(n as int) =~= items@);
    }
    r
}

} // verus!
