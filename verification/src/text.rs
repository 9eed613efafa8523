//! Character-level utilities shared by the parsers and the reconciler:
//! copying a string into an indexable vector of characters, string
//! equality, substring search, and a lexicographic order on character
//! sequences.

use vstd::prelude::*;

verus! {

/// Copy the characters of a string into a vector, for O(1) indexed access.
pub fn chars_of(s: &str) -> (r: Vec<char>)
    ensures
        r@ == s@,
{
    let n = s.unicode_len();
    let mut r: Vec<char> = Vec::new();
    let mut i: usize = 0;
    while i < n
        invariant
            i <= n,
            n == s@.len(),
            r@ =~= s@.subrange(0, i as int),
        decreases n - i,
    {
        r.push(s.get_char(i));
        i += 1;
    }
    proof {
        assert(r@ =~= s@);
    }
    r
}

/// Equality of two string slices, decided character by character.
pub fn str_eq(a: &str, b: &str) -> (r: bool)
    ensures
        r == (a@ == b@),
{
    let alen = a.unicode_len();
    let blen = b.unicode_len();
    if alen != blen {
        return false;
    }
    let mut i: usize = 0;
    while i < alen
        invariant
            i <= alen,
            alen == a@.len(),
            alen == b@.len(),
            forall|j: int| 0 <= j < i ==> a@[j] == b@[j],
        decreases alen - i,
    {
        if a.get_char(i) != b.get_char(i) {
            return false;
        }
        i += 1;
    }
    proof {
        assert(a@ =~= b@);
    }
    true
}

/// Whether `pat` occurs in `s` starting exactly at position `i`.
pub open spec fn match_at<T>(s: Seq<T>, pat: Seq<T>, i: int) -> bool {
    &&& 0 <= i
    &&& i + pat.len() <= s.len()
    &&& s.subrange(i, i + pat.len() as int) == pat
}

/// Whether `pat` occurs anywhere in `s` at or after position `from`.
pub open spec fn contains_from<T>(s: Seq<T>, pat: Seq<T>, from: int) -> bool {
    exists|i: int| i >= from && match_at(s, pat, i)
}

/// Test whether `pat` stands at position `i` of `s`.
pub fn match_at_exec(s: &Vec<char>, pat: &Vec<char>, i: usize) -> (r: bool)
    requires
        i <= s@.len(),
    ensures
        r == match_at(s@, pat@, i as int),
{
    if pat.len() > s.len() - i {
        return false;
    }
    let mut k: usize = 0;
    while k < pat.len()
        invariant
            k <= pat@.len(),
            i + pat@.len() <= s@.len(),
            s@.len() <= usize::MAX,
            forall|j: int| 0 <= j < k ==> s@[i + j] == pat@[j],
        decreases pat@.len() - k,
    {
        if s[i + k] != pat[k] {
            proof {
                assert(s@.subrange(i as int, i + pat@.len() as int)[k as int] == s@[i + k]);
            }
            return false;
        }
        k += 1;
    }
    proof {
        assert(s@.subrange(i as int, i + pat@.len() as int) =~= pat@);
    }
    true
}

/// Lexicographic order on character sequences, by code point; the order
/// `String` comparison gives in ordinary Rust.
pub open spec fn lex_le(a: Seq<char>, b: Seq<char>) -> bool
    decreases a.len(),
{
    if a.len() == 0 {
        true
    } else if b.len() == 0 {
        false
    } else if a[0] == b[0] {
        lex_le(a.drop_first(), b.drop_first())
    } else {
        (a[0] as int) < (b[0] as int)
    }
}

/// `lex_le` relates every pair of sequences one way or the other.
pub proof fn lemma_lex_le_connected(a: Seq<char>, b: Seq<char>)
    ensures
        lex_le(a, b) || lex_le(b, a),
    decreases a.len(),
{
    if a.len() == 0 || b.len() == 0 {
    } else if a[0] == b[0] {
        lemma_lex_le_connected(a.drop_first(), b.drop_first());
    } else {
        assert((a[0] as int) != (b[0] as int));
    }
}

/// `lex_le` both ways means the sequences are equal.
pub proof fn lemma_lex_le_antisymmetric(a: Seq<char>, b: Seq<char>)
    requires
        lex_le(a, b),
        lex_le(b, a),
    ensures
        a == b,
    decreases a.len(),
{
    if a.len() == 0 {
        assert(b.len() == 0);
        assert(a =~= b);
    } else {
        assert(b.len() > 0);
        if a[0] == b[0] {
            lemma_lex_le_antisymmetric(a.drop_first(), b.drop_first());
            assert(a =~= seq![a[0]] + a.drop_first());
            assert(b =~= seq![b[0]] + b.drop_first());
        }
    }
}

/// `lex_le` is transitive.
pub proof fn lemma_lex_le_transitive(a: Seq<char>, b: Seq<char>, c: Seq<char>)
    requires
        lex_le(a, b),
        lex_le(b, c),
    ensures
        lex_le(a, c),
    decreases a.len(),
{
    if a.len() == 0 || b.len() == 0 || c.len() == 0 {
    } else {
        if a[0] == b[0] && b[0] == c[0] {
            lemma_lex_le_transitive(a.drop_first(), b.drop_first(), c.drop_first());
        }
    }
}

/// The spec-level order handed to sorting lemmas.
pub open spec fn lex_leq_fn() -> spec_fn(Seq<char>, Seq<char>) -> bool {
    |a: Seq<char>, b: Seq<char>| lex_le(a, b)
}

/// `lex_le` is a total order on character sequences.
pub proof fn lemma_lex_le_total_ordering()
    ensures
        vstd::relations::total_ordering(lex_leq_fn()),
{
    let leq = lex_leq_fn();
    assert forall|a: Seq<char>| #[trigger] leq(a, a) by {
        lemma_lex_le_connected(a, a);
    }
    assert forall|a: Seq<char>, b: Seq<char>| #[trigger] leq(a, b) && #[trigger] leq(b, a)
        implies a == b by {
        lemma_lex_le_antisymmetric(a, b);
    }
    assert forall|a: Seq<char>, b: Seq<char>, c: Seq<char>|
        #[trigger] leq(a, b) && #[trigger] leq(b, c) implies leq(a, c) by {
        lemma_lex_le_transitive(a, b, c);
    }
    assert forall|a: Seq<char>, b: Seq<char>| #![trigger leq(a, b)] true implies leq(a, b) || leq(
        b,
        a,
    ) by {
        lemma_lex_le_connected(a, b);
    }
}

/// Compare two strings in the lexicographic order `lex_le`.
pub fn str_lex_le(a: &str, b: &str) -> (r: bool)
    ensures
        r == lex_le(a@, b@),
{
    let alen = a.unicode_len();
    let blen = b.unicode_len();
    let mut i: usize = 0;
    proof {
        assert(a@.skip(0) =~= a@);
        assert(b@.skip(0) =~= b@);
    }
    loop
        invariant
            i <= alen,
            i <= blen,
            alen == a@.len(),
            blen == b@.len(),
            lex_le(a@, b@) == lex_le(a@.skip(i as int), b@.skip(i as int)),
        decreases alen - i,
    {
        if i >= alen {
            return true;
        }
        if i >= blen {
            return false;
        }
        let ca = a.get_char(i);
        let cb = b.get_char(i);
        if ca != cb {
            proof {
                assert(a@.skip(i as int)[0] == ca);
                assert(b@.skip(i as int)[0] == cb);
                assert(((ca as u32) < (cb as u32)) == ((ca as int) < (cb as int)));
            }
            return (ca as u32) < (cb as u32);
        }
        proof {
            assert(a@.skip(i as int)[0] == ca);
            assert(b@.skip(i as int)[0] == cb);
            assert(a@.skip(i as int).drop_first() =~= a@.skip(i + 1));
            assert(b@.skip(i as int).drop_first() =~= b@.skip(i + 1));
        }
        i += 1;
    }
}

} // verus!

verus! {

/// The position of the leftmost occurrence of `pat` in `s` at or after
/// `from`; one past the length of `s` where there is none.
pub open spec fn find_pos<T>(s: Seq<T>, pat: Seq<T>, from: int) -> int
    decreases s.len() + 1 - from,
{
    if from + pat.len() > s.len() {
        s.len() as int + 1
    } else if match_at(s, pat, from) {
        from
    } else {
        find_pos(s, pat, from + 1)
    }
}

/// What a `find_pos` result means: a position within the text is the
/// leftmost match; the sentinel position means there is none at all.
pub proof fn lemma_find_pos_props<T>(s: Seq<T>, pat: Seq<T>, from: int)
    requires
        0 <= from,
    ensures
        find_pos(s, pat, from) <= s.len() ==> {
            &&& from <= find_pos(s, pat, from)
            &&& match_at(s, pat, find_pos(s, pat, from))
            &&& forall|j: int|
                from <= j < find_pos(s, pat, from) ==> !(#[trigger] match_at(s, pat, j))
        },
        find_pos(s, pat, from) > s.len() ==> {
            &&& find_pos(s, pat, from) == s.len() + 1
            &&& !contains_from(s, pat, from)
        },
    decreases s.len() + 1 - from,
{
    if from + pat.len() > s.len() {
        assert forall|j: int| j >= from implies !match_at(s, pat, j) by {}
    } else if match_at(s, pat, from) {
    } else {
        lemma_find_pos_props(s, pat, from + 1);
        if find_pos(s, pat, from) > s.len() {
            assert forall|j: int| j >= from implies !match_at(s, pat, j) by {
                if j == from {
                } else {
                    assert(!contains_from(s, pat, from + 1));
                }
            }
        }
    }
}

/// Locate the leftmost occurrence of `pat` in `s` at or after `from`.
pub fn find_in(s: &Vec<char>, pat: &Vec<char>, from: usize) -> (r: Option<usize>)
    ensures
        match r {
            Some(i) => {
                &&& find_pos(s@, pat@, from as int) == i as int
                &&& from <= i
                &&& i + pat@.len() <= s@.len()
            },
            None => find_pos(s@, pat@, from as int) == s@.len() + 1,
        },
{
    let slen = s.len();
    let plen = pat.len();
    let mut i: usize = from;
    loop
        invariant
            from <= i,
            slen == s@.len(),
            plen == pat@.len(),
            find_pos(s@, pat@, from as int) == find_pos(s@, pat@, i as int),
        decreases slen + 1 - i,
    {
        if plen > slen || i > slen - plen {
            proof {
                assert(find_pos(s@, pat@, i as int) == s@.len() + 1);
            }
            return None;
        }
        if match_at_exec(s, pat, i) {
            proof {
                assert(find_pos(s@, pat@, i as int) == i as int);
            }
            return Some(i);
        }
        proof {
            assert(plen > 0) by {
                if pat@.len() == 0 {
                    assert(s@.subrange(i as int, i as int) =~= pat@);
                }
            }
            assert(find_pos(s@, pat@, i as int) == find_pos(s@, pat@, i + 1));
        }
        i += 1;
    }
}

} // verus!
