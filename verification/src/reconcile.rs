//! Reconciliation of persisted configuration against a freshly parsed
//! manifest.
//!
//! Addresses are compared order-insensitively: both lists are sorted
//! into the same lexicographic order and compared for exact equality;
//! any difference overwrites the persisted list with the sorted fresh
//! one. The version moves only forward: a freshly extracted version is
//! persisted exactly when it is strictly greater than the persisted
//! one, and an equal or lower one is a no-op.

use vstd::prelude::*;
use vstd::multiset::Multiset;
use vstd::relations::sorted_by;
use vstd::seq_lib::lemma_sorted_unique;
use crate::text::{lex_le, lex_leq_fn, lemma_lex_le_total_ordering, str_lex_le, str_eq};
use crate::version::parse_i32_or_zero;
use crate::version::parse_i32_or_default;

verus! {

/// The character sequences of a list of strings.
pub open spec fn views_of(xs: Seq<String>) -> Seq<Seq<char>> {
    xs.map_values(|x: String| x@)
}

/// The canonical form an address list is compared in: its views in
/// lexicographic order.
pub open spec fn canon(xs: Seq<String>) -> Seq<Seq<char>> {
    views_of(xs).sort_by(lex_leq_fn())
}

/// Sort an address list lexicographically.
pub fn sort_addresses(v: &Vec<String>) -> (r: Vec<String>)
    ensures
        views_of(r@) == canon(v@),
{
    let mut r: Vec<String> = Vec::new();
    let n = v.len();
    let mut i: usize = 0;
    proof {
        broadcast use vstd::seq_lib::group_to_multiset_ensures;

        assert(views_of(v@.subrange(0, 0)) =~= Seq::<Seq<char>>::empty());
        assert(views_of(r@) =~= Seq::<Seq<char>>::empty());
        assert(views_of(r@).to_multiset() =~= views_of(v@.subrange(0, 0)).to_multiset());
    }
    while i < n
        invariant
            i <= n,
            n == v@.len(),
            sorted_by(views_of(r@), lex_leq_fn()),
            views_of(r@).to_multiset() == views_of(v@.subrange(0, i as int)).to_multiset(),
        decreases n - i,
    {
        let x = v[i].clone();
        let mut j: usize = 0;
        while j < r.len() && str_lex_le(r[j].as_str(), x.as_str())
            invariant
                j <= r@.len(),
                forall|m: int| 0 <= m < j ==> lex_le(#[trigger] views_of(r@)[m], x@),
            decreases r@.len() - j,
        {
            proof {
                assert(views_of(r@)[j as int] == r@[j as int]@);
            }
            j += 1;
        }
        proof {
            broadcast use vstd::seq_lib::group_to_multiset_ensures;
            broadcast use vstd::seq_lib::lemma_multiset_commutative;

            lemma_lex_le_total_ordering();
            let ov = views_of(r@);
            let nv = views_of(r@.insert(j as int, x));
            assert(nv =~= ov.subrange(0, j as int) + seq![x@] + ov.subrange(
                j as int,
                ov.len() as int,
            ));
            assert(ov =~= ov.subrange(0, j as int) + ov.subrange(j as int, ov.len() as int));
            assert(nv.to_multiset() =~= ov.to_multiset().insert(x@)) by {
                let pre = ov.subrange(0, j as int);
                let post = ov.subrange(j as int, ov.len() as int);
                assert((pre + seq![x@] + post).to_multiset() =~= pre.to_multiset().add(
                    seq![x@].to_multiset(),
                ).add(post.to_multiset())) by {
                    assert(pre + seq![x@] + post =~= (pre + seq![x@]) + post);
                }
                assert(seq![x@].to_multiset() =~= Multiset::<Seq<char>>::empty().insert(x@)) by {
                    assert(seq![x@] =~= Seq::<Seq<char>>::empty().push(x@));
                }
            }
            if j < ov.len() {
                assert(views_of(r@)[j as int] == r@[j as int]@);
                assert(!lex_le(ov[j as int], x@));
                crate::text::lemma_lex_le_connected(ov[j as int], x@);
                assert(lex_le(x@, ov[j as int]));
            }
            assert(sorted_by(nv, lex_leq_fn())) by {
                assert forall|p: int, q: int| 0 <= p < q < nv.len() implies lex_leq_fn()(
                    nv[p],
                    nv[q],
                ) by {
                    if q < j {
                    } else if p > j {
                    } else if p == j && q > j {
                        assert(nv[q] == ov[q - 1]);
                        if q - 1 > j {
                            assert(lex_leq_fn()(ov[j as int], ov[q - 1]));
                            crate::text::lemma_lex_le_transitive(x@, ov[j as int], ov[q - 1]);
                        }
                    } else if q == j {
                        assert(nv[p] == ov[p]);
                    } else if p < j && q > j {
                        assert(nv[p] == ov[p]);
                        assert(nv[q] == ov[q - 1]);
                        if q - 1 > p {
                            assert(lex_leq_fn()(ov[p], ov[q - 1]));
                        }
                    }
                }
            }
            let cur = views_of(v@.subrange(0, i as int));
            let nxt = views_of(v@.subrange(0, i + 1));
            assert(nxt =~= cur.push(v@[i as int]@));
            assert(nxt.to_multiset() =~= cur.to_multiset().insert(v@[i as int]@));
        }
        r.insert(j, x);
        i += 1;
    }
    proof {
        broadcast use vstd::seq_lib::group_to_multiset_ensures;

        assert(v@.subrange(0, n as int) =~= v@);
        lemma_lex_le_total_ordering();
        views_of(v@).lemma_sort_by_ensures(lex_leq_fn());
        lemma_sorted_unique(views_of(r@), canon(v@), lex_leq_fn());
    }
    r
}

/// Compare two address lists for exact equality of their entries.
pub fn addresses_equal(a: &Vec<String>, b: &Vec<String>) -> (r: bool)
    ensures
        r == (views_of(a@) == views_of(b@)),
{
    if a.len() != b.len() {
        proof {
            assert(views_of(a@).len() != views_of(b@).len());
        }
        return false;
    }
    let n = a.len();
    let mut i: usize = 0;
    while i < n
        invariant
            i <= n,
            n == a@.len(),
            n == b@.len(),
            forall|m: int| 0 <= m < i ==> views_of(a@)[m] == views_of(b@)[m],
        decreases n - i,
    {
        if !str_eq(a[i].as_str(), b[i].as_str()) {
            proof {
                assert(views_of(a@)[i as int] == a@[i as int]@);
                assert(views_of(b@)[i as int] == b@[i as int]@);
            }
            return false;
        }
        proof {
            assert(views_of(a@)[i as int] == a@[i as int]@);
            assert(views_of(b@)[i as int] == b@[i as int]@);
        }
        i += 1;
    }
    proof {
        assert(views_of(a@) =~= views_of(b@));
    }
    true
}

/// Whether the persisted address list must be rewritten: the two lists
/// differ as sorted sequences.
pub open spec fn address_update_needed(persisted: Seq<String>, extracted: Seq<String>) -> bool {
    canon(persisted) != canon(extracted)
}

/// Decide the address reconciliation: sort both lists and compare.
/// Returns the sorted fresh list to persist where the lists differ,
/// and nothing where they hold the same addresses in any order.
pub fn reconcile_addresses(persisted: &Vec<String>, extracted: &Vec<String>) -> (r: Option<
    Vec<String>,
>)
    ensures
        r is Some <==> address_update_needed(persisted@, extracted@),
        match r {
            Some(upd) => views_of(upd@) == canon(extracted@),
            None => true,
        },
{
    let sp = sort_addresses(persisted);
    let se = sort_addresses(extracted);
    if addresses_equal(&sp, &se) {
        None
    } else {
        Some(se)
    }
}

/// Lists holding the same addresses, in whatever order and
/// multiplicity pattern, sort to the same canonical sequence: address
/// reconciliation is order-insensitive and decides no write for any
/// permutation of the persisted list.
pub proof fn lemma_addresses_order_insensitive(p: Seq<Seq<char>>, e: Seq<Seq<char>>)
    requires
        p.to_multiset() == e.to_multiset(),
    ensures
        p.sort_by(lex_leq_fn()) == e.sort_by(lex_leq_fn()),
{
    lemma_lex_le_total_ordering();
    p.lemma_sort_by_ensures(lex_leq_fn());
    e.lemma_sort_by_ensures(lex_leq_fn());
    lemma_sorted_unique(p.sort_by(lex_leq_fn()), e.sort_by(lex_leq_fn()), lex_leq_fn());
}

/// A permutation of the same address multiset never triggers a write.
pub proof fn lemma_reconcile_addresses_no_write(persisted: Seq<String>, extracted: Seq<String>)
    requires
        views_of(persisted).to_multiset() == views_of(extracted).to_multiset(),
    ensures
        !address_update_needed(persisted, extracted),
{
    lemma_addresses_order_insensitive(views_of(persisted), views_of(extracted));
}

/// Whether the persisted version must be rewritten: the freshly
/// extracted version is strictly greater than the persisted one, read
/// as an integer with a failed parse counting as zero.
pub open spec fn version_update_needed(persisted: Seq<char>, extracted: int) -> bool {
    extracted > parse_i32_or_zero(persisted)
}

/// Decide the version reconciliation. Returns the version to persist
/// exactly when the fresh version is strictly greater than the
/// persisted one; an equal or lower fresh version decides nothing and
/// the version never moves backward.
pub fn reconcile_version(persisted_version: &str, extracted: i32) -> (r: Option<i32>)
    ensures
        r is Some <==> version_update_needed(persisted_version@, extracted as int),
        match r {
            Some(v) => v == extracted,
            None => true,
        },
{
    let cur = parse_i32_or_default(persisted_version);
    if extracted > cur {
        Some(extracted)
    } else {
        None
    }
}

/// Version reconciliation is monotonic: a fresh version at or below
/// the persisted one never needs a write, and a strictly greater one
/// always needs exactly one.
pub proof fn lemma_version_monotonic(persisted: Seq<char>, extracted: int)
    ensures
        extracted <= parse_i32_or_zero(persisted) ==> !version_update_needed(persisted, extracted),
        extracted > parse_i32_or_zero(persisted) ==> version_update_needed(persisted, extracted),
{
}

} // verus!
