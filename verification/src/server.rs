//! The server record the cycles work on, and the hotfix-hash lookups
//! kept on it.
//!
//! A record is a snapshot of what the persistence collaborator stores:
//! identifiers, the current version string, the persisted status flag,
//! the parsed configuration blob, and the list of hotfix hashes. The
//! hash list can be read by exact version string or ranked by the
//! numeric version key, highest first.

use vstd::prelude::*;
use vstd::multiset::Multiset;
use crate::version::{spec_version_key, version_to_int};
use crate::text::str_eq;

verus! {

/// One hotfix hash entry: a version string and the hash published for
/// it.
#[derive(Clone)]
pub struct ConfigHash {
    /// The version the hash belongs to.
    pub version: String,
    /// The hash value itself.
    pub hash: String,
}

/// The configuration blob persisted for a game: the login addresses
/// probed by the probe cycle and the manifest location fetched by the
/// reconcile cycle.
pub struct DnGameConfig {
    /// Login addresses as `host:port` strings.
    pub ip: Vec<String>,
    /// Where the patch manifest is fetched from.
    pub patch_config_list: String,
}

/// A snapshot of one persisted server record.
pub struct GameServer {
    /// Row identifier.
    pub id: i64,
    /// The game the server belongs to.
    pub game: String,
    /// Unique short identifier, the key status updates are written by.
    pub short_name: String,
    /// Display name.
    pub long_name: String,
    /// Current version, as a decimal string.
    pub version: String,
    /// A pre-release version, where one is tracked.
    pub pre_version: Option<String>,
    /// Persisted status flag: 1 for up, 0 for down.
    pub server: i32,
    /// The parsed configuration blob.
    pub configuration: DnGameConfig,
    /// Hotfix hashes known for this server.
    pub hotfix_hash: Vec<ConfigHash>,
}

/// The numeric key a hash entry is ranked by.
pub open spec fn hash_key(h: ConfigHash) -> int {
    spec_version_key(h.version@)
}

/// The entries a list of borrowed hash entries points at.
pub open spec fn derefs(hs: Seq<&ConfigHash>) -> Seq<ConfigHash> {
    hs.map_values(|h: &ConfigHash| *h)
}

/// The position of the first entry with exactly the version `v`.
pub open spec fn find_version(hs: Seq<ConfigHash>, v: Seq<char>) -> Option<int>
    decreases hs.len(),
{
    if hs.len() == 0 {
        None
    } else if hs[0].version@ == v {
        Some(0int)
    } else {
        match find_version(hs.drop_first(), v) {
            Some(i) => Some(i + 1),
            None => None,
        }
    }
}

impl GameServer {
    /// The hash entries ranked by their numeric version key, highest
    /// first: a reordering of the stored list.
    fn sorted(&self) -> (r: Vec<&ConfigHash>)
        ensures
            derefs(r@).to_multiset() == self.hotfix_hash@.to_multiset(),
            forall|p: int, q: int|
                0 <= p < q < r@.len() ==> hash_key(#[trigger] derefs(r@)[p]) >= hash_key(
                    #[trigger] derefs(r@)[q],
                ),
    {
        let mut r: Vec<&ConfigHash> = Vec::new();
        let n = self.hotfix_hash.len();
        let mut i: usize = 0;
        proof {
            broadcast use vstd::seq_lib::group_to_multiset_ensures;

            assert(derefs(r@) =~= Seq::<ConfigHash>::empty());
            assert(self.hotfix_hash@.subrange(0, 0) =~= Seq::<ConfigHash>::empty());
            assert(derefs(r@).to_multiset() =~= self.hotfix_hash@.subrange(0, 0).to_multiset());
        }
        while i < n
            invariant
                i <= n,
                n == self.hotfix_hash@.len(),
                derefs(r@).to_multiset() == self.hotfix_hash@.subrange(0, i as int).to_multiset(),
                forall|p: int, q: int|
                    0 <= p < q < r@.len() ==> hash_key(#[trigger] derefs(r@)[p]) >= hash_key(
                        #[trigger] derefs(r@)[q],
                    ),
            decreases n - i,
        {
            let x = &self.hotfix_hash[i];
            let kx = version_to_int(x.version.as_str());
            let mut j: usize = 0;
            while j < r.len() && version_to_int(r[j].version.as_str()) >= kx
                invariant
                    j <= r@.len(),
                    kx as int == hash_key(*x),
                    forall|m: int| 0 <= m < j ==> hash_key(#[trigger] derefs(r@)[m]) >= kx,
                decreases r@.len() - j,
            {
                proof {
                    assert(derefs(r@)[j as int] == *r@[j as int]);
                }
                j += 1;
            }
            proof {
                broadcast use vstd::seq_lib::group_to_multiset_ensures;
                broadcast use vstd::seq_lib::lemma_multiset_commutative;

                let ov = derefs(r@);
                let nv = derefs(r@.insert(j as int, x));
                assert(nv =~= ov.subrange(0, j as int) + seq![*x] + ov.subrange(
                    j as int,
                    ov.len() as int,
                ));
                assert(ov =~= ov.subrange(0, j as int) + ov.subrange(j as int, ov.len() as int));
                assert(nv.to_multiset() =~= ov.to_multiset().insert(*x)) by {
                    let pre = ov.subrange(0, j as int);
                    let post = ov.subrange(j as int, ov.len() as int);
                    assert((pre + seq![*x] + post).to_multiset() =~= pre.to_multiset().add(
                        seq![*x].to_multiset(),
                    ).add(post.to_multiset())) by {
                        assert(pre + seq![*x] + post =~= (pre + seq![*x]) + post);
                    }
                    assert(seq![*x].to_multiset() =~= Multiset::<ConfigHash>::empty().insert(
                        *x,
                    )) by {
                        assert(seq![*x] =~= Seq::<ConfigHash>::empty().push(*x));
                    }
                }
                if j < ov.len() {
                    assert(derefs(r@)[j as int] == *r@[j as int]);
                    assert(hash_key(ov[j as int]) < kx);
                }
                assert(forall|p: int, q: int|
                    0 <= p < q < nv.len() ==> hash_key(#[trigger] nv[p]) >= hash_key(
                        #[trigger] nv[q],
                    )) by {
                    assert forall|p: int, q: int| 0 <= p < q < nv.len() implies hash_key(
                        #[trigger] nv[p],
                    ) >= hash_key(#[trigger] nv[q]) by {
                        if q < j {
                        } else if p > j {
                            assert(nv[p] == ov[p - 1]);
                            assert(nv[q] == ov[q - 1]);
                        } else if p == j && q > j {
                            assert(nv[q] == ov[q - 1]);
                        } else if q == j {
                            assert(nv[p] == ov[p]);
                        } else if p < j && q > j {
                            assert(nv[p] == ov[p]);
                            assert(nv[q] == ov[q - 1]);
                        }
                    }
                }
                let cur = self.hotfix_hash@.subrange(0, i as int);
                let nxt = self.hotfix_hash@.subrange(0, i + 1);
                assert(nxt =~= cur.push(self.hotfix_hash@[i as int]));
                assert(nxt.to_multiset() =~= cur.to_multiset().insert(
                    self.hotfix_hash@[i as int],
                ));
            }
            r.insert(j, x);
            i += 1;
        }
        proof {
            assert(self.hotfix_hash@.subrange(0, n as int) =~= self.hotfix_hash@);
        }
        r
    }

    /// The first hash entry recorded for exactly the version `version`,
    /// where one exists.
    pub fn get_hash_by_version(&self, version: &str) -> (r: Option<&ConfigHash>)
        ensures
            match r {
                Some(h) => {
                    &&& find_version(self.hotfix_hash@, version@) is Some
                    &&& *h == self.hotfix_hash@[find_version(self.hotfix_hash@, version@)->Some_0]
                },
                None => find_version(self.hotfix_hash@, version@) is None,
            },
    {
        let n = self.hotfix_hash.len();
        let mut i: usize = 0;
        proof {
            assert(self.hotfix_hash@.skip(0) =~= self.hotfix_hash@);
        }
        while i < n
            invariant
                i <= n,
                n == self.hotfix_hash@.len(),
                forall|m: int| 0 <= m < i ==> self.hotfix_hash@[m].version@ != version@,
                match find_version(self.hotfix_hash@, version@) {
                    Some(k) => find_version(self.hotfix_hash@.skip(i as int), version@) == Some(
                        k - i,
                    ),
                    None => find_version(self.hotfix_hash@.skip(i as int), version@) is None,
                },
            decreases n - i,
        {
            proof {
                assert(self.hotfix_hash@.skip(i as int)[0] == self.hotfix_hash@[i as int]);
                assert(self.hotfix_hash@.skip(i as int).drop_first() =~= self.hotfix_hash@.skip(
                    i + 1,
                ));
            }
            if str_eq(self.hotfix_hash[i].version.as_str(), version) {
                return Some(&self.hotfix_hash[i]);
            }
            i += 1;
        }
        proof {
            assert(self.hotfix_hash@.skip(n as int) =~= Seq::<ConfigHash>::empty());
        }
        None
    }

    /// The hash entry ranked at `index`, highest numeric version key
    /// first; `None` past the end of the list.
    pub fn get_hash_by_index(&self, index: usize) -> (r: Option<&ConfigHash>)
        ensures
            r is Some <==> index < self.hotfix_hash@.len(),
            match r {
                Some(h) => self.hotfix_hash@.to_multiset().contains(*h),
                None => true,
            },
    {
        let configs = self.sorted();
        proof {
            broadcast use vstd::seq_lib::group_to_multiset_ensures;

            assert(derefs(configs@).len() == configs@.len());
            assert(derefs(configs@).to_multiset().len() == derefs(configs@).len());
            assert(self.hotfix_hash@.to_multiset().len() == self.hotfix_hash@.len());
            assert(configs@.len() == self.hotfix_hash@.len());
            if index < configs@.len() {
                assert(derefs(configs@).to_multiset().contains(derefs(configs@)[index as int]));
                assert(derefs(configs@)[index as int] == *configs@[index as int]);
            }
        }
        if index < configs.len() {
            Some(configs[index])
        } else {
            None
        }
    }

    /// The hash entry with the highest numeric version key, where the
    /// list is not empty.
    pub fn get_latest_hash(&self) -> (r: Option<&ConfigHash>)
        ensures
            r is Some <==> self.hotfix_hash@.len() > 0,
            match r {
                Some(h) => self.hotfix_hash@.to_multiset().contains(*h),
                None => true,
            },
    {
        self.get_hash_by_index(0)
    }

    /// Every hash entry, ranked by numeric version key, highest first.
    pub fn get_all_hash(&self) -> (r: Vec<&ConfigHash>)
        ensures
            derefs(r@).to_multiset() == self.hotfix_hash@.to_multiset(),
            forall|p: int, q: int|
                0 <= p < q < r@.len() ==> hash_key(#[trigger] derefs(r@)[p]) >= hash_key(
                    #[trigger] derefs(r@)[q],
                ),
    {
        self.sorted()
    }
}

} // verus!
