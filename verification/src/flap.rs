//! Flap-dampening status cache.
//!
//! A stream of raw per-probe booleans for a server is turned into a
//! debounced committed status. A recovery is committed on the first
//! reachable observation; an outage is committed only after
//! `MAX_RETRY` consecutive unreachable observations while the committed
//! status is up. Any observation that agrees with the committed status
//! resets the count of pending disagreeing attempts.

use vstd::prelude::*;
use crate::text::str_eq;

verus! {

/// Consecutive disagreeing observations needed before a down status is
/// committed.
pub const MAX_RETRY: u32 = 5;

/// The committed status and pending disagreement count for one server.
pub struct CacheEntry {
    /// Server identifier the entry belongs to.
    pub name: String,
    /// Last committed status: 1 for up, 0 for down.
    pub status: i32,
    /// Consecutive observations so far that disagree with `status`.
    pub attempt: u32,
}

/// Per-server flap-dampening state, keyed by server identifier.
/// Entries are created lazily on first observation, with a committed
/// status of down and no pending attempts.
pub struct Cache {
    /// One entry per server seen so far; names are unique.
    pub entries: Vec<CacheEntry>,
}

/// What one observation decided: whether a commit happened, and the
/// committed status after the observation.
pub struct CommitDecision {
    /// True exactly when this observation committed a status change,
    /// which is the signal to persist the new status.
    pub changed: bool,
    /// The committed status after this observation, true for up.
    pub committed_status: bool,
}

/// The numeric form of one raw probe result.
pub open spec fn spec_curr(reachable: bool) -> int {
    if reachable {
        1int
    } else {
        0int
    }
}

/// Whether an observation commits a status change: it must disagree
/// with the committed status, and either be a recovery (trusted at
/// once) or be the `MAX_RETRY`-th consecutive disagreement.
pub open spec fn spec_commits(status: int, attempt: int, reachable: bool) -> bool {
    spec_curr(reachable) != status && (attempt + 1 >= MAX_RETRY || reachable)
}

/// The committed status after an observation.
pub open spec fn spec_next_status(status: int, attempt: int, reachable: bool) -> int {
    if spec_commits(status, attempt, reachable) {
        spec_curr(reachable)
    } else {
        status
    }
}

/// The pending attempt count after an observation: it accumulates only
/// across consecutive disagreeing observations that do not commit.
pub open spec fn spec_next_attempt(status: int, attempt: int, reachable: bool) -> int {
    if spec_curr(reachable) == status {
        0int
    } else if spec_commits(status, attempt, reachable) {
        0int
    } else {
        attempt + 1
    }
}

/// A reachable per-server state: status is a boolean flag, the pending
/// count stays below `MAX_RETRY`, and pending disagreements only ever
/// accumulate while the committed status is up.
pub open spec fn valid_state(status: int, attempt: int) -> bool {
    &&& status == 0 || status == 1
    &&& 0 <= attempt < MAX_RETRY
    &&& attempt > 0 ==> status == 1
}

/// The first entry named `name`, where there is one.
pub open spec fn spec_find(entries: Seq<CacheEntry>, name: Seq<char>) -> Option<CacheEntry>
    decreases entries.len(),
{
    if entries.len() == 0 {
        None
    } else if entries[0].name@ == name {
        Some(entries[0])
    } else {
        spec_find(entries.drop_first(), name)
    }
}

impl Cache {
    /// Entry names are unique and every entry holds a reachable state.
    pub open spec fn wf(self) -> bool {
        &&& forall|i: int, j: int|
            0 <= i < j < self.entries@.len() ==> self.entries@[i].name@ != self.entries@[j].name@
        &&& forall|i: int|
            0 <= i < self.entries@.len() ==> valid_state(
                #[trigger] self.entries@[i].status as int,
                self.entries@[i].attempt as int,
            )
    }

    /// Whether the cache holds an entry for `name`.
    pub open spec fn has(self, name: Seq<char>) -> bool {
        spec_find(self.entries@, name) is Some
    }

    /// The committed status recorded for `name`; down where no entry
    /// exists yet.
    pub open spec fn status_of(self, name: Seq<char>) -> int {
        match spec_find(self.entries@, name) {
            Some(e) => e.status as int,
            None => 0,
        }
    }

    /// The pending attempt count recorded for `name`; zero where no
    /// entry exists yet.
    pub open spec fn attempt_of(self, name: Seq<char>) -> int {
        match spec_find(self.entries@, name) {
            Some(e) => e.attempt as int,
            None => 0,
        }
    }

    /// An empty cache, the state at process start.
    pub fn new() -> (r: Cache)
        ensures
            r.wf(),
            r.entries@.len() == 0,
    {
        Cache { entries: Vec::new() }
    }

    /// The index of the entry named `name`, where there is one.
    fn find_index(&self, name: &str) -> (r: Option<usize>)
        ensures
            match r {
                Some(i) => {
                    &&& i < self.entries@.len()
                    &&& self.entries@[i as int].name@ == name@
                    &&& spec_find(self.entries@, name@) == Some(self.entries@[i as int])
                },
                None => spec_find(self.entries@, name@) is None,
            },
    {
        let n = self.entries.len();
        let mut i: usize = 0;
        proof {
            assert(self.entries@.skip(0) =~= self.entries@);
        }
        while i < n
            invariant
                i <= n,
                n == self.entries@.len(),
                forall|j: int| 0 <= j < i ==> self.entries@[j].name@ != name@,
                spec_find(self.entries@, name@) == spec_find(self.entries@.skip(i as int), name@),
            decreases n - i,
        {
            if str_eq(self.entries[i].name.as_str(), name) {
                proof {
                    assert(self.entries@.skip(i as int)[0] == self.entries@[i as int]);
                }
                return Some(i);
            }
            proof {
                assert(self.entries@.skip(i as int)[0] == self.entries@[i as int]);
                assert(self.entries@.skip(i as int).drop_first() =~= self.entries@.skip(i + 1));
            }
            i += 1;
        }
        None
    }

    /// Make sure an entry exists for `name`; a server seen for the
    /// first time starts with a committed down status and no pending
    /// attempts. An existing entry is left untouched.
    pub fn init_server(&mut self, name: &str)
        requires
            old(self).wf(),
        ensures
            final(self).wf(),
            final(self).has(name@),
            final(self).status_of(name@) == old(self).status_of(name@),
            final(self).attempt_of(name@) == old(self).attempt_of(name@),
            forall|n: Seq<char>| n != name@ ==> final(self).has(n) == old(self).has(n),
            forall|n: Seq<char>|
                n != name@ ==> final(self).status_of(n) == old(self).status_of(n)
                    && final(self).attempt_of(n) == old(self).attempt_of(n),
    {
        let found = self.find_index(name);
        if found.is_none() {
            let entry = CacheEntry { name: name.to_owned(), status: 0, attempt: 0 };
            proof {
                lemma_find_push(self.entries@, entry, name@);
                assert forall|n: Seq<char>| n != name@ implies spec_find(
                    self.entries@.push(entry),
                    n,
                ) == spec_find(self.entries@, n) by {
                    lemma_find_push_other(self.entries@, entry, n);
                }
                assert forall|i: int, j: int|
                    0 <= i < j < self.entries@.push(entry).len() implies self.entries@.push(
                    entry,
                )[i].name@ != self.entries@.push(entry)[j].name@ by {
                    if j == self.entries@.len() {
                        lemma_find_absent(self.entries@, name@, i);
                    }
                }
            }
            self.entries.push(entry);
        }
    }

    /// Feed one raw probe result for `name` into the cache and decide
    /// whether a status commit happened.
    ///
    /// The committed status flips to up on the first reachable
    /// observation that disagrees, flips to down on the `MAX_RETRY`-th
    /// consecutive unreachable observation, and an agreeing observation
    /// only clears the pending count. The decision's `changed` flag is
    /// the caller's signal to persist the new status.
    pub fn observe(&mut self, name: &str, reachable: bool) -> (r: CommitDecision)
        requires
            old(self).wf(),
        ensures
            final(self).wf(),
            final(self).has(name@),
            final(self).status_of(name@) == spec_next_status(
                old(self).status_of(name@),
                old(self).attempt_of(name@),
                reachable,
            ),
            final(self).attempt_of(name@) == spec_next_attempt(
                old(self).status_of(name@),
                old(self).attempt_of(name@),
                reachable,
            ),
            r.changed == spec_commits(
                old(self).status_of(name@),
                old(self).attempt_of(name@),
                reachable,
            ),
            r.committed_status == (spec_next_status(
                old(self).status_of(name@),
                old(self).attempt_of(name@),
                reachable,
            ) == 1),
            forall|n: Seq<char>| n != name@ ==> final(self).has(n) == old(self).has(n),
            forall|n: Seq<char>|
                n != name@ ==> final(self).status_of(n) == old(self).status_of(n)
                    && final(self).attempt_of(n) == old(self).attempt_of(n),
    {
        self.init_server(name);
        let idx = match self.find_index(name) {
            Some(i) => i,
            None => {
                proof {
                    assert(false);
                }
                0
            },
        };
        let ghost pre = self.entries@;
        let prev_status = self.entries[idx].status;
        let prev_attempt = self.entries[idx].attempt;
        let curr_status: i32 = if reachable {
            1
        } else {
            0
        };
        let decision;
        if curr_status != prev_status {
            let new_attempt = prev_attempt + 1;
            if new_attempt >= MAX_RETRY || curr_status == 1 {
                self.entries[idx].status = curr_status;
                self.entries[idx].attempt = 0;
                decision = CommitDecision { changed: true, committed_status: curr_status == 1 };
            } else {
                self.entries[idx].attempt = new_attempt;
                decision = CommitDecision { changed: false, committed_status: prev_status == 1 };
            }
        } else {
            self.entries[idx].attempt = 0;
            decision = CommitDecision { changed: false, committed_status: prev_status == 1 };
        }
        proof {
            lemma_find_update(pre, self.entries@, idx as int, name@);
        }
        decision
    }
}

/// After pushing an entry named `name` onto entries without one,
/// lookup of `name` finds the new entry.
proof fn lemma_find_push(entries: Seq<CacheEntry>, entry: CacheEntry, name: Seq<char>)
    requires
        spec_find(entries, name) is None,
        entry.name@ == name,
    ensures
        spec_find(entries.push(entry), name) == Some(entry),
    decreases entries.len(),
{
    if entries.len() == 0 {
        assert(entries.push(entry)[0] == entry);
    } else {
        assert(entries.push(entry)[0] == entries[0]);
        assert(entries.push(entry).drop_first() =~= entries.drop_first().push(entry));
        lemma_find_push(entries.drop_first(), entry, name);
    }
}

/// Pushing an entry with a different name leaves lookup unchanged.
proof fn lemma_find_push_other(entries: Seq<CacheEntry>, entry: CacheEntry, n: Seq<char>)
    requires
        entry.name@ != n,
    ensures
        spec_find(entries.push(entry), n) == spec_find(entries, n),
    decreases entries.len(),
{
    if entries.len() == 0 {
        assert(entries.push(entry)[0] == entry);
        assert(entries.push(entry).drop_first() =~= Seq::<CacheEntry>::empty());
        assert(spec_find(entries.push(entry), n) == spec_find(
            entries.push(entry).drop_first(),
            n,
        ));
        assert(spec_find(Seq::<CacheEntry>::empty(), n) is None);
    } else {
        assert(entries.push(entry)[0] == entries[0]);
        assert(entries.push(entry).drop_first() =~= entries.drop_first().push(entry));
        lemma_find_push_other(entries.drop_first(), entry, n);
    }
}

/// Where lookup of `name` fails, no position holds that name.
proof fn lemma_find_absent(entries: Seq<CacheEntry>, name: Seq<char>, i: int)
    requires
        spec_find(entries, name) is None,
        0 <= i < entries.len(),
    ensures
        entries[i].name@ != name,
    decreases entries.len(),
{
    if i > 0 {
        lemma_find_absent(entries.drop_first(), name, i - 1);
    }
}

/// Where position `i` holds the first entry named `name`, updating that
/// position in place moves lookup of `name` to the new entry and leaves
/// every other name's lookup unchanged.
proof fn lemma_find_update(pre: Seq<CacheEntry>, post: Seq<CacheEntry>, i: int, name: Seq<char>)
    requires
        0 <= i < pre.len(),
        post.len() == pre.len(),
        pre[i].name@ == name,
        post[i].name@ == name,
        forall|j: int| 0 <= j < pre.len() && j != i ==> post[j] == pre[j],
        forall|j: int| 0 <= j < i ==> pre[j].name@ != name,
    ensures
        spec_find(post, name) == Some(post[i]),
        forall|n: Seq<char>| n != name ==> spec_find(post, n) == spec_find(pre, n),
    decreases i,
{
    if i == 0 {
        assert forall|n: Seq<char>| n != name implies spec_find(post, n) == spec_find(pre, n) by {
            assert(post.drop_first() =~= pre.drop_first());
        }
    } else {
        assert(post[0] == pre[0]);
        lemma_find_update(pre.drop_first(), post.drop_first(), i - 1, name);
        assert(post.drop_first()[i - 1] == post[i]);
        assert forall|n: Seq<char>| n != name implies spec_find(post, n) == spec_find(pre, n) by {
            if post[0].name@ != n {
                assert(spec_find(post, n) == spec_find(post.drop_first(), n));
                assert(spec_find(pre, n) == spec_find(pre.drop_first(), n));
            }
        }
    }
}

} // verus!

verus! {

/// The per-server state after a whole sequence of observations,
/// starting from committed status `status` and pending count `attempt`.
pub open spec fn spec_run(status: int, attempt: int, obs: Seq<bool>) -> (int, int)
    decreases obs.len(),
{
    if obs.len() == 0 {
        (status, attempt)
    } else {
        spec_run(
            spec_next_status(status, attempt, obs[0]),
            spec_next_attempt(status, attempt, obs[0]),
            obs.drop_first(),
        )
    }
}

/// How many observations of the sequence commit a status change, and so
/// trigger a persistence write.
pub open spec fn spec_commit_count(status: int, attempt: int, obs: Seq<bool>) -> int
    decreases obs.len(),
{
    if obs.len() == 0 {
        0int
    } else {
        (if spec_commits(status, attempt, obs[0]) {
            1int
        } else {
            0int
        }) + spec_commit_count(
            spec_next_status(status, attempt, obs[0]),
            spec_next_attempt(status, attempt, obs[0]),
            obs.drop_first(),
        )
    }
}

/// One observation keeps the state reachable.
pub proof fn lemma_step_preserves_valid(status: int, attempt: int, reachable: bool)
    requires
        valid_state(status, attempt),
    ensures
        valid_state(
            spec_next_status(status, attempt, reachable),
            spec_next_attempt(status, attempt, reachable),
        ),
{
}

/// From any reachable committed-down state, the very first reachable
/// observation commits an up status at once, with one write.
pub proof fn lemma_up_on_first_success(status: int, attempt: int)
    requires
        valid_state(status, attempt),
        status == 0,
    ensures
        spec_commits(status, attempt, true),
        spec_next_status(status, attempt, true) == 1,
        spec_next_attempt(status, attempt, true) == 0,
{
}

/// While committed up with `attempt` pending failures, a run of further
/// consecutive unreachable observations commits a down status exactly
/// when the pending count reaches `MAX_RETRY`, with a single write;
/// any shorter run leaves the committed status up and only accumulates
/// the pending count.
pub proof fn lemma_down_needs_max_retry(status: int, attempt: int, obs: Seq<bool>)
    requires
        status == 1,
        0 <= attempt,
        attempt + obs.len() <= MAX_RETRY,
        forall|i: int| 0 <= i < obs.len() ==> !obs[i],
    ensures
        spec_run(status, attempt, obs) == (if attempt + obs.len() == MAX_RETRY && obs.len() > 0 {
            (0int, 0int)
        } else {
            (1int, attempt + obs.len())
        }),
        spec_commit_count(status, attempt, obs) == (if attempt + obs.len() == MAX_RETRY
            && obs.len() > 0 {
            1int
        } else {
            0int
        }),
    decreases obs.len(),
{
    if obs.len() > 0 {
        assert(!obs[0]);
        if attempt + 1 == MAX_RETRY {
            assert(spec_commits(status, attempt, false));
            lemma_all_matching_keeps_state(0, 0, obs.drop_first());
        } else {
            assert(!spec_commits(status, attempt, false));
            lemma_down_needs_max_retry(status, attempt + 1, obs.drop_first());
        }
    }
}

/// Re-observing the committed status any number of times never commits
/// and leaves the pending count at zero.
pub proof fn lemma_all_matching_keeps_state(status: int, attempt: int, obs: Seq<bool>)
    requires
        status == 0 || status == 1,
        0 <= attempt,
        forall|i: int| 0 <= i < obs.len() ==> spec_curr(obs[i]) == status,
    ensures
        spec_run(status, attempt, obs) == (status, if obs.len() == 0 {
            attempt
        } else {
            0int
        }),
        spec_commit_count(status, attempt, obs) == 0,
    decreases obs.len(),
{
    if obs.len() > 0 {
        assert(spec_curr(obs[0]) == status);
        assert(!spec_commits(status, attempt, obs[0]));
        lemma_all_matching_keeps_state(status, 0, obs.drop_first());
    }
}

} // verus!

verus! {

/// A whole sequence of observations keeps the state reachable.
pub proof fn lemma_run_preserves_valid(status: int, attempt: int, obs: Seq<bool>)
    requires
        valid_state(status, attempt),
    ensures
        valid_state(spec_run(status, attempt, obs).0, spec_run(status, attempt, obs).1),
    decreases obs.len(),
{
    if obs.len() > 0 {
        lemma_step_preserves_valid(status, attempt, obs[0]);
        lemma_run_preserves_valid(
            spec_next_status(status, attempt, obs[0]),
            spec_next_attempt(status, attempt, obs[0]),
            obs.drop_first(),
        );
    }
}

/// Whatever history left a server committed down, the very first
/// reachable observation after it commits an up status at once.
pub proof fn lemma_recovery_after_any_history(status: int, attempt: int, obs: Seq<bool>)
    requires
        valid_state(status, attempt),
        spec_run(status, attempt, obs).0 == 0,
    ensures
        spec_commits(spec_run(status, attempt, obs).0, spec_run(status, attempt, obs).1, true),
        spec_next_status(
            spec_run(status, attempt, obs).0,
            spec_run(status, attempt, obs).1,
            true,
        ) == 1,
{
    lemma_run_preserves_valid(status, attempt, obs);
    lemma_up_on_first_success(spec_run(status, attempt, obs).0, spec_run(status, attempt, obs).1);
}

} // verus!
