use tethys::flap::Cache;

fn entry_state(cache: &Cache, name: &str) -> (i32, u32) {
    for e in cache.entries.iter() {
        if e.name == name {
            return (e.status, e.attempt);
        }
    }
    panic!("no entry for {}", name);
}

#[test]
fn first_success_commits_up_immediately() {
    let mut cache = Cache::new();
    let d = cache.observe("srv", true);
    assert!(d.changed);
    assert!(d.committed_status);
    assert_eq!(entry_state(&cache, "srv"), (1, 0));
}

#[test]
fn up_after_four_failures_and_one_success() {
    // Persisted down with no pending attempts; probes fail four times
    // and succeed on the fifth: the fifth flips the status to up at
    // once, with exactly one write over the whole sequence.
    let mut cache = Cache::new();
    let mut writes = 0;
    for _ in 0..4 {
        let d = cache.observe("srv", false);
        if d.changed {
            writes += 1;
        }
        assert!(!d.committed_status);
    }
    let d = cache.observe("srv", true);
    if d.changed {
        writes += 1;
    }
    assert!(d.changed);
    assert!(d.committed_status);
    assert_eq!(writes, 1);
    assert_eq!(entry_state(&cache, "srv"), (1, 0));
}

#[test]
fn down_needs_five_consecutive_failures() {
    // Committed up with no pending attempts; five failing probes flip
    // the status only on the fifth, with exactly one write, and the
    // pending count is 4 immediately before the commit.
    let mut cache = Cache::new();
    cache.observe("srv", true);
    let mut writes = 0;
    for i in 1..=4 {
        let d = cache.observe("srv", false);
        if d.changed {
            writes += 1;
        }
        assert!(d.committed_status, "still up after {} failures", i);
        assert_eq!(entry_state(&cache, "srv"), (1, i));
    }
    assert_eq!(entry_state(&cache, "srv").1, 4);
    let d = cache.observe("srv", false);
    if d.changed {
        writes += 1;
    }
    assert!(d.changed);
    assert!(!d.committed_status);
    assert_eq!(writes, 1);
    assert_eq!(entry_state(&cache, "srv"), (0, 0));
}

#[test]
fn reobserving_committed_status_never_writes() {
    let mut cache = Cache::new();
    cache.observe("srv", true);
    for _ in 0..10 {
        let d = cache.observe("srv", true);
        assert!(!d.changed);
        assert!(d.committed_status);
        assert_eq!(entry_state(&cache, "srv"), (1, 0));
    }
    let mut other = Cache::new();
    for _ in 0..10 {
        let d = other.observe("down-srv", false);
        assert!(!d.changed);
        assert!(!d.committed_status);
        assert_eq!(entry_state(&other, "down-srv"), (0, 0));
    }
}

#[test]
fn agreeing_observation_resets_pending_count() {
    let mut cache = Cache::new();
    cache.observe("srv", true);
    cache.observe("srv", false);
    cache.observe("srv", false);
    assert_eq!(entry_state(&cache, "srv"), (1, 2));
    let d = cache.observe("srv", true);
    assert!(!d.changed);
    assert_eq!(entry_state(&cache, "srv"), (1, 0));
}

#[test]
fn servers_are_tracked_independently() {
    let mut cache = Cache::new();
    cache.observe("a", true);
    for _ in 0..5 {
        cache.observe("b", false);
    }
    assert_eq!(entry_state(&cache, "a"), (1, 0));
    assert_eq!(entry_state(&cache, "b"), (0, 0));
}

#[test]
fn init_server_creates_default_down_entry_once() {
    let mut cache = Cache::new();
    cache.init_server("srv");
    assert_eq!(entry_state(&cache, "srv"), (0, 0));
    cache.observe("srv", true);
    cache.init_server("srv");
    assert_eq!(entry_state(&cache, "srv"), (1, 0));
    assert_eq!(cache.entries.len(), 1);
}
