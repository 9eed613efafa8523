use tethys::reconcile::{addresses_equal, reconcile_addresses, reconcile_version, sort_addresses};

fn strs(xs: &[&str]) -> Vec<String> {
    xs.iter().map(|s| s.to_string()).collect()
}

#[test]
fn same_set_in_different_order_writes_nothing() {
    // The manifest lists the same addresses the record holds, in
    // another order: no configuration write.
    let extracted = strs(&["10.0.0.2:100", "10.0.0.1:200"]);
    let persisted = strs(&["10.0.0.1:200", "10.0.0.2:100"]);
    assert!(reconcile_addresses(&persisted, &extracted).is_none());
}

#[test]
fn changed_address_list_writes_sorted_fresh_list() {
    let persisted = strs(&["10.0.0.1:200"]);
    let extracted = strs(&["10.0.0.2:100", "10.0.0.1:200"]);
    let upd = reconcile_addresses(&persisted, &extracted).expect("update expected");
    assert_eq!(upd, strs(&["10.0.0.1:200", "10.0.0.2:100"]));
}

#[test]
fn equal_lists_write_nothing() {
    let a = strs(&["a:1", "b:2"]);
    assert!(reconcile_addresses(&a, &a.clone()).is_none());
}

#[test]
fn sort_addresses_orders_lexicographically() {
    let v = strs(&["b:2", "a:10", "a:1", "b:2"]);
    assert_eq!(sort_addresses(&v), strs(&["a:1", "a:10", "b:2", "b:2"]));
}

#[test]
fn addresses_equal_compares_entrywise() {
    assert!(addresses_equal(&strs(&["x:1"]), &strs(&["x:1"])));
    assert!(!addresses_equal(&strs(&["x:1"]), &strs(&["x:2"])));
    assert!(!addresses_equal(&strs(&["x:1"]), &strs(&["x:1", "y:2"])));
}

#[test]
fn greater_version_writes_exactly_its_value() {
    assert_eq!(reconcile_version("41", 42), Some(42));
}

#[test]
fn equal_or_lower_version_never_writes() {
    assert!(reconcile_version("41", 41).is_none());
    assert!(reconcile_version("41", 40).is_none());
    assert!(reconcile_version("41", 0).is_none());
}

#[test]
fn unparsable_persisted_version_counts_as_zero() {
    assert_eq!(reconcile_version("not-a-number", 1), Some(1));
    assert!(reconcile_version("not-a-number", 0).is_none());
    assert_eq!(reconcile_version("", 3), Some(3));
}
