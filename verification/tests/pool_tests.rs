use visualoc_core::errors::Error;
use visualoc_core::pool::PoolRegistry;

#[test]
fn racing_first_acquires_converge_on_one_handle() {
    let mut reg = PoolRegistry::new();
    let tenant = "tenant-a".to_string();
    // two tasks each miss, construct a candidate pool, and install
    assert_eq!(reg.acquire_hit(&tenant, 1), None);
    assert_eq!(reg.acquire_hit(&tenant, 1), None);
    let w1 = reg.install_pool(tenant.clone(), 101, 2);
    let w2 = reg.install_pool(tenant.clone(), 202, 3);
    assert_eq!(w1, 101);
    assert_eq!(w2, 101);
    assert_eq!(reg.len(), 1);
    assert_eq!(reg.acquire_hit(&tenant, 4), Some(101));
}

#[test]
fn distinct_tenants_get_distinct_entries() {
    let mut reg = PoolRegistry::new();
    let a = reg.install_pool("a".to_string(), 1, 0);
    let b = reg.install_pool("b".to_string(), 2, 0);
    assert_eq!((a, b), (1, 2));
    assert_eq!(reg.len(), 2);
}

#[test]
fn borrowed_connection_survives_forced_sweep() {
    let mut reg = PoolRegistry::new();
    let tenant = "t".to_string();
    reg.install_pool(tenant.clone(), 7, 0);
    reg.borrow_conn(&tenant).unwrap();
    // a tick far past the idle threshold
    let evicted = reg.sweep(1_000_000, 10);
    assert!(evicted.is_empty());
    assert_eq!(reg.acquire_hit(&tenant, 1_000_001), Some(7));
}

#[test]
fn released_idle_entry_is_evicted() {
    let mut reg = PoolRegistry::new();
    let tenant = "t".to_string();
    reg.install_pool(tenant.clone(), 7, 0);
    reg.borrow_conn(&tenant).unwrap();
    reg.release_conn(&tenant).unwrap();
    let evicted = reg.sweep(1_000_000, 10);
    assert_eq!(evicted, vec![7]);
    assert_eq!(reg.acquire_hit(&tenant, 1_000_001), None);
}

#[test]
fn fresh_entry_is_not_evicted() {
    let mut reg = PoolRegistry::new();
    reg.install_pool("t".to_string(), 7, 100);
    let evicted = reg.sweep(105, 10);
    assert!(evicted.is_empty());
}

#[test]
fn restore_pin_blocks_eviction_and_is_single_flight() {
    let mut reg = PoolRegistry::new();
    let tenant = "t".to_string();
    reg.install_pool(tenant.clone(), 7, 0);
    reg.pin_restore(&tenant).unwrap();
    assert_eq!(reg.pin_restore(&tenant), Err(Error::Conflict));
    let evicted = reg.sweep(1_000_000, 10);
    assert!(evicted.is_empty());
    reg.unpin_restore(&tenant).unwrap();
    let evicted2 = reg.sweep(1_000_000, 10);
    assert_eq!(evicted2, vec![7]);
}

#[test]
fn pool_ops_on_unknown_tenant_are_not_found() {
    let mut reg = PoolRegistry::new();
    let ghost = "nobody".to_string();
    assert_eq!(reg.borrow_conn(&ghost), Err(Error::NotFound));
    assert_eq!(reg.release_conn(&ghost), Err(Error::NotFound));
    assert_eq!(reg.pin_restore(&ghost), Err(Error::NotFound));
    assert_eq!(reg.unpin_restore(&ghost), Err(Error::NotFound));
}
