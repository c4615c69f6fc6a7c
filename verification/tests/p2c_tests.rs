use etcd_p2c::addr::Address;
use etcd_p2c::p2c::{InstancePicker, P2c, SubConn, FORCE_PICK_MILLIS};
use etcd_p2c::registry::{Entry, EventKind, Instance, RegistryEvent, Watcher};

fn inst(a: u8, port: u16) -> Instance {
    Instance { address: Address { a, b: 0, c: 0, d: 1, port }, weight: 1, tags: Vec::new() }
}

fn conn(key: &str, lag: u64, inflight: i64, pick: i64, a: u8, port: u16) -> SubConn {
    SubConn {
        key: key.to_string(),
        lag,
        inflight,
        success: 0,
        requests: 0,
        last: 0,
        pick,
        instance: inst(a, port),
    }
}

#[test]
fn idle_load_is_one_not_zero() {
    let c = conn("a", 0, 0, 0, 1, 80);
    assert_eq!(c.load(), 1);
}

#[test]
fn load_is_ceil_sqrt_times_inflight() {
    // ceil(sqrt(3 + 1)) * (1 + 1) = 2 * 2 = 4
    assert_eq!(conn("a", 3, 1, 0, 1, 80).load(), 4);
    // ceil(sqrt(8 + 1)) * (2 + 1) = 3 * 3 = 9
    assert_eq!(conn("b", 8, 2, 0, 1, 81).load(), 9);
    // ceil rounds up between squares: ceil(sqrt(5)) = 3
    assert_eq!(conn("c", 4, 0, 0, 1, 82).load(), 3);
}

#[test]
fn healthy_needs_more_than_half_the_budget() {
    let mut c = conn("a", 0, 0, 0, 1, 80);
    c.success = 500;
    assert!(!c.healthy());
    c.success = 501;
    assert!(c.healthy());
}

#[test]
fn counter_hooks() {
    let mut c = conn("a", 0, 0, 0, 1, 80);
    c.record_dispatch();
    assert_eq!(c.inflight, 1);
    assert_eq!(c.requests, 1);
    c.record_completion(42, true);
    assert_eq!(c.lag, 42);
    assert_eq!(c.inflight, 0);
    assert_eq!(c.success, 1);
    c.record_completion(7, false);
    assert_eq!(c.inflight, 0);
    assert_eq!(c.success, 1);
}

#[test]
fn empty_picker_draws_nothing() {
    let mut p = InstancePicker::new(Vec::new());
    assert_eq!(p.next_at(5000), None);
    assert_eq!(p.next(), None);
}

#[test]
fn single_candidate_is_taken_unconditionally() {
    let mut p = InstancePicker::new(vec![conn("a", 100, 50, 5000, 3, 80)]);
    let got = p.next_at(5000);
    assert_eq!(got, Some(Address { a: 3, b: 0, c: 0, d: 1, port: 80 }));
    assert_eq!(p.conns[0].last, 5000);
}

#[test]
fn lower_load_candidate_wins() {
    // loads 4 and 9, neither force-pick-eligible
    let now: i64 = 5000;
    let c_low = conn("low", 3, 1, now, 1, 80);
    let c_high = conn("high", 8, 2, now, 2, 81);
    let mut p = InstancePicker::new(vec![c_low.clone(), c_high.clone()]);
    assert_eq!(p.next_at(now), Some(Address { a: 1, b: 0, c: 0, d: 1, port: 80 }));
    // and the same pair supplied the other way round
    let mut q = InstancePicker::new(vec![c_high, c_low]);
    assert_eq!(q.next_at(now), Some(Address { a: 1, b: 0, c: 0, d: 1, port: 80 }));
}

#[test]
fn starved_candidate_is_forced() {
    // the higher-load candidate has not been force-picked for longer
    // than the interval, so it wins regardless of load
    let now: i64 = 10_000;
    let fresh_pick = now - FORCE_PICK_MILLIS;
    let stale_pick = now - FORCE_PICK_MILLIS - 1;
    let low = conn("low", 3, 1, fresh_pick, 1, 80);
    let high = conn("high", 8, 2, stale_pick, 2, 81);
    let mut p = InstancePicker::new(vec![low, high]);
    assert_eq!(p.next_at(now), Some(Address { a: 2, b: 0, c: 0, d: 1, port: 81 }));
    // its force-pick slot was claimed
    assert_eq!(p.conns[1].pick, now);
    // a second draw at the same instant goes back to the low-load one
    assert_eq!(p.next_at(now), Some(Address { a: 1, b: 0, c: 0, d: 1, port: 80 }));
}

#[test]
fn pool_initialises_lazily_and_rebalances() {
    let mut w = Watcher::new("svc".to_string());
    let _ = w.apply_batch(&vec![
        RegistryEvent {
            kind: EventKind::Put,
            key: "k1".to_string(),
            value: b"1.0.0.1:80".to_vec(),
        },
        RegistryEvent {
            kind: EventKind::Put,
            key: "k2".to_string(),
            value: b"2.0.0.1:81".to_vec(),
        },
    ]);
    let membership = w.baseline_change().all;

    let mut lb = P2c::new();
    let key = "svc".to_string();
    let p = lb.get_picker(&key, &membership);
    assert_eq!(p.conns.len(), 2);
    assert_eq!(p.conns[0].key, "k1");
    assert_eq!(p.conns[1].key, "k2");
    assert_eq!(p.conns[0].inflight, 0);

    // a later change removes k1, updates k2, adds k3
    let change = w.apply_batch(&vec![
        RegistryEvent { kind: EventKind::Delete, key: "k1".to_string(), value: Vec::new() },
        RegistryEvent {
            kind: EventKind::Put,
            key: "k2".to_string(),
            value: b"9.0.0.1:99".to_vec(),
        },
        RegistryEvent {
            kind: EventKind::Put,
            key: "k3".to_string(),
            value: b"3.0.0.1:82".to_vec(),
        },
    ]);
    lb.rebalance(&change);

    let q = lb.get_picker(&key, &membership);
    assert_eq!(q.conns.len(), 2);
    assert_eq!(q.conns[0].key, "k2");
    assert_eq!(q.conns[0].instance.address, Address { a: 9, b: 0, c: 0, d: 1, port: 99 });
    assert_eq!(q.conns[1].key, "k3");
    assert_eq!(q.conns[1].instance.address, Address { a: 3, b: 0, c: 0, d: 1, port: 82 });
}

#[test]
fn pick_stamps_persist_in_pool() {
    let mut w = Watcher::new("svc".to_string());
    let _ = w.apply_batch(&vec![
        RegistryEvent {
            kind: EventKind::Put,
            key: "k1".to_string(),
            value: b"1.0.0.1:80".to_vec(),
        },
        RegistryEvent {
            kind: EventKind::Put,
            key: "k2".to_string(),
            value: b"2.0.0.1:81".to_vec(),
        },
    ]);
    let membership = w.baseline_change().all;
    let mut lb = P2c::new();
    let key = "svc".to_string();
    let _ = lb.get_picker(&key, &membership);

    // both records are fresh, so the first draw force-picks the
    // higher-load (here: second) candidate and claims its slot
    let first = lb.pick(&key, 5000);
    assert_eq!(first, Some(Address { a: 2, b: 0, c: 0, d: 1, port: 81 }));
    let p = lb.get_picker(&key, &membership);
    assert_eq!(p.conns[1].pick, 5000);
    assert_eq!(p.conns[1].last, 5000);
    assert_eq!(p.conns[0].pick, 0);

    // the next draw force-picks the other still-starved record
    let second = lb.pick(&key, 5000);
    assert_eq!(second, Some(Address { a: 1, b: 0, c: 0, d: 1, port: 80 }));
    let q = lb.get_picker(&key, &membership);
    assert_eq!(q.conns[0].pick, 5000);

    // within the interval no slot is claimable again: ties go to the
    // first of the pair, and the stored stamps make that visible
    let third = lb.pick(&key, 5500);
    assert_eq!(third, Some(Address { a: 1, b: 0, c: 0, d: 1, port: 80 }));
    let r = lb.get_picker(&key, &membership);
    assert_eq!(r.conns[0].pick, 5000);
    assert_eq!(r.conns[1].pick, 5000);
}

#[test]
fn dispatch_and_complete_update_stored_records() {
    let mut w = Watcher::new("svc".to_string());
    let _ = w.apply_batch(&vec![
        RegistryEvent {
            kind: EventKind::Put,
            key: "k1".to_string(),
            value: b"1.0.0.1:80".to_vec(),
        },
        RegistryEvent {
            kind: EventKind::Put,
            key: "k2".to_string(),
            value: b"2.0.0.1:81".to_vec(),
        },
    ]);
    let membership = w.baseline_change().all;
    let mut lb = P2c::new();
    let key = "svc".to_string();
    let _ = lb.get_picker(&key, &membership);

    let k1 = "k1".to_string();
    lb.dispatch(&key, &k1);
    let p = lb.get_picker(&key, &membership);
    assert_eq!(p.conns[0].inflight, 1);
    assert_eq!(p.conns[0].requests, 1);

    lb.complete(&key, &k1, 42, true);
    let q = lb.get_picker(&key, &membership);
    assert_eq!(q.conns[0].lag, 42);
    assert_eq!(q.conns[0].inflight, 0);
    assert_eq!(q.conns[0].success, 1);

    // an unknown member leaves the pool alone
    let ghost = "nope".to_string();
    lb.dispatch(&key, &ghost);
    let r = lb.get_picker(&key, &membership);
    assert_eq!(r.conns[0].requests, 1);
    assert_eq!(r.conns[1].requests, 0);

    // the recorded lag now steers selection towards the idle record,
    // with neither force-pick slot claimable at this instant
    let got = lb.pick(&key, 1000);
    assert_eq!(got, Some(Address { a: 2, b: 0, c: 0, d: 1, port: 81 }));
}

#[test]
fn pick_on_absent_key_is_none() {
    let mut lb = P2c::new();
    let key = "svc".to_string();
    assert_eq!(lb.pick(&key, 5000), None);
}

#[test]
fn rebalance_without_pool_entry_is_a_no_op() {
    let mut w = Watcher::new("svc".to_string());
    let change = w.apply_batch(&vec![RegistryEvent {
        kind: EventKind::Put,
        key: "k1".to_string(),
        value: b"1.0.0.1:80".to_vec(),
    }]);
    let mut lb = P2c::new();
    lb.rebalance(&change);
    // the pool only fills on first use
    let key = "svc".to_string();
    let p = lb.get_picker(&key, &Vec::new());
    assert_eq!(p.conns.len(), 0);
}

#[test]
fn empty_pool_draw_is_empty() {
    let mut lb = P2c::new();
    let key = "svc".to_string();
    let membership: Vec<Entry> = Vec::new();
    let mut p = lb.get_picker(&key, &membership);
    assert_eq!(p.next(), None);
}

#[test]
fn round_robin_pair_with_three_candidates() {
    let now: i64 = 5000;
    let a = conn("a", 0, 0, now, 1, 80);
    let b = conn("b", 0, 9, now, 2, 81);
    let c = conn("c", 0, 9, now, 3, 82);
    let mut p = InstancePicker::new(vec![a, b, c]);
    // pair (a, b): a is lighter
    assert_eq!(p.next_at(now), Some(Address { a: 1, b: 0, c: 0, d: 1, port: 80 }));
    // pair (b, c): equal loads, the first of the pair wins
    assert_eq!(p.next_at(now), Some(Address { a: 2, b: 0, c: 0, d: 1, port: 81 }));
    // pair (c, a): a is lighter
    assert_eq!(p.next_at(now), Some(Address { a: 1, b: 0, c: 0, d: 1, port: 80 }));
}
