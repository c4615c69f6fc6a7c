use etcd_p2c::addr::{parse_address, Address};
use etcd_p2c::registry::{EventKind, RawKv, RegistryEvent, Watcher};

fn put(key: &str, value: &str) -> RegistryEvent {
    RegistryEvent { kind: EventKind::Put, key: key.to_string(), value: value.as_bytes().to_vec() }
}

fn del(key: &str) -> RegistryEvent {
    RegistryEvent { kind: EventKind::Delete, key: key.to_string(), value: Vec::new() }
}

#[test]
fn parse_valid_address() {
    let a = parse_address(b"10.0.200.7:8080").unwrap();
    assert_eq!(a, Address { a: 10, b: 0, c: 200, d: 7, port: 8080 });
}

#[test]
fn parse_port_bounds() {
    assert_eq!(
        parse_address(b"1.2.3.4:65535"),
        Some(Address { a: 1, b: 2, c: 3, d: 4, port: 65535 })
    );
    assert_eq!(parse_address(b"1.2.3.4:65536"), None);
}

#[test]
fn parse_rejects_bad_octets() {
    assert_eq!(parse_address(b"256.0.0.1:80"), None);
    assert_eq!(parse_address(b"01.2.3.4:80"), None);
    assert_eq!(parse_address(b"1.2.3:80"), None);
    assert_eq!(parse_address(b"1.2.3.4.5:80"), None);
    assert_eq!(parse_address(b"1.2.3.4:"), None);
    assert_eq!(parse_address(b"1.2.3.4"), None);
    assert_eq!(parse_address(b""), None);
    assert_eq!(parse_address(b"a.b.c.d:80"), None);
}

#[test]
fn discover_empty_registry() {
    let mut w = Watcher::new("svc".to_string());
    let out = w.discover(Some(Vec::new()));
    assert_eq!(out.len(), 0);
    let c = w.baseline_change();
    assert_eq!(c.all.len(), 0);
}

#[test]
fn discover_transport_failure_is_empty() {
    let mut w = Watcher::new("svc".to_string());
    let kvs = vec![RawKv { key: "k1".to_string(), value: b"1.1.1.1:80".to_vec() }];
    let _ = w.discover(Some(kvs));
    let out = w.discover(None);
    assert_eq!(out.len(), 0);
    // the cache is left alone by a failed enumeration
    assert_eq!(w.baseline_change().all.len(), 1);
}

#[test]
fn discover_skips_malformed_values() {
    let mut w = Watcher::new("svc".to_string());
    let kvs = vec![
        RawKv { key: "k1".to_string(), value: b"1.1.1.1:80".to_vec() },
        RawKv { key: "bad".to_string(), value: b"not-an-address".to_vec() },
        RawKv { key: "k2".to_string(), value: b"2.2.2.2:81".to_vec() },
    ];
    let out = w.discover(Some(kvs));
    assert_eq!(out.len(), 2);
    assert_eq!(out[0].address, Address { a: 1, b: 1, c: 1, d: 1, port: 80 });
    assert_eq!(out[1].address, Address { a: 2, b: 2, c: 2, d: 2, port: 81 });
    assert_eq!(w.baseline_change().all.len(), 2);
}

#[test]
fn batch_of_two_puts_is_all_added() {
    let mut w = Watcher::new("svc".to_string());
    let events = vec![put("k1", "1.1.1.1:80"), put("k2", "2.2.2.2:81")];
    let c = w.apply_batch(&events);
    assert_eq!(c.service_key, "svc");
    assert_eq!(c.added.len(), 2);
    assert_eq!(c.added[0].key, "k1");
    assert_eq!(c.added[1].key, "k2");
    assert_eq!(c.updated.len(), 0);
    assert_eq!(c.removed.len(), 0);
    assert_eq!(c.all.len(), 2);
}

#[test]
fn subsequent_delete_is_removed() {
    let mut w = Watcher::new("svc".to_string());
    let _ = w.apply_batch(&vec![put("k1", "1.1.1.1:80"), put("k2", "2.2.2.2:81")]);
    let c = w.apply_batch(&vec![del("k1")]);
    assert_eq!(c.added.len(), 0);
    assert_eq!(c.updated.len(), 0);
    assert_eq!(c.removed.len(), 1);
    assert_eq!(c.removed[0].key, "k1");
    assert_eq!(c.all.len(), 1);
    assert_eq!(c.all[0].key, "k2");
}

#[test]
fn put_on_present_key_is_updated() {
    let mut w = Watcher::new("svc".to_string());
    let _ = w.apply_batch(&vec![put("k1", "1.1.1.1:80")]);
    let c = w.apply_batch(&vec![put("k1", "9.9.9.9:99")]);
    assert_eq!(c.added.len(), 0);
    assert_eq!(c.updated.len(), 1);
    assert_eq!(c.updated[0].key, "k1");
    assert_eq!(c.updated[0].instance.address, Address { a: 9, b: 9, c: 9, d: 9, port: 99 });
    assert_eq!(c.removed.len(), 0);
    assert_eq!(c.all.len(), 1);
}

#[test]
fn delete_of_absent_key_is_ignored() {
    let mut w = Watcher::new("svc".to_string());
    let c = w.apply_batch(&vec![del("ghost")]);
    assert_eq!(c.added.len(), 0);
    assert_eq!(c.updated.len(), 0);
    assert_eq!(c.removed.len(), 0);
    assert_eq!(c.all.len(), 0);
}

#[test]
fn malformed_put_drops_that_key_only() {
    let mut w = Watcher::new("svc".to_string());
    let c = w.apply_batch(&vec![put("bad", "oops"), put("k1", "1.1.1.1:80")]);
    assert_eq!(c.added.len(), 1);
    assert_eq!(c.added[0].key, "k1");
    assert_eq!(c.all.len(), 1);
}

#[test]
fn duplicate_enumeration_keys_last_wins() {
    let mut w = Watcher::new("svc".to_string());
    let kvs = vec![
        RawKv { key: "k1".to_string(), value: b"1.1.1.1:80".to_vec() },
        RawKv { key: "k1".to_string(), value: b"2.2.2.2:81".to_vec() },
    ];
    let out = w.discover(Some(kvs));
    // the returned list keeps both records, the cache keeps one
    assert_eq!(out.len(), 2);
    let all = w.baseline_change().all;
    assert_eq!(all.len(), 1);
    assert_eq!(all[0].key, "k1");
    assert_eq!(all[0].instance.address, Address { a: 2, b: 2, c: 2, d: 2, port: 81 });
}

#[test]
fn resync_rebuilds_the_same_snapshot() {
    let mut w = Watcher::new("svc".to_string());
    let _ = w.apply_batch(&vec![put("k1", "1.1.1.1:80"), put("k2", "2.2.2.2:81")]);
    let _ = w.apply_batch(&vec![del("k1"), put("k3", "3.3.3.3:82")]);
    // an enumeration that lists exactly the current membership
    let kvs = vec![
        RawKv { key: "k2".to_string(), value: b"2.2.2.2:81".to_vec() },
        RawKv { key: "k3".to_string(), value: b"3.3.3.3:82".to_vec() },
    ];
    let mut w2 = Watcher::new("svc".to_string());
    let _ = w2.discover(Some(kvs));
    let mut a = w.baseline_change().all;
    let mut b = w2.baseline_change().all;
    a.sort_by(|x, y| x.key.cmp(&y.key));
    b.sort_by(|x, y| x.key.cmp(&y.key));
    assert_eq!(a.len(), b.len());
    for (x, y) in a.iter().zip(b.iter()) {
        assert_eq!(x.key, y.key);
        assert_eq!(x.instance.address, y.instance.address);
    }
}
