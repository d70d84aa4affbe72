use rust_consistent_hash::consistent::{Consistent, RingError};
use rust_consistent_hash::hashing::{HasherTrait, MyHasher};

fn ring_with_four_servers() -> Consistent {
    let mut c = Consistent::new_ring(15);
    c.add_server("Server1".to_string());
    c.add_server("Server2".to_string());
    c.add_server("Server3".to_string());
    c.add_server("Server4".to_string());
    c
}

fn lookup(c: &Consistent, key: &str) -> Option<String> {
    let mut found = None;
    for (k, v) in c.get_mapping() {
        if k == key {
            found = Some(v);
        }
    }
    found
}

#[test]
fn test_del_key() {
    let mut c = Consistent::new_ring(15);
    c.add_server("Server1".to_string());
    c.add_server("Server2".to_string());
    c.add_server("Server3".to_string());
    c.add_server("Server4".to_string());
    let key = "key2222";
    let _ = c.add_key_public(key.to_string());

    assert!(lookup(&c, key) == Some("Server4".to_string()));
}

#[test]
fn golden_resolution_is_stable() {
    let c = ring_with_four_servers();
    assert_eq!(c.map_key(&"key2222".to_string()).unwrap(), "Server4".to_string());
}

#[test]
fn sorted_set_grows_by_replication_factor() {
    let mut c = Consistent::new_ring(15);
    assert_eq!(c.get_sorted_set().len(), 0);
    c.add_server("Server1".to_string());
    assert_eq!(c.get_sorted_set().len(), 15);
    c.add_server("Server2".to_string());
    c.add_server("Server3".to_string());
    c.add_server("Server4".to_string());
    assert_eq!(c.get_sorted_set().len(), 15 * 4);
}

#[test]
fn map_key_is_deterministic() {
    let c = ring_with_four_servers();
    for key in ["key2222", "key2", "", "abc"] {
        let first = c.map_key(&key.to_string()).unwrap();
        let second = c.map_key(&key.to_string()).unwrap();
        assert_eq!(first, second);
    }
}

#[test]
fn add_key_public_matches_map_key() {
    let mut c = ring_with_four_servers();
    for i in 0..50 {
        let key = format!("key{}", i);
        c.add_key_public(key.clone()).unwrap();
        assert_eq!(lookup(&c, &key), Some(c.map_key(&key).unwrap()));
    }
}

#[test]
fn add_server_disrupts_minimally() {
    let mut c = Consistent::new_ring(15);
    c.add_server("ServerA".to_string());
    c.add_server("ServerB".to_string());
    c.add_server("ServerC".to_string());
    for i in 0..100 {
        c.add_key_public(format!("key{}", i)).unwrap();
    }
    let before = c.get_mapping();
    c.add_server("ServerD".to_string());
    let after = c.get_mapping();
    assert_eq!(before.len(), after.len());
    for ((k1, v1), (k2, v2)) in before.iter().zip(after.iter()) {
        assert_eq!(k1, k2);
        if v1 != v2 {
            assert_eq!(v2, "ServerD");
        }
        assert_eq!(*v2, c.map_key(k2).unwrap());
    }
}

#[test]
fn del_server_reassigns_only_its_keys() {
    let mut c = ring_with_four_servers();
    for i in 0..100 {
        c.add_key_public(format!("key{}", i)).unwrap();
    }
    let before = c.get_mapping();
    let found = c.del_server("Server2".to_string());
    assert!(found);
    let after = c.get_mapping();
    assert_eq!(before.len(), after.len());
    let servers = c.get_serverlist();
    for ((k1, v1), (k2, v2)) in before.iter().zip(after.iter()) {
        assert_eq!(k1, k2);
        if v1 == "Server2" {
            assert_ne!(v2, "Server2");
            assert!(servers.contains(v2));
        } else {
            assert_eq!(v1, v2);
        }
    }
}

#[test]
fn empty_ring_reports_error() {
    let mut c = ring_with_four_servers();
    assert!(c.del_server("Server1".to_string()));
    assert!(c.del_server("Server2".to_string()));
    assert!(c.del_server("Server3".to_string()));
    assert!(c.del_server("Server4".to_string()));
    assert_eq!(c.get_sorted_set().len(), 0);
    assert_eq!(c.map_key(&"key2222".to_string()), Err(RingError::EmptyRing));
    assert_eq!(c.add_key_public("key2222".to_string()), Err(RingError::EmptyRing));
}

#[test]
fn del_server_unknown_name_changes_nothing() {
    let mut c = ring_with_four_servers();
    for i in 0..20 {
        c.add_key_public(format!("key{}", i)).unwrap();
    }
    let ring_before = c.get_ring();
    let sorted_before = c.get_sorted_set();
    let mapping_before = c.get_mapping();
    let servers_before = c.get_serverlist();
    let found = c.del_server("Server9".to_string());
    assert!(!found);
    assert_eq!(ring_before, c.get_ring());
    assert_eq!(sorted_before, c.get_sorted_set());
    assert_eq!(mapping_before, c.get_mapping());
    assert_eq!(servers_before, c.get_serverlist());
}

#[test]
fn del_key_reports_presence() {
    let mut c = ring_with_four_servers();
    c.add_key_public("key1".to_string()).unwrap();
    assert!(c.del_key("key1".to_string()));
    assert!(lookup(&c, "key1").is_none());
    assert!(!c.del_key("key1".to_string()));
    assert!(!c.del_key("never-added".to_string()));
}

#[test]
fn add_key_stores_explicit_assignment() {
    let mut c = ring_with_four_servers();
    c.add_key("key1".to_string(), "Server3".to_string());
    assert_eq!(lookup(&c, "key1"), Some("Server3".to_string()));
    c.add_key("key1".to_string(), "Server1".to_string());
    assert_eq!(lookup(&c, "key1"), Some("Server1".to_string()));
    assert_eq!(c.get_mapping().len(), 1);
}

#[test]
fn hasher_stays_in_bucket_space() {
    let h = MyHasher {};
    for key in ["", "a", "key2222", "Server10"] {
        let v = h.hash_to_used(key);
        assert!(v < 1024);
        assert_eq!(v, h.hash_to_used(key));
    }
}

#[test]
fn sorted_set_is_ascending() {
    let c = ring_with_four_servers();
    let s = c.get_sorted_set();
    for w in s.windows(2) {
        assert!(w[0] <= w[1]);
    }
}
