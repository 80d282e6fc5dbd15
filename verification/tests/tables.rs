use rauta::backend::{Backend, BackendList, HttpMethod, RouteKey, MAX_BACKENDS};
use rauta::hash::fnv1a_hash;
use rauta::maglev::{maglev_build_compact_table, maglev_lookup_compact, COMPACT_MAGLEV_SIZE};
use rauta::routes::{default_weight, BackendDef, Route};
use rauta::table::Table;
use rauta::text::{
    contains_text, decimal_text, eq_ignore_ascii_case, starts_with, text_eq, trim_end_char,
    trim_start_char,
};

fn backend(last: u8, weight: u16) -> Backend {
    Backend::new(0x0A000100 + last as u32, 8080, weight)
}

fn def(last: u8) -> BackendDef {
    BackendDef { ip: 0x0A000100 + last as u32, port: 8080, weight: default_weight() }
}

#[test]
fn test_route_to_bpf_entry() {
    let route = Route {
        method: HttpMethod::GET,
        path: "/api/users".to_string(),
        host: None,
        backends: vec![def(1), def(2)],
    };

    let (key, backends) = route.to_bpf_entry();

    assert_eq!(key, RouteKey::new(HttpMethod::GET, fnv1a_hash(b"/api/users")));
    assert_eq!(backends.count, 2);
    assert_eq!(backends.backends[0].port, 8080);
    assert_eq!(backends.backends[1].port, 8080);
    assert_eq!(backends.backends[1], backend(2, 100));
    assert_eq!(backends.backends[2], BackendList::empty().backends[2]);
}

#[test]
fn a_backend_list_takes_no_more_than_it_has_room_for() {
    let route = Route {
        method: HttpMethod::ALL,
        path: "/".to_string(),
        host: Some("a.example".to_string()),
        backends: (0..40).map(def).collect(),
    };
    let (_, backends) = route.to_bpf_entry();
    assert_eq!(backends.count as usize, MAX_BACKENDS);
    assert_eq!(backends.backends[31], backend(31, 100));
    assert_eq!(BackendList::empty().count, 0);
    assert_eq!(default_weight(), 100);
}

#[test]
fn route_keys_tell_methods_and_paths_apart() {
    let key = |m: HttpMethod, p: &str| RouteKey::new(m, fnv1a_hash(p.as_bytes()));
    assert_eq!(key(HttpMethod::GET, "/a"), key(HttpMethod::GET, "/a"));
    assert_ne!(key(HttpMethod::GET, "/a"), key(HttpMethod::POST, "/a"));
    assert_ne!(key(HttpMethod::GET, "/a"), key(HttpMethod::GET, "/b"));
}

#[test]
fn hashes_are_those_of_fnv1a() {
    assert_eq!(fnv1a_hash(b""), 0xcbf2_9ce4_8422_2325);
    assert_eq!(fnv1a_hash(b"a"), 0xaf63_dc4c_8601_ec8c);
    assert_eq!(fnv1a_hash(b"foobar"), 0x8594_4171_f739_67e8);
}

#[test]
fn equal_weights_share_the_table_evenly() {
    let table = maglev_build_compact_table(&[backend(1, 100), backend(2, 100), backend(3, 100)]);
    assert_eq!(table.len(), COMPACT_MAGLEV_SIZE);
    let mut counts = [0usize; 3];
    for slot in &table {
        counts[*slot as usize] += 1;
    }
    assert_eq!(counts.iter().sum::<usize>(), COMPACT_MAGLEV_SIZE);
    for count in counts {
        assert!(count >= 1366 && count <= 1367, "got {}", count);
    }
}

#[test]
fn weights_share_the_table_in_proportion() {
    let table = maglev_build_compact_table(&[backend(1, 90), backend(2, 10)]);
    let canary = table.iter().filter(|slot| **slot == 1).count();
    assert!(canary >= 400 && canary <= 420, "got {}", canary);
    assert!(maglev_build_compact_table(&[]).is_empty());
}

#[test]
fn lookups_are_by_hash() {
    let table = maglev_build_compact_table(&[backend(1, 100), backend(2, 100)]);
    for hash in [0u64, 1, 4098, 4099, u64::MAX] {
        assert_eq!(
            maglev_lookup_compact(hash, &table),
            table[(hash % table.len() as u64) as usize]
        );
    }
}

#[test]
fn addresses_are_written_out() {
    assert_eq!(backend(5, 1).socket_addr(), "10.0.1.5:8080");
    assert_eq!(Backend::new(u32::MAX, u16::MAX, 0).socket_addr(), "255.255.255.255:65535");
    assert_eq!(Backend::new(0, 0, 0).socket_addr(), "0.0.0.0:0");
}

#[test]
fn texts_are_compared_and_cut() {
    assert!(text_eq("abc", "abc"));
    assert!(!text_eq("abc", "abd"));
    assert!(eq_ignore_ascii_case("Host", "hOST"));
    assert!(!eq_ignore_ascii_case("Host", "Hos"));
    assert!(starts_with("/api/users", "/api"));
    assert!(!starts_with("/ap", "/api"));
    assert!(contains_text("http_requests_total", "requests"));
    assert!(contains_text("a", ""));
    assert!(!contains_text("a", "ab"));
    assert_eq!(decimal_text(0), "0");
    assert_eq!(decimal_text(u64::MAX), "18446744073709551615");
    assert_eq!(trim_end_char("http://a//", '/'), "http://a");
    assert_eq!(trim_start_char("//a/", '/'), "a/");
}

#[test]
fn tables_keep_one_value_per_key() {
    let mut table: Table<u16, &str> = Table::new();
    table.insert(&1, "a");
    table.insert(&2, "b");
    table.insert(&1, "c");
    assert_eq!(table.len(), 2);
    assert_eq!(table.get(&1), Some(&"c"));
    assert!(table.contains_key(&2));
    assert!(table.remove(&2));
    assert!(!table.remove(&2));
    assert_eq!(table.get(&2), None);
}
