use nimbuscli::cache::{Cache, CacheEntry, Lookup, CAPACITY, ENTRY_LIFETIME_SECS};
use nimbuscli::clock::now_epoch_seconds;

fn s(x: &str) -> String {
    x.to_string()
}

#[test]
fn new_cache_is_empty() {
    let c = Cache::new();
    assert_eq!(c.len(), 0);
    assert!(c.entries().is_empty());
}

#[test]
fn value_reads_back_before_expiry() {
    let mut c = Cache::new();
    c.insert_at(s("notes"), s("/home/me/docs"), 1000);
    assert_eq!(c.get_value_at(&s("notes"), 1000), Some(s("/home/me/docs")));
    assert_eq!(c.get_value_at(&s("notes"), 1000 + ENTRY_LIFETIME_SECS - 1), Some(s("/home/me/docs")));
    assert_eq!(c.read_count(&s("notes")), Some(2));
}

#[test]
fn value_expires_after_lifetime() {
    let mut c = Cache::new();
    c.insert_at(s("notes"), s("/home/me/docs"), 1000);
    match c.lookup_at(&s("notes"), 1000 + ENTRY_LIFETIME_SECS) {
        Lookup::Expired => {}
        _ => panic!("expected the entry to expire"),
    }
    assert_eq!(c.len(), 0);
    match c.lookup_at(&s("notes"), 1000) {
        Lookup::Missing => {}
        _ => panic!("expected the key to be gone"),
    }
}

#[test]
fn missing_key_reads_none() {
    let mut c = Cache::new();
    c.insert_at(s("a"), s("1"), 5);
    assert_eq!(c.get_value_at(&s("b"), 5), None);
    assert_eq!(c.len(), 1);
}

#[test]
fn insert_resets_entry() {
    let mut c = Cache::new();
    c.insert_at(s("a"), s("1"), 5);
    assert_eq!(c.get_value_at(&s("a"), 6), Some(s("1")));
    c.insert_at(s("a"), s("2"), 50);
    assert_eq!(c.read_count(&s("a")), Some(0));
    assert_eq!(c.get_value_at(&s("a"), 140), Some(s("2")));
}

#[test]
fn full_cache_evicts_least_used() {
    let mut c = Cache::new();
    for i in 0..CAPACITY {
        c.insert_at(format!("k{}", i), format!("v{}", i), 10);
    }
    assert_eq!(c.len(), CAPACITY);
    for i in 0..CAPACITY {
        if i != 37 {
            assert!(c.get_value_at(&format!("k{}", i), 20).is_some());
        }
    }
    c.insert_at(s("new"), s("value"), 30);
    assert_eq!(c.len(), CAPACITY);
    assert_eq!(c.read_count(&s("k37")), None);
    assert_eq!(c.get_value_at(&s("new"), 31), Some(s("value")));
}

#[test]
fn full_cache_insert_of_present_key_shrinks() {
    let mut c = Cache::new();
    for i in 0..CAPACITY {
        c.insert_at(format!("k{}", i), format!("v{}", i), 10);
    }
    for i in 1..CAPACITY {
        c.get_value_at(&format!("k{}", i), 11);
    }
    // k0 is least used and is evicted; then k5 is overwritten in place.
    c.insert_at(s("k5"), s("again"), 12);
    assert_eq!(c.len(), CAPACITY - 1);
    assert_eq!(c.read_count(&s("k0")), None);
}

#[test]
fn lfu_removes_least_read() {
    let mut c = Cache::new();
    c.insert_at(s("a"), s("1"), 0);
    c.insert_at(s("b"), s("2"), 0);
    c.insert_at(s("c"), s("3"), 0);
    c.get_value_at(&s("a"), 1);
    c.get_value_at(&s("c"), 1);
    c.get_value_at(&s("c"), 1);
    c.lfu();
    assert_eq!(c.len(), 2);
    assert_eq!(c.read_count(&s("b")), None);
    assert_eq!(c.read_count(&s("a")), Some(1));
    assert_eq!(c.read_count(&s("c")), Some(2));
}

#[test]
fn lfu_on_empty_cache_does_nothing() {
    let mut c = Cache::new();
    c.lfu();
    assert_eq!(c.len(), 0);
}

#[test]
fn lfu_spares_entries_at_max_count() {
    let mut c = Cache::new();
    c.load_entries(vec![
        (s("a"), CacheEntry::new(s("1"), 100, u32::MAX)),
        (s("b"), CacheEntry::new(s("2"), 100, u32::MAX)),
    ]);
    c.lfu();
    assert_eq!(c.len(), 2);
}

#[test]
fn load_entries_later_wins() {
    let mut c = Cache::new();
    c.load_entries(vec![
        (s("a"), CacheEntry::new(s("first"), 100, 3)),
        (s("b"), CacheEntry::new(s("other"), 100, 0)),
        (s("a"), CacheEntry::new(s("second"), 200, 7)),
    ]);
    assert_eq!(c.len(), 2);
    assert_eq!(c.read_count(&s("a")), Some(7));
    assert_eq!(c.get_value_at(&s("a"), 150), Some(s("second")));
}

#[test]
fn entries_lists_every_key_once() {
    let mut c = Cache::new();
    c.insert_at(s("x"), s("1"), 0);
    c.insert_at(s("y"), s("2"), 0);
    let mut keys: Vec<String> = c.entries().into_iter().map(|(k, _)| k).collect();
    keys.sort();
    assert_eq!(keys, vec![s("x"), s("y")]);
    let e = c.entries().into_iter().find(|(k, _)| k == "x").unwrap().1;
    assert_eq!(e.value, s("1"));
    assert_eq!(e.expires_at, ENTRY_LIFETIME_SECS);
    assert_eq!(e.frequency, 0);
}

#[test]
fn clock_reads_a_plausible_time() {
    let now = now_epoch_seconds().unwrap();
    assert!(now > 1_600_000_000);
}

#[test]
fn clock_insert_reads_back() {
    let mut c = Cache::new();
    c.insert(s("k"), s("v"));
    assert_eq!(c.get_value(&s("k")), Some(s("v")));
    match c.lookup(&s("k")) {
        Lookup::Hit(v) => assert_eq!(v, s("v")),
        _ => panic!("expected a hit"),
    }
    assert_eq!(c.read_count(&s("k")), Some(2));
}

#[test]
fn expiry_saturates_at_the_end_of_time() {
    let mut c = Cache::new();
    c.insert_at(s("late"), s("v"), u64::MAX - 10);
    let e = c.entries().into_iter().next().unwrap().1;
    assert_eq!(e.expires_at, u64::MAX);
    assert_eq!(c.get_value_at(&s("late"), u64::MAX - 1), Some(s("v")));
    assert_eq!(c.get_value_at(&s("late"), u64::MAX), None);
    assert_eq!(c.len(), 0);
}

#[test]
fn entries_reload_into_the_same_cache() {
    let mut a = Cache::new();
    a.insert_at(s("x"), s("1"), 0);
    a.insert_at(s("y"), s("2"), 7);
    a.get_value_at(&s("y"), 8);
    let mut b = Cache::new();
    b.load_entries(a.entries());
    let mut ea: Vec<(String, String, u64, u32)> =
        a.entries().into_iter().map(|(k, e)| (k, e.value, e.expires_at, e.frequency)).collect();
    let mut eb: Vec<(String, String, u64, u32)> =
        b.entries().into_iter().map(|(k, e)| (k, e.value, e.expires_at, e.frequency)).collect();
    ea.sort();
    eb.sort();
    assert_eq!(ea, eb);
}

#[test]
fn read_range_check() {
    let mut c = Cache::new();
    c.load_entries(vec![(s("hot"), CacheEntry::new(s("v"), 100, u32::MAX))]);
    assert!(!c.can_read_at(&s("hot"), 50));
    assert!(c.can_read_at(&s("hot"), 100));
    assert!(c.can_read_at(&s("absent"), 50));
}
