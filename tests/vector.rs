use memmap2::MmapMut;
use rapiddb::mmav::MMAV;
use rapiddb::mmav_unit::SEGMENT_SIZE;
use rapiddb::names::parse_index;
use std::cell::RefCell;
use std::collections::HashMap;

type Store = RefCell<HashMap<(String, usize), MmapMut>>;

fn opener(store: &Store) -> impl Fn(String, usize) -> Option<(MmapMut, bool)> + '_ {
    move |id, start| match store.borrow_mut().remove(&(id, start)) {
        Some(map) => Some((map, true)),
        None => MmapMut::map_anon(SEGMENT_SIZE).ok().map(|map| (map, false)),
    }
}

fn closer(store: &Store) -> impl Fn(String, usize, MmapMut) + '_ {
    move |id, start, map| {
        store.borrow_mut().insert((id, start), map);
    }
}

fn record(i: usize) -> Vec<u8> {
    format!("{{\"n\":{:08}}}", i).into_bytes()
}

fn names(list: &[&str]) -> Vec<Vec<u8>> {
    list.iter().map(|n| n.as_bytes().to_vec()).collect()
}

#[test]
fn parse_index_follows_decimal_names() {
    assert_eq!(parse_index(&b"0".to_vec()), Some(0));
    assert_eq!(parse_index(&b"10000".to_vec()), Some(10_000));
    assert_eq!(parse_index(&b"+7".to_vec()), Some(7));
    assert_eq!(parse_index(&b"18446744073709551615".to_vec()), Some(usize::MAX));
    assert_eq!(parse_index(&b"18446744073709551616".to_vec()), None);
    assert_eq!(parse_index(&b"".to_vec()), None);
    assert_eq!(parse_index(&b"+".to_vec()), None);
    assert_eq!(parse_index(&b"-1".to_vec()), None);
    assert_eq!(parse_index(&b"meta".to_vec()), None);
    assert_eq!(parse_index(&b"12a".to_vec()), None);
}

#[test]
fn new_vector_starts_at_zero() {
    let store = Store::default();
    let v = MMAV::new("s".to_string(), Vec::new(), &opener(&store)).ok().unwrap();
    assert_eq!(v.indices(), vec![0]);
    assert_eq!(v.len(), 0);
    assert_eq!(v.last(), Vec::<u8>::new());
}

#[test]
fn segment_names_are_sorted_and_others_ignored() {
    let store = Store::default();
    let v = MMAV::new("s".to_string(), names(&["20000", "meta", "0", "10000", "x1"]), &opener(&store))
        .ok()
        .unwrap();
    assert_eq!(v.indices(), vec![0, 10_000, 20_000]);
}

#[test]
fn push_get_and_last() {
    let store = Store::default();
    let open = opener(&store);
    let close = closer(&store);
    let mut v = MMAV::new("s".to_string(), Vec::new(), &open).ok().unwrap();
    assert!(v.push(b"a", &open, &close));
    assert!(v.push(b"b", &open, &close));
    assert_eq!(v.len(), 2);
    assert_eq!(v.get(0, &open), b"a".to_vec());
    assert_eq!(v.get(1, &open), b"b".to_vec());
    assert_eq!(v.get(2, &open), Vec::<u8>::new());
    assert_eq!(v.last(), b"b".to_vec());
}

#[test]
fn full_segment_keeps_one_index_then_rolls_over() {
    let store = Store::default();
    let open = opener(&store);
    let close = closer(&store);
    let mut v = MMAV::new("r".to_string(), Vec::new(), &open).ok().unwrap();
    for i in 0..10_000 {
        assert!(v.push(&record(i), &open, &close));
    }
    assert_eq!(v.indices(), vec![0]);
    assert!(v.push(&record(10_000), &open, &close));
    assert_eq!(v.indices(), vec![0, 10_000]);
    assert_eq!(v.len(), 10_001);
    assert_eq!(v.get(10_000, &open), record(10_000));
    assert_eq!(v.get(0, &open), record(0));
    assert_eq!(v.get(9_999, &open), record(9_999));
}

#[test]
fn evicted_segment_is_reloaded_through_the_opener() {
    let store = Store::default();
    let open = opener(&store);
    let close = closer(&store);
    let mut v = MMAV::new("e".to_string(), Vec::new(), &open).ok().unwrap();
    for i in 0..20_001 {
        assert!(v.push(&record(i), &open, &close));
    }
    assert_eq!(v.indices(), vec![0, 10_000, 20_000]);
    assert!(store.borrow().contains_key(&("e".to_string(), 0)));
    assert_eq!(v.get(5, &open), record(5));
    assert_eq!(v.get(15_000, &open), record(15_000));
    assert_eq!(v.get(20_000, &open), record(20_000));
    assert_eq!(v.range(9_998, 10_001, &open), (9_998..=10_001).map(record).collect::<Vec<_>>());
}

#[test]
fn oversize_record_is_not_appended() {
    let store = Store::default();
    let open = opener(&store);
    let close = closer(&store);
    let mut v = MMAV::new("o".to_string(), Vec::new(), &open).ok().unwrap();
    assert!(v.push(b"small", &open, &close));
    let big = vec![0u8; SEGMENT_SIZE];
    assert!(!v.push(&big, &open, &close));
    assert_eq!(v.len(), 1);
    assert_eq!(v.last(), b"small".to_vec());
}

#[test]
fn range_and_last_limit() {
    let store = Store::default();
    let open = opener(&store);
    let close = closer(&store);
    let mut v = MMAV::new("q".to_string(), Vec::new(), &open).ok().unwrap();
    for i in 0..3 {
        assert!(v.push(&record(i), &open, &close));
    }
    let all: Vec<Vec<u8>> = (0..3).map(record).collect();
    assert_eq!(v.range(0, 100, &open), all);
    assert_eq!(v.range(0, 5, &open), Vec::<Vec<u8>>::new());
    assert_eq!(v.range(0, 6, &open), Vec::<Vec<u8>>::new());
    assert_eq!(v.range(0, 7, &open), all);
    assert_eq!(v.range(1, 8, &open), all[1..].to_vec());
    assert_eq!(v.range(5, 0, &open), Vec::<Vec<u8>>::new());
    assert_eq!(v.range(1, 2, &open), all[1..].to_vec());
    assert_eq!(v.range(1, 1, &open), vec![record(1)]);
    assert_eq!(v.range(3, 3, &open), Vec::<Vec<u8>>::new());
    assert_eq!(v.last_limit(0, &open), Vec::<Vec<u8>>::new());
    assert_eq!(v.last_limit(2, &open), all[1..].to_vec());
    assert_eq!(v.last_limit(3, &open), all);
    assert_eq!(v.last_limit(10, &open), all);
}

#[test]
fn closed_vector_reopens_with_its_records() {
    let store = Store::default();
    {
        let open = opener(&store);
        let close = closer(&store);
        let mut v = MMAV::new("p".to_string(), Vec::new(), &open).ok().unwrap();
        for i in 0..10_002 {
            assert!(v.push(&record(i), &open, &close));
        }
        v.close(&close);
    }
    let listing: Vec<Vec<u8>> =
        store.borrow().keys().map(|(_, start)| start.to_string().into_bytes()).collect();
    let open = opener(&store);
    let mut v = MMAV::new("p".to_string(), listing, &open).ok().unwrap();
    assert_eq!(v.indices(), vec![0, 10_000]);
    assert_eq!(v.len(), 10_002);
    assert_eq!(v.get(0, &open), record(0));
    assert_eq!(v.last(), record(10_001));
}

#[test]
fn range_clamp_counts_both_segments() {
    let store = Store::default();
    let open = opener(&store);
    let close = closer(&store);
    let mut v = MMAV::new("c".to_string(), Vec::new(), &open).ok().unwrap();
    for i in 0..10_005 {
        assert!(v.push(&record(i), &open, &close));
    }
    assert_eq!(v.range(9_000, 30_000, &open), Vec::<Vec<u8>>::new());
    let got = v.range(10_001, 30_000, &open);
    assert_eq!(got, (10_001..10_005).map(record).collect::<Vec<_>>());
    assert_eq!(v.range(9_999, 10_004, &open).len(), 6);
}
