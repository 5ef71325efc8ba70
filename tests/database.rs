use memmap2::MmapMut;
use rapiddb::database::MMAVDatabase;
use rapiddb::mmav_unit::SEGMENT_SIZE;
use std::cell::RefCell;
use std::collections::HashMap;

type Store = RefCell<HashMap<(String, usize), MmapMut>>;
type Hook = fn(&str, &[u8], &[u8]) -> Vec<u8>;

fn opener(store: &Store) -> impl Fn(String, usize) -> Option<(MmapMut, bool)> + '_ {
    move |id, start| match store.borrow_mut().remove(&(id, start)) {
        Some(map) => Some((map, true)),
        None => MmapMut::map_anon(SEGMENT_SIZE).ok().map(|map| (map, false)),
    }
}

fn closer(store: &Store) -> impl Fn(String, usize, MmapMut) + '_ {
    move |id, start, map| {
        store.borrow_mut().insert((id, start), map);
    }
}

fn empty_db(store: &Store) -> MMAVDatabase<Hook> {
    MMAVDatabase::new_with_all(Vec::new(), Vec::new(), &opener(store)).ok().unwrap()
}

fn temp_hook(_: &str, value: &[u8], aggregate: &[u8]) -> Vec<u8> {
    let obj: serde_json::Value = serde_json::from_slice(value).unwrap_or_default();
    if obj["temp"].is_null() {
        return aggregate.to_vec();
    }
    let mut agg: serde_json::Value = serde_json::from_slice(aggregate).unwrap_or_default();
    let sum = agg["temp_sum"].as_f64().unwrap_or_default() + obj["temp"].as_f64().unwrap_or_default();
    let count = agg["temp_sum_count"].as_f64().unwrap_or_default() + 1.0;
    agg["temp_sum"] = serde_json::Value::from(sum);
    agg["temp_sum_count"] = serde_json::Value::from(count);
    agg["temp_avg"] = serde_json::Value::from(sum / count);
    agg.to_string().into_bytes()
}

fn append_hook(_: &str, value: &[u8], aggregate: &[u8]) -> Vec<u8> {
    let mut out = aggregate.to_vec();
    out.extend_from_slice(value);
    out
}

#[test]
fn single_record_round_trip() {
    let store = Store::default();
    let open = opener(&store);
    let close = closer(&store);
    let mut db = empty_db(&store);
    let data = b"{\"k\":\"v\"}";
    assert!(db.post("s", data, &open, &close));
    assert_eq!(db.get_latest("s"), data.to_vec());
    assert_eq!(db.get("s", 0, &open), data.to_vec());
    assert_eq!(db.get("s", 1, &open), Vec::<u8>::new());
}

#[test]
fn aggregate_update() {
    let store = Store::default();
    let open = opener(&store);
    let close = closer(&store);
    let hooks: Vec<(String, Hook)> = vec![("t".to_string(), temp_hook as Hook)];
    let mut db = MMAVDatabase::new_with_all(Vec::new(), hooks, &open).ok().unwrap();
    assert!(db.post("t", b"{\"temp\":8.0}", &open, &close));
    assert!(db.post("t", b"{\"temp\":4.0}", &open, &close));
    let agg: serde_json::Value = serde_json::from_slice(&db.get_aggregates("t")).unwrap();
    assert_eq!(agg["temp_sum"].as_f64(), Some(12.0));
    assert_eq!(agg["temp_sum_count"].as_f64(), Some(2.0));
    assert_eq!(agg["temp_avg"].as_f64(), Some(6.0));
}

#[test]
fn aggregate_starts_as_empty_object_and_follows_each_post() {
    let store = Store::default();
    let open = opener(&store);
    let close = closer(&store);
    let hooks: Vec<(String, Hook)> = vec![("h".to_string(), append_hook as Hook)];
    let mut db = MMAVDatabase::new_with_all(Vec::new(), hooks, &open).ok().unwrap();
    assert_eq!(db.get_aggregates("h"), Vec::<u8>::new());
    assert!(db.post("h", b"1", &open, &close));
    assert_eq!(db.get_aggregates("h"), b"{}1".to_vec());
    assert!(db.post("h", b"2", &open, &close));
    assert_eq!(db.get_aggregates("h"), b"{}12".to_vec());
    assert!(db.post("plain", b"x", &open, &close));
    assert_eq!(db.get_aggregates("plain"), b"{}".to_vec());
}

#[test]
fn segment_rollover() {
    let store = Store::default();
    let open = opener(&store);
    let close = closer(&store);
    let mut db = empty_db(&store);
    let rec = |i: usize| format!("{:016}", i).into_bytes();
    for i in 0..10_001 {
        assert!(db.post("r", &rec(i), &open, &close));
    }
    assert_eq!(db.get("r", 10_000, &open), rec(10_000));
    assert_eq!(db.get("r", 0, &open), rec(0));
    assert_eq!(db.get_latest("r"), rec(10_000));
    db.close(&close);
    let files = store.borrow();
    assert!(files.contains_key(&("r".to_string(), 0)));
    assert!(files.contains_key(&("r".to_string(), 10_000)));
}

#[test]
fn restart_persistence() {
    let store = Store::default();
    let close = closer(&store);
    let metas: RefCell<HashMap<String, Vec<u8>>> = RefCell::default();
    {
        let open = opener(&store);
        let mut db = empty_db(&store);
        for value in [b"A", b"B", b"C"] {
            assert!(db.post("p", value, &open, &close));
        }
        assert!(db.post_meta("p", b"{\"m\":1}".to_vec(), &open));
        for r in db.get_all_meta() {
            metas.borrow_mut().insert(r.id, r.value);
        }
        db.close(&close);
    }
    let mut listing: HashMap<String, Vec<Vec<u8>>> = HashMap::new();
    for (id, start) in store.borrow().keys() {
        listing.entry(id.clone()).or_default().push(start.to_string().into_bytes());
    }
    let entries: Vec<(String, Vec<Vec<u8>>, Vec<u8>)> = listing
        .into_iter()
        .map(|(k, names)| {
            let meta = metas.borrow().get(&k).cloned().unwrap_or_default();
            (k, names, meta)
        })
        .collect();
    let open = opener(&store);
    let mut db: MMAVDatabase<Hook> = MMAVDatabase::new_with_all(entries, Vec::new(), &open).ok().unwrap();
    assert!(db.contains("p"));
    assert_eq!(
        db.get_latest_with_limit("p", 10, &open),
        vec![b"A".to_vec(), b"B".to_vec(), b"C".to_vec()]
    );
    assert_eq!(db.get_meta("p"), b"{\"m\":1}".to_vec());
}

#[test]
fn metadata_independence() {
    let store = Store::default();
    let open = opener(&store);
    let mut db = empty_db(&store);
    assert!(db.post_meta("m", b"{\"x\":1}".to_vec(), &open));
    assert!(db.contains("m"));
    assert_eq!(db.get_meta("m"), b"{\"x\":1}".to_vec());
    assert_eq!(db.get_latest("m"), Vec::<u8>::new());
    assert_eq!(db.get("m", 0, &open), Vec::<u8>::new());
    assert_eq!(db.get_aggregates("m"), Vec::<u8>::new());
    assert!(db.post_meta("m", b"{\"x\":2}".to_vec(), &open));
    assert_eq!(db.get_meta("m"), b"{\"x\":2}".to_vec());
}

#[test]
fn range_clamp() {
    let store = Store::default();
    let open = opener(&store);
    let close = closer(&store);
    let mut db = empty_db(&store);
    let records: Vec<Vec<u8>> = (0..3).map(|i| format!("{{\"i\":{}}}", i).into_bytes()).collect();
    for r in &records {
        assert!(db.post("q", r, &open, &close));
    }
    assert_eq!(db.get_range("q", 0, 100, &open), records);
    assert_eq!(db.get_range("q", 5, 0, &open), Vec::<Vec<u8>>::new());
    assert_eq!(db.get_range("q", 3, 3, &open), Vec::<Vec<u8>>::new());
    assert_eq!(db.get_range("q", 1, 1, &open), vec![records[1].clone()]);
    assert_eq!(db.get_latest_with_limit("q", 0, &open), Vec::<Vec<u8>>::new());
    assert_eq!(db.get_latest_with_limit("q", 2, &open), records[1..].to_vec());
}

#[test]
fn unknown_keys_read_as_empty() {
    let store = Store::default();
    let open = opener(&store);
    let mut db = empty_db(&store);
    assert!(!db.contains("none"));
    assert_eq!(db.get("none", 0, &open), Vec::<u8>::new());
    assert_eq!(db.get_meta("none"), Vec::<u8>::new());
    assert_eq!(db.get_aggregates("none"), Vec::<u8>::new());
    assert_eq!(db.get_latest("none"), Vec::<u8>::new());
    assert_eq!(db.get_latest_with_limit("none", 5, &open), Vec::<Vec<u8>>::new());
    assert_eq!(db.get_range("none", 0, 5, &open), Vec::<Vec<u8>>::new());
}

#[test]
fn all_key_views() {
    let store = Store::default();
    let open = opener(&store);
    let close = closer(&store);
    let mut db = empty_db(&store);
    assert!(db.post("a", b"1", &open, &close));
    assert!(db.post("a", b"2", &open, &close));
    assert!(db.post("b", b"3", &open, &close));
    assert!(db.post_meta("c", b"meta".to_vec(), &open));
    let latest: HashMap<String, Vec<u8>> = db.get_all_latest().into_iter().map(|r| (r.id, r.value)).collect();
    assert_eq!(latest.get("a"), Some(&b"2".to_vec()));
    assert_eq!(latest.get("b"), Some(&b"3".to_vec()));
    assert_eq!(latest.get("c"), Some(&Vec::new()));
    let lists: HashMap<String, Vec<Vec<u8>>> = db.get_all_latest_with_limit(10, &open).into_iter().collect();
    assert_eq!(lists.len(), 2);
    assert_eq!(lists.get("a"), Some(&vec![b"1".to_vec(), b"2".to_vec()]));
    assert_eq!(lists.get("b"), Some(&vec![b"3".to_vec()]));
    let meta: HashMap<String, Vec<u8>> = db.get_all_meta().into_iter().map(|r| (r.id, r.value)).collect();
    assert_eq!(meta.len(), 1);
    assert_eq!(meta.get("c"), Some(&b"meta".to_vec()));
    let aggs: HashMap<String, Vec<u8>> = db.get_all_aggregates().into_iter().map(|r| (r.id, r.value)).collect();
    assert_eq!(aggs.len(), 2);
    assert_eq!(aggs.get("a"), Some(&b"{}".to_vec()));
}

#[test]
fn unavailable_segment_leaves_the_key_absent() {
    let refuse = |_: String, _: usize| -> Option<(MmapMut, bool)> { None };
    let close = |_: String, _: usize, _: MmapMut| {};
    let mut db: MMAVDatabase<Hook> = MMAVDatabase::new_with_all(Vec::new(), Vec::new(), &refuse).ok().unwrap();
    assert!(!db.post("k", b"1", &refuse, &close));
    assert!(!db.contains("k"));
    assert_eq!(db.get_aggregates("k"), Vec::<u8>::new());
    assert!(!db.post_meta("k", b"{}".to_vec(), &refuse));
    assert_eq!(db.get_meta("k"), Vec::<u8>::new());
    let entries = vec![("k".to_string(), vec![b"0".to_vec()], Vec::new())];
    let failed = MMAVDatabase::<Hook>::new_with_all(entries, Vec::new(), &refuse);
    assert_eq!(failed.err(), Some(rapiddb::errors::Error::Unavailable));
}
