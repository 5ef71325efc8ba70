use rapiddb::database::Record;
use rapiddb::json::{json_array, json_object, json_object_of_lists};

#[test]
fn array_joins_records_verbatim() {
    let items = vec![b"{\"a\":1}".to_vec(), b"2".to_vec(), b"\"x\"".to_vec()];
    assert_eq!(json_array(&items), b"[{\"a\":1},2,\"x\"]".to_vec());
    assert_eq!(json_array(&vec![b"7".to_vec()]), b"[7]".to_vec());
    assert_eq!(json_array(&Vec::new()), b"[]".to_vec());
}

#[test]
fn object_maps_keys_to_records() {
    let records = vec![
        Record { id: "t0".to_string(), value: b"{\"temp\":1}".to_vec() },
        Record { id: "t1".to_string(), value: b"3".to_vec() },
    ];
    assert_eq!(json_object(&records), b"{\"t0\":{\"temp\":1},\"t1\":3}".to_vec());
    assert_eq!(json_object(&Vec::new()), b"{}".to_vec());
}

#[test]
fn object_of_lists_maps_keys_to_arrays() {
    let lists = vec![
        ("a".to_string(), vec![b"1".to_vec(), b"2".to_vec()]),
        ("b".to_string(), vec![b"3".to_vec()]),
    ];
    assert_eq!(json_object_of_lists(&lists), b"{\"a\":[1,2],\"b\":[3]}".to_vec());
}
