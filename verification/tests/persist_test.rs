use clementine::{Data, MemoryStore, StoreMap};
use clementine::persist::{encode_set_record, encode_del_record, load_from_str};
use clementine::ErrorKind;

#[test]
fn persist_test_set() {
    let mut store = MemoryStore::default();
    assert!(store.set(String::from("test"), Data::Int(1)).is_ok());
}

#[test]
fn persist_test_remove() {
    let mut store = MemoryStore::default();
    assert!(store.remove(String::from("test")).is_ok());
}

#[test]
fn persist_test_load() {
    assert!(MemoryStore::default().load().unwrap().is_empty());
}

#[test]
fn persist_test_clear() {
    let mut store = MemoryStore::default();
    assert!(store.clear().is_ok());
}

#[test]
fn log_set_record_text() {
    let one = encode_set_record("key", &Data::String(String::from("value")));
    let mut content = one.clone();
    content.push_str(&one);
    assert_eq!("$3\r\nkey8\r\n+value\r\n$3\r\nkey8\r\n+value\r\n", content);
}

#[test]
fn log_del_record_text() {
    let mut content = encode_del_record("key1");
    content.push_str(&encode_del_record("key2"));
    assert_eq!("#4\r\nkey1#4\r\nkey2", content);
}

#[test]
fn log_load_one_record() {
    let tree = load_from_str("$3\r\nkey8\r\n+value\r\n").unwrap();
    assert_eq!(1, tree.len());
    assert_eq!(&Data::String(String::from("value")), tree.get("key").unwrap());
}

#[test]
fn log_load_empty() {
    let tree = load_from_str("").unwrap();
    assert!(tree.is_empty());
}

#[test]
fn log_load_set_then_del() {
    let mut content = String::new();
    content.push_str(&encode_set_record("a", &Data::Int(1)));
    content.push_str(&encode_set_record("b", &Data::Int(2)));
    content.push_str(&encode_del_record("a"));
    content.push_str(&encode_del_record("missing"));
    let tree = load_from_str(&content).unwrap();
    assert_eq!(1, tree.len());
    assert!(tree.get("a").is_none());
    assert_eq!(&Data::Int(2), tree.get("b").unwrap());
}

#[test]
fn log_load_overwrite() {
    let mut content = String::new();
    content.push_str(&encode_set_record("k", &Data::Int(1)));
    content.push_str(&encode_set_record("k", &Data::String(String::from("two"))));
    let tree = load_from_str(&content).unwrap();
    assert_eq!(1, tree.len());
    assert_eq!(&Data::String(String::from("two")), tree.get("k").unwrap());
}

#[test]
fn log_load_bad_tag() {
    let e = load_from_str("%3\r\nkey").unwrap_err();
    assert_eq!(ErrorKind::InvalidSerializedString, e.kind);
}

#[test]
fn log_load_truncated_record() {
    let e = load_from_str("$3\r\nke").unwrap_err();
    assert_eq!(ErrorKind::InvalidSerializedString, e.kind);
    let e = load_from_str("$3\r\nkey9\r\n+value\r\n").unwrap_err();
    assert_eq!(ErrorKind::InvalidSerializedString, e.kind);
    let e = load_from_str("$3\r\n").unwrap_err();
    assert_eq!(ErrorKind::InvalidSerializedString, e.kind);
}

#[test]
fn log_load_bad_length_field() {
    let e = load_from_str("$x3\r\nkey").unwrap_err();
    assert_eq!(ErrorKind::InvalidSerializedString, e.kind);
    let e = load_from_str("$\r\nkey").unwrap_err();
    assert_eq!(ErrorKind::InvalidSerializedString, e.kind);
    let e = load_from_str("$3\nkey").unwrap_err();
    assert_eq!(ErrorKind::InvalidSerializedString, e.kind);
}

#[test]
fn log_load_bad_json_payload() {
    let e = load_from_str("$1\r\nk8\r\n?nope1\r\n").unwrap_err();
    assert_eq!(ErrorKind::JsonParseError, e.kind);
}

#[test]
fn log_load_empty_key() {
    let tree = load_from_str("$0\r\n5\r\n:42\r\n").unwrap();
    assert_eq!(1, tree.len());
    assert_eq!(&Data::Int(42), tree.get("").unwrap());
}

#[test]
fn image_of_empty_store() {
    let m = StoreMap::new();
    assert_eq!("", clementine::persist::store_image(&m));
    assert!(load_from_str("").unwrap().is_empty());
}

#[test]
fn store_keeps_key_order() {
    let mut m = StoreMap::new();
    m.insert("b", Data::Int(2));
    m.insert("a", Data::Int(1));
    m.insert("c", Data::Int(3));
    assert_eq!("a", m.key_at(0).as_str());
    assert_eq!("b", m.key_at(1).as_str());
    assert_eq!("c", m.key_at(2).as_str());
    let image = clementine::persist::store_image(&m);
    assert_eq!("$1\r\na4\r\n:1\r\n$1\r\nb4\r\n:2\r\n$1\r\nc4\r\n:3\r\n", image);
}

#[test]
fn store_insert_replaces() {
    let mut m = StoreMap::new();
    assert!(m.insert("k", Data::Int(1)).is_none());
    assert_eq!(Some(Data::Int(1)), m.insert("k", Data::Int(2)));
    assert_eq!(1, m.len());
    assert_eq!(Some(Data::Int(2)), m.remove("k"));
    assert_eq!(None, m.remove("k"));
    assert!(m.is_empty());
}

#[test]
fn image_replays_to_same_store() {
    let mut m = StoreMap::new();
    m.insert("x", Data::String(String::from("1")));
    m.insert("y", Data::json("{\"n\": 2}").unwrap());
    m.insert("w", Data::Int(-3));
    let image = clementine::persist::store_image(&m);
    let back = load_from_str(&image).unwrap();
    assert_eq!(3, back.len());
    assert_eq!(&Data::String(String::from("1")), back.get("x").unwrap());
    assert_eq!(&Data::json("{\"n\":2}").unwrap(), back.get("y").unwrap());
    assert_eq!(&Data::Int(-3), back.get("w").unwrap());
}
