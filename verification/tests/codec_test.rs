use clementine::{Data, Error, ErrorKind};

#[test]
fn test_from_string() {
    assert_eq!(
        Data::String(String::from("test_\r\nfrom_string")),
        Data::try_from(String::from("+test_\r\nfrom_string\r\n")).unwrap()
    );
}

#[test]
fn test_from_int() {
    assert_eq!(Data::Int(22), Data::try_from(String::from(":22\r\n")).unwrap());
}

#[test]
fn test_from_invalid_int() {
    assert!(Data::try_from(String::from(":22invalid888\r\n")).is_err());
}

#[test]
fn test_serialize_string() {
    assert_eq!(
        "+test\r\n_serialize\r\n_string\r\n",
        Data::String(String::from("test\r\n_serialize\r\n_string")).into_string()
    );
}

#[test]
fn test_serialize_int() {
    assert_eq!(":666\r\n", Data::Int(666).into_string());
}

#[test]
fn test_serialize_json() {
    assert_eq!(
        "?{\"age\":18,\"name\":\"David\"}\r\n",
        Data::json("{\"name\": \"David\", \"age\": 18}").unwrap().into_string()
    );
}

#[test]
fn test_serializble_into() {
    assert_eq!("+666\r\n", Data::String(String::from("666")).into_string());
    assert_eq!(":666\r\n", Data::Int(666).into_string());
}

#[test]
fn test_try_from_invalid() {
    assert!(Data::try_from(String::from("")).is_err());
    assert!(Data::try_from(String::from("\r\n")).is_err());
    assert!(Data::try_from(String::from("11111")).is_err());
}

#[test]
fn test_try_from_string() {
    assert_eq!(
        Data::String(String::from("666")),
        Data::try_from(String::from("+666\r\n")).unwrap()
    );
}

#[test]
fn test_try_from_int() {
    assert_eq!(Data::Int(666), Data::try_from(String::from(":666\r\n")).unwrap());
}

#[test]
fn test_try_from_json() {
    assert_eq!(
        Data::json("{\"name\": \"David\", \"age\": 18}").unwrap(),
        Data::try_from(String::from("?{\"age\":18,\"name\":\"David\"}\r\n")).unwrap()
    );
}

#[test]
fn test_round_trip_empty_string() {
    let encoded = Data::String(String::from("")).into_string();
    assert_eq!("+\r\n", encoded);
    assert_eq!(Data::String(String::from("")), Data::try_from(encoded).unwrap());
}

#[test]
fn test_round_trip_negative_int() {
    let encoded = Data::Int(-12345).into_string();
    assert_eq!(":-12345\r\n", encoded);
    assert_eq!(Data::Int(-12345), Data::try_from(encoded).unwrap());
}

#[test]
fn test_round_trip_extreme_ints() {
    for v in [i64::MIN, i64::MIN + 1, -1, 0, 1, i64::MAX - 1, i64::MAX] {
        let encoded = Data::Int(v).into_string();
        assert_eq!(Data::Int(v), Data::try_from(encoded).unwrap());
    }
    assert_eq!(":-9223372036854775808\r\n", Data::Int(i64::MIN).into_string());
    assert_eq!(":9223372036854775807\r\n", Data::Int(i64::MAX).into_string());
}

#[test]
fn test_int_with_plus_sign() {
    assert_eq!(Data::Int(22), Data::try_from(String::from(":+22\r\n")).unwrap());
}

#[test]
fn test_int_overflow_rejected() {
    let e = Data::try_from(String::from(":9223372036854775808\r\n")).unwrap_err();
    assert_eq!(ErrorKind::InvalidSerializedString, e.kind);
    let e = Data::try_from(String::from(":-9223372036854775809\r\n")).unwrap_err();
    assert_eq!(ErrorKind::InvalidSerializedString, e.kind);
}

#[test]
fn test_bad_tag_rejected() {
    let e = Data::try_from(String::from("*abc\r\n")).unwrap_err();
    assert_eq!(ErrorKind::InvalidSerializedString, e.kind);
}

#[test]
fn test_bad_json_rejected() {
    let e = Data::try_from(String::from("?{not json}\r\n")).unwrap_err();
    assert_eq!(ErrorKind::JsonParseError, e.kind);
    let e = Data::json("{not json}").unwrap_err();
    assert_eq!(ErrorKind::JsonParseError, e.kind);
}

#[test]
fn test_round_trip_json() {
    let d = Data::json("[1, 2, {\"b\": null, \"a\": true}]").unwrap();
    let encoded = d.clone().into_string();
    assert_eq!("?[1,2,{\"a\":true,\"b\":null}]\r\n", encoded);
    assert_eq!(d, Data::try_from(encoded).unwrap());
}

#[test]
fn test_round_trip_json_floats() {
    // Doubles whose parse is only exact with correctly rounded float
    // parsing; canonicalization must be a fixed point for them too.
    for text in [
        "51.248178375505404",
        "-93.31137037688033",
        "-36.573994842753436",
        "2.0030397744267762e-253",
        "7.101215824554616e260",
    ] {
        let d = Data::json(text).unwrap();
        let encoded = d.clone().into_string();
        let payload = String::from(&encoded[1..encoded.len() - 2]);
        assert_eq!(d, Data::try_from(encoded).unwrap());
        assert_eq!(d, Data::json(&payload).unwrap());
    }
}

#[test]
fn test_error_messages() {
    assert_eq!("database already closed", Error::new(ErrorKind::DataBaseClosed).message());
    assert_eq!("invalid serialized string", Error::new(ErrorKind::InvalidSerializedString).message());
    assert_eq!("json parse error", Error::new(ErrorKind::JsonParseError).message());
    assert_eq!("io error", Error::new(ErrorKind::IOError).message());
    assert_eq!("item not found", Error::new(ErrorKind::ItemNotFound).message());
    assert_eq!("transaction is not writable", Error::new(ErrorKind::TransactionNotWritable).message());
    assert_eq!("sync duration must > 5 second", Error::new(ErrorKind::InvalidSyncDuration).message());
    assert_eq!("rwlock poison error", Error::new(ErrorKind::RWLockPoisonError).message());
}
