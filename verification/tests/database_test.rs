use clementine::{Config, Data, Database, Error, ErrorKind, PendingIo, PersistType, SyncPolicy, Transaction};

fn apply_io(disk: &mut String, io: PendingIo) {
    match io {
        PendingIo::Idle => {}
        PendingIo::Append(t) => disk.push_str(&t),
        PendingIo::Rewrite(t) => *disk = t,
    }
}

fn file_config() -> Config {
    Config { persist_type: PersistType::File(String::from("p.log")), sync_policy: SyncPolicy::Always }
}

#[test]
fn database_test_new() {
    let db = Database::new(Config::default()).unwrap();
    assert_eq!(false, db.is_closed());
    assert_eq!(SyncPolicy::Never, db.sync_policy());
}

#[test]
fn test_close() {
    let mut db = Database::new(Config::default()).unwrap();
    assert!(db.close().is_ok());
    assert!(db.close().is_err());
    assert!(db.close().is_err());
}

#[test]
fn test_double_close_kind() {
    let mut db = Database::new(Config::default()).unwrap();
    db.close().unwrap();
    let e = db.close().unwrap_err();
    assert_eq!(ErrorKind::DataBaseClosed, e.kind);
    let read_after = db.read(|_txn: &Transaction| -> Result<(), Error> { Ok(()) });
    assert_eq!(ErrorKind::DataBaseClosed, read_after.unwrap_err().kind);
    let update_after = db.update(|txn: Transaction| (txn, Ok(())));
    assert_eq!(ErrorKind::DataBaseClosed, update_after.unwrap_err().kind);
}

#[test]
fn test_read_empty() {
    let db = Database::new(Config::default()).unwrap();
    let result = db.read(|txn: &Transaction| -> Result<(), Error> {
        assert!(txn.get("123").is_none());
        Ok(())
    });
    assert!(result.is_ok());
}

#[test]
fn test_update() {
    let mut db = Database::new(Config::default()).unwrap();
    let result = db.update(|mut txn: Transaction| {
        assert!(txn.update("1", Data::Int(1)).is_none());
        assert_eq!(Data::Int(1), *txn.get("1").unwrap());
        (txn, Ok(()))
    });
    assert!(result.is_ok());
}

#[test]
fn crud_test_test_remove() {
    let mut db = Database::new(Config::default()).unwrap();
    let update_result = db.update(|mut txn: Transaction| {
        assert!(txn.update("1", Data::Int(1)).is_none());
        assert_eq!(&Data::Int(1), txn.get("1").unwrap());
        assert!(txn.remove("1").is_some());
        assert!(txn.get("1").is_none());
        (txn, Ok(()))
    });
    assert!(update_result.is_ok());

    let read_result = db.read(|txn: &Transaction| -> Result<(), Error> {
        assert!(txn.get("1").is_none());
        Ok(())
    });
    assert!(read_result.is_ok());
}

#[test]
fn test_remove_all() {
    let mut db = Database::new(Config::default()).unwrap();
    let result = db.update(|mut txn: Transaction| {
        assert!(txn.update("1", Data::Int(1)).is_none());
        assert!(txn.update("2", Data::Int(2)).is_none());
        assert!(txn.update("3", Data::Int(3)).is_none());
        assert_eq!(3, txn.len());
        txn.clear();
        assert_eq!(0, txn.len());
        assert!(txn.is_empty());
        (txn, Ok(()))
    });
    assert!(result.is_ok());
}

#[test]
fn test_rollback_update() {
    let mut db = Database::new(Config::default()).unwrap();
    let update_ok_result = db.update(|mut txn: Transaction| {
        txn.update("1", Data::Int(1));
        (txn, Ok(()))
    });
    assert!(update_ok_result.is_ok());

    let update_fail_result = db.update(|mut txn: Transaction| {
        txn.update("1", Data::Int(2));
        (txn, Err(Error::new(ErrorKind::DataBaseClosed)))
    });
    assert!(update_fail_result.is_ok());

    let read_result = db.read(|txn: &Transaction| -> Result<(), Error> {
        assert_eq!(&Data::Int(1), txn.get("1").unwrap());
        Ok(())
    });
    assert!(read_result.is_ok());
}

#[test]
fn test_rollback_remove() {
    let mut db = Database::new(Config::default()).unwrap();
    let update_ok_result = db.update(|mut txn: Transaction| {
        txn.update("1", Data::Int(1));
        (txn, Ok(()))
    });
    assert!(update_ok_result.is_ok());

    let read_result = db.read(|txn: &Transaction| -> Result<(), Error> {
        assert_eq!(&Data::Int(1), txn.get("1").unwrap());
        Ok(())
    });
    assert!(read_result.is_ok());

    let update_fail_result = db.update(|mut txn: Transaction| {
        txn.remove("1");
        (txn, Err(Error::new(ErrorKind::DataBaseClosed)))
    });
    assert!(update_fail_result.is_ok());

    let read_rollback_result = db.read(|txn: &Transaction| -> Result<(), Error> {
        assert_eq!(&Data::Int(1), txn.get("1").unwrap());
        Ok(())
    });
    assert!(read_rollback_result.is_ok());
}

#[test]
fn test_rollback_remove_all() {
    let mut db = Database::new(Config::default()).unwrap();
    let update_result = db.update(|mut txn: Transaction| {
        txn.update("1", Data::Int(1));
        txn.update("2", Data::Int(2));
        (txn, Ok(()))
    });
    assert!(update_result.is_ok());

    let update_fail_result = db.update(|mut txn: Transaction| {
        txn.update("1", Data::Int(1));
        txn.clear();
        (txn, Err(Error::new(ErrorKind::DataBaseClosed)))
    });
    assert!(update_fail_result.is_ok());

    let read_rollback_result = db.read(|txn: &Transaction| -> Result<(), Error> {
        assert_eq!(&Data::Int(1), txn.get("1").unwrap());
        assert_eq!(&Data::Int(2), txn.get("2").unwrap());
        Ok(())
    });
    assert!(read_rollback_result.is_ok());
}

#[test]
fn scenario_hello() {
    let mut db = Database::new(Config::default()).unwrap();
    db.update(|mut txn: Transaction| {
        assert!(txn.get("hello").is_none());
        txn.update("hello", Data::String(String::from("world")));
        assert_eq!(&Data::String(String::from("world")), txn.get("hello").unwrap());
        (txn, Ok(()))
    })
    .unwrap();
    db.read(|txn: &Transaction| -> Result<(), Error> {
        assert_eq!(&Data::String(String::from("world")), txn.get("hello").unwrap());
        Ok(())
    })
    .unwrap();
}

#[test]
fn scenario_read_only() {
    let db = Database::new(Config::default()).unwrap();
    db.read(|txn: &Transaction| -> Result<(), Error> {
        assert!(txn.get("hello").is_none());
        Ok(())
    })
    .unwrap();
    db.read(|txn: &Transaction| -> Result<(), Error> {
        assert!(txn.is_empty());
        assert_eq!(0, txn.len());
        Ok(())
    })
    .unwrap();
}

#[test]
fn scenario_rollback_of_clear() {
    let mut db = Database::new(Config::default()).unwrap();
    db.update(|mut txn: Transaction| {
        txn.update("1", Data::Int(1));
        txn.update("2", Data::Int(2));
        (txn, Ok(()))
    })
    .unwrap();
    db.update(|mut txn: Transaction| {
        txn.update("1", Data::Int(1));
        txn.clear();
        (txn, Err(Error::new(ErrorKind::IOError)))
    })
    .unwrap();
    db.read(|txn: &Transaction| -> Result<(), Error> {
        assert_eq!(&Data::Int(1), txn.get("1").unwrap());
        assert_eq!(&Data::Int(2), txn.get("2").unwrap());
        Ok(())
    })
    .unwrap();
}

#[test]
fn rollback_of_writes_after_clear() {
    let mut db = Database::new(Config::default()).unwrap();
    db.update(|mut txn: Transaction| {
        txn.update("1", Data::Int(1));
        (txn, Ok(()))
    })
    .unwrap();
    db.update(|mut txn: Transaction| {
        txn.clear();
        txn.update("9", Data::Int(9));
        (txn, Err(Error::new(ErrorKind::IOError)))
    })
    .unwrap();
    db.read(|txn: &Transaction| -> Result<(), Error> {
        assert_eq!(1, txn.len());
        assert_eq!(&Data::Int(1), txn.get("1").unwrap());
        assert!(txn.get("9").is_none());
        Ok(())
    })
    .unwrap();
}

#[test]
fn scenario_durability() {
    let mut disk = String::new();

    let mut db = Database::new(file_config()).unwrap();
    apply_io(&mut disk, db.take_staged());
    db.update(|mut txn: Transaction| {
        txn.update("k", Data::Int(42));
        (txn, Ok(()))
    })
    .unwrap();
    apply_io(&mut disk, db.take_staged());
    db.close().unwrap();

    let db2 = Database::open_from_log(file_config(), &disk).unwrap();
    db2.read(|txn: &Transaction| -> Result<(), Error> {
        assert_eq!(&Data::Int(42), txn.get("k").unwrap());
        Ok(())
    })
    .unwrap();

    let mut db2 = db2;
    db2.save().unwrap();
    apply_io(&mut disk, db2.take_staged());
    assert_eq!("$1\r\nk5\r\n:42\r\n", disk);

    let db3 = Database::open_from_log(file_config(), &disk).unwrap();
    db3.read(|txn: &Transaction| -> Result<(), Error> {
        assert_eq!(&Data::Int(42), txn.get("k").unwrap());
        Ok(())
    })
    .unwrap();
}

#[test]
fn durability_replays_committed_transactions() {
    let mut disk = String::new();
    let mut db = Database::new(file_config()).unwrap();
    apply_io(&mut disk, db.take_staged());

    db.update(|mut txn: Transaction| {
        txn.update("a", Data::Int(1));
        txn.update("b", Data::String(String::from("x")));
        (txn, Ok(()))
    })
    .unwrap();
    apply_io(&mut disk, db.take_staged());

    db.update(|mut txn: Transaction| {
        txn.remove("a");
        txn.update("c", Data::json("{\"v\": true}").unwrap());
        (txn, Ok(()))
    })
    .unwrap();
    apply_io(&mut disk, db.take_staged());

    // A transaction that rolls back leaves nothing to flush.
    db.update(|mut txn: Transaction| {
        txn.clear();
        (txn, Err(Error::new(ErrorKind::IOError)))
    })
    .unwrap();
    assert_eq!(PendingIo::Idle, db.take_staged());

    let db2 = Database::open_from_log(file_config(), &disk).unwrap();
    db2.read(|txn: &Transaction| -> Result<(), Error> {
        assert_eq!(2, txn.len());
        assert!(txn.get("a").is_none());
        assert_eq!(&Data::String(String::from("x")), txn.get("b").unwrap());
        assert_eq!(&Data::json("{\"v\":true}").unwrap(), txn.get("c").unwrap());
        Ok(())
    })
    .unwrap();
}

#[test]
fn save_is_idempotent() {
    let mut disk = String::new();
    let mut db = Database::new(file_config()).unwrap();
    apply_io(&mut disk, db.take_staged());
    db.update(|mut txn: Transaction| {
        txn.update("k1", Data::Int(1));
        txn.update("k2", Data::Int(2));
        (txn, Ok(()))
    })
    .unwrap();
    apply_io(&mut disk, db.take_staged());

    assert_eq!(0, db.flushes);
    db.save().unwrap();
    apply_io(&mut disk, db.take_staged());
    let first_image = disk.clone();
    db.save().unwrap();
    apply_io(&mut disk, db.take_staged());
    assert_eq!(first_image, disk);
    assert_eq!(2, db.flushes);

    let db2 = Database::open_from_log(file_config(), &disk).unwrap();
    db2.read(|txn: &Transaction| -> Result<(), Error> {
        assert_eq!(2, txn.len());
        assert_eq!(&Data::Int(1), txn.get("k1").unwrap());
        assert_eq!(&Data::Int(2), txn.get("k2").unwrap());
        Ok(())
    })
    .unwrap();
}

#[test]
fn update_reports_ok_even_when_closure_fails() {
    let mut db = Database::new(Config::default()).unwrap();
    let r = db.update(|txn: Transaction| (txn, Err(Error::new(ErrorKind::ItemNotFound))));
    assert!(r.is_ok());
}

#[test]
fn read_propagates_closure_error() {
    let db = Database::new(Config::default()).unwrap();
    let r = db.read(|_txn: &Transaction| -> Result<(), Error> {
        Err(Error::new(ErrorKind::ItemNotFound))
    });
    assert_eq!(ErrorKind::ItemNotFound, r.unwrap_err().kind);
}

#[test]
fn never_policy_stages_nothing() {
    let mut db = Database::new(Config {
        persist_type: PersistType::File(String::from("p.log")),
        sync_policy: SyncPolicy::Never,
    })
    .unwrap();
    let _ = db.take_staged();
    db.update(|mut txn: Transaction| {
        txn.update("k", Data::Int(1));
        (txn, Ok(()))
    })
    .unwrap();
    assert_eq!(PendingIo::Idle, db.take_staged());
}
