use tableland::storage::{StorageWrite, U256};
use tableland::{
    conn_sleep, randomness, stable64_grow, stable64_size, stable_capacity, stable_grow_bytes, Actor,
    BlockStore, ConstructorParams, Error, ExitKind, StableMemoryError, StorageStatus,
    SQLITE_PAGE_SIZE,
};

#[test]
fn the_constructor_builds_the_state() {
    let mut store = BlockStore::new();
    let mut data = vec![0u8; 3 * 4096 + 10];
    data[4096] = 42;
    let st = Actor::constructor(&mut store, ConstructorParams { db: data.clone(), buck_size: 2 })
        .unwrap();
    assert_eq!(st.db.page_size, SQLITE_PAGE_SIZE);
    assert_eq!(st.db.page_size, 4096);
    assert_eq!(st.db.buck_size, 2);
    assert_eq!(st.db.page_count, 4);
    assert_eq!(st.db.tree_height, 1);
    assert_eq!(st.db.get_page(&mut store, 1).unwrap(), data[4096..8192].to_vec());
    assert!(Actor::is_new(&st) == false);
    let empty = Actor::constructor(&mut store, ConstructorParams { db: vec![], buck_size: 256 })
        .unwrap();
    assert!(Actor::is_new(&empty));
}

#[test]
fn the_constructor_refuses_a_bad_fan_out() {
    let mut store = BlockStore::new();
    let err = Actor::constructor(&mut store, ConstructorParams { db: vec![1, 2, 3], buck_size: 1 })
        .unwrap_err();
    assert!(matches!(err, Error::IllegalArgument(_)));
    assert_eq!(err.exit(), ExitKind::IllegalArgument);
}

#[test]
fn rows_add_up() {
    let mut total = 0;
    for n in [0usize, 1, 1] {
        total = Actor::count_rows(total, Ok(n)).unwrap();
    }
    assert_eq!(total, 2);
    let err = Actor::count_rows(total, Err("no such table: t".to_string())).unwrap_err();
    assert!(matches!(err, Error::SQLiteError(_)));
    assert_eq!(err.to_string(), "no such table: t");
    assert_eq!(err.exit(), ExitKind::IllegalState);
}

#[test]
fn engine_settings_are_checked() {
    assert!(Actor::check_page_size(4096).is_ok());
    let err = Actor::check_page_size(1024).unwrap_err();
    assert_eq!(err.to_string(), "db must use page_size = 4096");
    assert_eq!(err.exit(), ExitKind::IllegalState);
    assert!(Actor::check_journal_mode("memory").is_ok());
    let err = Actor::check_journal_mode("delete").unwrap_err();
    assert_eq!(err.to_string(), "db must use journal_mode = MEMORY");
    assert_eq!(err.exit(), ExitKind::IllegalState);
    assert!(Actor::check_journal_mode("MEMORY").is_err());
    assert!(Actor::check_journal_mode("").is_err());
}

#[test]
fn an_empty_statement_is_refused() {
    assert!(Actor::check_statement("select 1").is_ok());
    assert!(Actor::check_statement(" ").is_ok());
    let err = Actor::check_statement("").unwrap_err();
    assert!(matches!(err, Error::IllegalArgument(_)));
    assert_eq!(err.exit(), ExitKind::IllegalArgument);
}

#[test]
fn unknown_methods_fall_back() {
    assert!(Actor::fallback(1 << 24).is_ok());
    assert!(Actor::fallback(u64::MAX).is_ok());
    for method in [0u64, 2, (1 << 24) - 1] {
        let err = Actor::fallback(method).unwrap_err();
        assert!(matches!(err, Error::UnhandledMessage(_)));
        assert_eq!(err.exit(), ExitKind::UnhandledMessage);
    }
    assert_eq!(Actor::name(), "Tableland");
}

#[test]
fn errors_keep_their_message() {
    assert_eq!(Error::from("boom".to_string()).to_string(), "boom");
    assert!(matches!(Error::from("boom".to_string()), Error::Passthrough(_)));
    assert_eq!(Error::IllegalArgument("bad".to_string()).to_string(), "bad");
    assert_eq!(Error::UnhandledMessage("what".to_string()).to_string(), "what");
    let register = Error::from(sqlite_vfs::RegisterError::Register(7));
    assert!(matches!(register, Error::RegisterError(_)));
    assert_eq!(register.to_string(), "registering sqlite vfs failed with error code: 7");
    assert_eq!(register.exit(), ExitKind::IllegalState);
    assert_eq!(Error::SQLiteError("x".to_string()).exit(), ExitKind::IllegalState);
    assert_eq!(Error::Passthrough("x".to_string()).exit(), ExitKind::IllegalState);
}

#[test]
fn randomness_is_zeros() {
    let mut buf = [7u8; 40];
    assert!(randomness(&mut buf).is_ok());
    assert_eq!(buf, [0u8; 40]);
    let mut none: [u8; 0] = [];
    assert!(randomness(&mut none).is_ok());
}

#[test]
fn stable_memory_is_fixed() {
    assert_eq!(stable64_size(), 512 * 1024 * 1024);
    assert_eq!(stable_capacity(), 512 * 1024 * 1024 * 65536);
    assert_eq!(stable_capacity(), 1 << 45);
    assert_eq!(stable64_grow(0), Ok(0));
    assert_eq!(stable64_grow(u64::MAX), Ok(0));
    assert_eq!(stable_grow_bytes(0), Ok(0));
    assert_eq!(stable_grow_bytes(65537), Ok(0));
    assert_eq!(stable_grow_bytes(u64::MAX), Ok(0));
    conn_sleep(5);
    assert_eq!(StableMemoryError::OutOfMemory.to_string(), "Out of memory");
    assert_eq!(StableMemoryError::OutOfBounds.to_string(), "Read exceeds allocated memory");
}

#[test]
fn storage_writes_are_told_apart() {
    let one = U256 { hi: 0, lo: 1 };
    let two = U256 { hi: 1, lo: 1 };
    assert_eq!(StorageStatus::decide(None, None), (StorageStatus::Unchanged, StorageWrite::Keep));
    assert_eq!(
        StorageStatus::decide(Some(one), None),
        (StorageStatus::Deleted, StorageWrite::Delete)
    );
    assert_eq!(
        StorageStatus::decide(Some(one), Some(one)),
        (StorageStatus::Unchanged, StorageWrite::Keep)
    );
    assert_eq!(
        StorageStatus::decide(Some(one), Some(two)),
        (StorageStatus::Modified, StorageWrite::Store(two))
    );
    assert_eq!(
        StorageStatus::decide(None, Some(two)),
        (StorageStatus::Added, StorageWrite::Store(two))
    );
}
