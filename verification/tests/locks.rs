use tableland::{Connection, LockKind, LockState};

fn handle() -> Connection {
    Connection { lock: LockKind::Unlocked }
}

fn table(read: usize, write: Option<bool>) -> LockState {
    LockState { read, write }
}

#[test]
fn ranks_are_ordered() {
    assert_eq!(LockKind::Unlocked.rank(), 0);
    assert_eq!(LockKind::Shared.rank(), 1);
    assert_eq!(LockKind::Reserved.rank(), 2);
    assert_eq!(LockKind::Pending.rank(), 3);
    assert_eq!(LockKind::Exclusive.rank(), 4);
}

#[test]
fn asking_for_the_lock_held_changes_nothing() {
    for lock in [
        LockKind::Unlocked,
        LockKind::Shared,
        LockKind::Reserved,
        LockKind::Pending,
        LockKind::Exclusive,
    ] {
        let mut c = Connection { lock };
        let mut t = table(3, Some(true));
        assert!(c.lock(&mut t, lock));
        assert_eq!(c.lock, lock);
        assert_eq!(t, table(3, Some(true)));
    }
}

#[test]
fn readers_are_counted() {
    let mut t = LockState::new();
    assert_eq!(t, table(0, None));
    let mut a = handle();
    let mut b = handle();
    assert!(a.lock(&mut t, LockKind::Shared));
    assert!(b.lock(&mut t, LockKind::Shared));
    assert_eq!(t, table(2, None));
    assert_eq!(a.current_lock(), LockKind::Shared);
    assert!(a.lock(&mut t, LockKind::Unlocked));
    assert_eq!(t, table(1, None));
    assert_eq!(a.current_lock(), LockKind::Unlocked);
    assert!(b.lock(&mut t, LockKind::Unlocked));
    assert_eq!(t, table(0, None));
}

#[test]
fn reserved_needs_shared_and_no_writer() {
    let mut t = table(0, None);
    let mut a = handle();
    assert!(!a.lock(&mut t, LockKind::Reserved));
    assert_eq!(a.lock, LockKind::Unlocked);
    assert!(a.lock(&mut t, LockKind::Shared));
    assert!(a.lock(&mut t, LockKind::Reserved));
    assert_eq!(a.lock, LockKind::Reserved);
    assert_eq!(t, table(0, Some(false)));
    let mut b = handle();
    assert!(b.lock(&mut t, LockKind::Shared));
    assert!(!b.lock(&mut t, LockKind::Reserved));
    assert_eq!(b.lock, LockKind::Shared);
    assert_eq!(t, table(1, Some(false)));
    assert!(a.reserved(&t));
    assert!(b.reserved(&t));
}

#[test]
fn pending_cannot_be_asked_for() {
    for lock in [LockKind::Unlocked, LockKind::Shared, LockKind::Reserved, LockKind::Exclusive] {
        let mut c = Connection { lock };
        let mut t = table(1, Some(false));
        assert!(!c.lock(&mut t, LockKind::Pending));
        assert_eq!(c.lock, lock);
        assert_eq!(t, table(1, Some(false)));
    }
}

#[test]
fn exclusive_waits_for_readers() {
    let mut t = LockState::new();
    let mut writer = handle();
    let mut reader = handle();
    assert!(writer.lock(&mut t, LockKind::Shared));
    assert!(reader.lock(&mut t, LockKind::Shared));
    assert!(writer.lock(&mut t, LockKind::Reserved));
    assert_eq!(t, table(1, Some(false)));
    assert!(!writer.lock(&mut t, LockKind::Exclusive));
    assert_eq!(writer.lock, LockKind::Pending);
    assert_eq!(t, table(1, Some(true)));
    // no new reader while the writer waits
    let mut late = handle();
    assert!(!late.lock(&mut t, LockKind::Shared));
    assert_eq!(late.lock, LockKind::Unlocked);
    assert_eq!(t, table(1, Some(true)));
    // the reader leaves, the writer gets in
    assert!(reader.lock(&mut t, LockKind::Unlocked));
    assert!(writer.lock(&mut t, LockKind::Exclusive));
    assert_eq!(writer.lock, LockKind::Exclusive);
    assert_eq!(t, table(0, Some(true)));
    assert!(!late.lock(&mut t, LockKind::Exclusive));
    assert!(!late.lock(&mut t, LockKind::Shared));
    // the writer steps down
    assert!(writer.lock(&mut t, LockKind::Shared));
    assert_eq!(t, table(1, None));
    assert!(late.lock(&mut t, LockKind::Shared));
    assert_eq!(t, table(2, None));
}

#[test]
fn exclusive_from_shared_gives_up_the_read() {
    let mut t = LockState::new();
    let mut a = handle();
    assert!(a.lock(&mut t, LockKind::Shared));
    assert!(a.lock(&mut t, LockKind::Exclusive));
    assert_eq!(a.lock, LockKind::Exclusive);
    assert_eq!(t, table(0, Some(true)));
    assert!(a.lock(&mut t, LockKind::Unlocked));
    assert_eq!(t, table(0, None));
}

#[test]
fn exclusive_is_refused_beside_a_writer() {
    let mut t = table(1, Some(false));
    let mut a = Connection { lock: LockKind::Shared };
    assert!(!a.lock(&mut t, LockKind::Exclusive));
    assert_eq!(a.lock, LockKind::Shared);
    assert_eq!(t, table(1, Some(false)));
}

#[test]
fn reserved_tells_of_a_writer() {
    let t = table(0, None);
    assert!(!handle().reserved(&t));
    assert!(!Connection { lock: LockKind::Shared }.reserved(&t));
    assert!(Connection { lock: LockKind::Reserved }.reserved(&t));
    assert!(Connection { lock: LockKind::Pending }.reserved(&t));
    assert!(Connection { lock: LockKind::Exclusive }.reserved(&t));
    assert!(handle().reserved(&table(0, Some(false))));
    assert!(handle().reserved(&table(0, Some(true))));
}

#[test]
fn release_gives_up_the_lock() {
    let mut t = table(2, None);
    let mut a = Connection { lock: LockKind::Shared };
    a.release(&mut t);
    assert_eq!(a.lock, LockKind::Unlocked);
    assert_eq!(t, table(1, None));
    a.release(&mut t);
    assert_eq!(t, table(1, None));
    let mut w = Connection { lock: LockKind::Exclusive };
    let mut t = table(0, Some(true));
    w.release(&mut t);
    assert_eq!(w.lock, LockKind::Unlocked);
    assert_eq!(t, table(0, None));
}

#[test]
fn the_table_admits_what_it_counts() {
    assert!(table(0, None).check(LockKind::Unlocked));
    assert!(!table(0, None).check(LockKind::Shared));
    assert!(table(1, None).check(LockKind::Shared));
    assert!(table(0, Some(true)).check(LockKind::Exclusive));
    assert!(!table(usize::MAX, None).check(LockKind::Unlocked));
}

#[test]
fn no_reader_beside_an_exclusive_lock() {
    // every sequence of three requests on two handles, from an empty table
    let kinds = [
        LockKind::Unlocked,
        LockKind::Shared,
        LockKind::Reserved,
        LockKind::Pending,
        LockKind::Exclusive,
    ];
    let mut runs = 0;
    for first in 0..10 {
        for second in 0..10 {
            for third in 0..10 {
                let mut t = LockState::new();
                let mut handles = [handle(), handle()];
                for request in [first, second, third] {
                    let who = request / 5;
                    let to = kinds[request % 5];
                    assert!(t.check(handles[who].lock));
                    let before = handles[who].lock;
                    let granted = handles[who].lock(&mut t, to);
                    if to == LockKind::Exclusive && granted {
                        assert_eq!(t, table(0, Some(true)));
                    }
                    if handles[who].lock == LockKind::Pending && before != LockKind::Pending {
                        assert!(!granted);
                        assert_eq!(t.write, Some(true));
                        assert!(t.read > 0);
                    }
                    let readers = handles.iter().filter(|h| h.lock == LockKind::Shared).count();
                    assert_eq!(t.read, readers);
                    let writers = handles.iter().filter(|h| h.lock.rank() > 1).count();
                    assert_eq!(t.write.is_some(), writers == 1);
                    assert!(writers <= 1);
                }
                runs += 1;
            }
        }
    }
    assert_eq!(runs, 1000);
}
