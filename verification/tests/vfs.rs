use tableland::{
    BlockStore, Connection, LockKind, OpenAccess, OpenKind, OpenOptions, PagesVfs, State, VfsError,
    DB,
};

fn image(len: usize) -> Vec<u8> {
    let mut data = Vec::with_capacity(len);
    for i in 0..len {
        data.push((i % 251) as u8);
    }
    data
}

fn adapter(data: &[u8], page_size: usize, buck_size: usize) -> PagesVfs<BlockStore> {
    let mut store = BlockStore::new();
    let db = DB::new(&mut store, data, page_size, buck_size).unwrap();
    PagesVfs::new(State { db }, store)
}

fn main_db() -> OpenOptions {
    OpenOptions { kind: OpenKind::MainDb, access: OpenAccess::Write }
}

#[test]
fn only_the_main_database_opens() {
    let vfs = adapter(&[], 16, 4);
    let conn = vfs.open("main.db", main_db()).unwrap();
    assert_eq!(conn.current_lock(), LockKind::Unlocked);
    match vfs.open("other.db", main_db()) {
        Err(VfsError::NotFound(name)) => assert_eq!(name, "other.db"),
        other => panic!("unexpected: {:?}", other),
    }
    match vfs.open("main.db-journal", OpenOptions { kind: OpenKind::MainJournal, access: OpenAccess::Create }) {
        Err(VfsError::NotFound(name)) => assert_eq!(name, "main.db-journal"),
        other => panic!("unexpected: {:?}", other),
    }
    for kind in [
        OpenKind::MainJournal,
        OpenKind::TempDb,
        OpenKind::TempJournal,
        OpenKind::TransientDb,
        OpenKind::SubJournal,
        OpenKind::SuperJournal,
        OpenKind::Wal,
    ] {
        let r = vfs.open("main.db", OpenOptions { kind, access: OpenAccess::Read });
        assert!(matches!(r, Err(VfsError::PermissionDenied)));
    }
}

#[test]
fn the_database_exists_once_it_has_a_page() {
    let empty = adapter(&[], 16, 4);
    assert_eq!(empty.db_exists("main.db").unwrap(), false);
    let full = adapter(&image(16), 16, 4);
    assert_eq!(full.db_exists("main.db").unwrap(), true);
    assert_eq!(full.db_exists("main.db-wal").unwrap(), false);
    assert!(full.delete("main.db-journal").is_ok());
    assert_eq!(full.temporary_name(), "main.db");
    assert_eq!(full.sleep(250), 0);
}

#[test]
fn random_bytes_come_from_the_seed() {
    let vfs = adapter(&[], 16, 4);
    let mut seed = [0u8; 32];
    for (i, b) in seed.iter_mut().enumerate() {
        *b = (i as u8) * 9;
    }
    let mut buffer = [0i8; 70];
    vfs.random(&seed, &mut buffer);
    for (i, b) in buffer.iter().enumerate() {
        assert_eq!(*b, seed[i % 32] as i8);
    }
    assert_eq!(buffer[31], 31u8.wrapping_mul(9) as i8);
    assert_eq!(buffer[31], 23);
    assert_eq!(buffer[15], -121);
    let mut again = [0i8; 70];
    vfs.random(&seed, &mut again);
    assert_eq!(buffer, again);
    let mut short = [5i8; 3];
    vfs.random(&[0xff; 32], &mut short);
    assert_eq!(short, [-1i8; 3]);
    let mut none: [i8; 0] = [];
    vfs.random(&seed, &mut none);
}

#[test]
fn size_is_pages_times_page_size() {
    let vfs = adapter(&image(3 * 16 + 1), 16, 4);
    let conn = vfs.open("main.db", main_db()).unwrap();
    assert_eq!(conn.page_count(&vfs), 4);
    assert_eq!(conn.size(&vfs).unwrap(), 64);
    let empty = adapter(&[], 4096, 256);
    assert_eq!(conn.size(&empty).unwrap(), 0);
}

#[test]
fn reads_stay_within_a_page() {
    let data = image(5 * 16 + 4);
    let mut vfs = adapter(&data, 16, 2);
    let mut conn = vfs.open("main.db", main_db()).unwrap();
    let mut buf = [0u8; 16];
    conn.read_exact_at(&mut vfs, &mut buf, 32).unwrap();
    assert_eq!(buf.to_vec(), data[32..48].to_vec());
    let mut part = [0u8; 5];
    conn.read_exact_at(&mut vfs, &mut part, 3 * 16 + 11).unwrap();
    assert_eq!(part.to_vec(), data[59..64].to_vec());
    // one byte too many
    let mut over = [1u8; 6];
    let r = conn.read_exact_at(&mut vfs, &mut over, 3 * 16 + 11);
    assert!(matches!(r, Err(VfsError::UnexpectedEof)));
    assert_eq!(over, [1u8; 6]);
    let mut long = [0u8; 17];
    assert!(matches!(conn.read_exact_at(&mut vfs, &mut long, 0), Err(VfsError::UnexpectedEof)));
    // the short last page is filled up with zeros
    let mut last = [9u8; 16];
    conn.read_exact_at(&mut vfs, &mut last, 5 * 16).unwrap();
    let mut want = data[80..].to_vec();
    want.resize(16, 0);
    assert_eq!(last.to_vec(), want);
    // past the end the file reads as zeros
    let mut past = [9u8; 8];
    conn.read_exact_at(&mut vfs, &mut past, 6 * 16 + 8).unwrap();
    assert_eq!(past, [0u8; 8]);
    conn.read_exact_at(&mut vfs, &mut past, u64::MAX - 7).unwrap();
    assert_eq!(past, [0u8; 8]);
    let mut nothing: [u8; 0] = [];
    conn.read_exact_at(&mut vfs, &mut nothing, 16).unwrap();
}

#[test]
fn get_page_fills_up_with_zeros() {
    let data = image(16 + 3);
    let mut vfs = adapter(&data, 16, 2);
    let conn = Connection { lock: LockKind::Unlocked };
    assert_eq!(conn.get_page(&mut vfs, 0).unwrap(), data[..16].to_vec());
    let mut last = data[16..].to_vec();
    last.resize(16, 0);
    assert_eq!(conn.get_page(&mut vfs, 1).unwrap(), last);
    assert_eq!(conn.get_page(&mut vfs, 2).unwrap(), vec![0u8; 16]);
}

#[test]
fn a_page_longer_than_a_page_is_refused() {
    let mut vfs = adapter(&image(32), 32, 2);
    vfs.st.db.page_size = 16;
    let conn = Connection { lock: LockKind::Unlocked };
    assert!(matches!(conn.get_page(&mut vfs, 0), Err(VfsError::Other(_))));
    let mut conn = conn;
    let mut buf = [0u8; 4];
    assert!(matches!(conn.read_exact_at(&mut vfs, &mut buf, 0), Err(VfsError::Other(_))));
}

#[test]
fn a_lost_block_is_a_store_failure() {
    let mut vfs = adapter(&image(64), 16, 2);
    vfs.store = BlockStore::new();
    let mut conn = Connection { lock: LockKind::Unlocked };
    let mut buf = [3u8; 4];
    assert!(matches!(conn.read_exact_at(&mut vfs, &mut buf, 0), Err(VfsError::Store(_))));
    assert_eq!(buf, [3u8; 4]);
    assert!(matches!(conn.write_all_at(&mut vfs, &[0u8; 16], 0), Err(VfsError::Store(_))));
    assert!(matches!(conn.set_len(&mut vfs, 16), Err(VfsError::Store(_))));
    assert_eq!(vfs.st.db.page_count, 4);
}

#[test]
fn writes_are_whole_pages() {
    let data = image(4 * 16);
    let mut vfs = adapter(&data, 16, 2);
    let mut conn = vfs.open("main.db", main_db()).unwrap();
    let root = vfs.st.db.page_tree.clone();
    assert!(matches!(conn.write_all_at(&mut vfs, &[1u8; 16], 8), Err(VfsError::Other(_))));
    assert!(matches!(conn.write_all_at(&mut vfs, &[1u8; 15], 16), Err(VfsError::Other(_))));
    assert!(matches!(conn.write_all_at(&mut vfs, &[1u8; 17], 16), Err(VfsError::Other(_))));
    assert!(matches!(conn.write_all_at(&mut vfs, &[], 16), Err(VfsError::Other(_))));
    assert_eq!(vfs.st.db.page_tree, root);
    // over a page
    conn.write_all_at(&mut vfs, &[1u8; 16], 16).unwrap();
    assert_eq!(conn.page_count(&vfs), 4);
    let mut buf = [0u8; 16];
    conn.read_exact_at(&mut vfs, &mut buf, 16).unwrap();
    assert_eq!(buf, [1u8; 16]);
    conn.read_exact_at(&mut vfs, &mut buf, 32).unwrap();
    assert_eq!(buf.to_vec(), data[32..48].to_vec());
    // behind the last page
    conn.write_all_at(&mut vfs, &[2u8; 16], 64).unwrap();
    assert_eq!(conn.page_count(&vfs), 5);
    assert_eq!(conn.size(&vfs).unwrap(), 80);
    conn.read_exact_at(&mut vfs, &mut buf, 64).unwrap();
    assert_eq!(buf, [2u8; 16]);
    assert!(conn.sync(true).is_ok());
    assert!(conn.sync(false).is_ok());
}

#[test]
fn put_page_and_del_last_pages() {
    let data = image(4 * 16);
    let mut vfs = adapter(&data, 16, 2);
    let conn = Connection { lock: LockKind::Unlocked };
    conn.put_page(&mut vfs, 4, &[6u8; 16]).unwrap();
    conn.put_page(&mut vfs, 0, &[5u8; 16]).unwrap();
    assert_eq!(conn.page_count(&vfs), 5);
    assert_eq!(conn.get_page(&mut vfs, 0).unwrap(), vec![5u8; 16]);
    assert_eq!(conn.get_page(&mut vfs, 4).unwrap(), vec![6u8; 16]);
    conn.del_last_pages(&mut vfs, 1).unwrap();
    assert_eq!(conn.page_count(&vfs), 1);
    assert_eq!(conn.get_page(&mut vfs, 0).unwrap(), vec![5u8; 16]);
    assert_eq!(conn.get_page(&mut vfs, 1).unwrap(), vec![0u8; 16]);
    conn.del_last_pages(&mut vfs, 7).unwrap();
    assert_eq!(conn.page_count(&vfs), 1);
}

#[test]
fn set_len_only_shrinks() {
    let data = image(10 * 16);
    let mut vfs = adapter(&data, 16, 4);
    let mut conn = vfs.open("main.db", main_db()).unwrap();
    // growing and keeping the length change nothing
    conn.set_len(&mut vfs, 1000).unwrap();
    assert_eq!(conn.page_count(&vfs), 10);
    conn.set_len(&mut vfs, 160).unwrap();
    assert_eq!(conn.page_count(&vfs), 10);
    conn.set_len(&mut vfs, 145).unwrap();
    assert_eq!(conn.page_count(&vfs), 10);
    conn.set_len(&mut vfs, u64::MAX).unwrap();
    assert_eq!(conn.page_count(&vfs), 10);
    // a length of no pages is left alone too
    conn.set_len(&mut vfs, 0).unwrap();
    assert_eq!(conn.page_count(&vfs), 10);
    // 65 bytes take five pages
    conn.set_len(&mut vfs, 65).unwrap();
    assert_eq!(conn.page_count(&vfs), 5);
    assert_eq!(conn.size(&vfs).unwrap(), 80);
    let mut buf = [9u8; 16];
    conn.read_exact_at(&mut vfs, &mut buf, 64).unwrap();
    assert_eq!(buf.to_vec(), data[64..80].to_vec());
    conn.read_exact_at(&mut vfs, &mut buf, 80).unwrap();
    assert_eq!(buf, [0u8; 16]);
    conn.set_len(&mut vfs, 16).unwrap();
    assert_eq!(conn.page_count(&vfs), 1);
    assert_eq!(vfs.st.db.tree_height, 0);
}

#[test]
fn the_chunk_size_is_the_page_size() {
    let vfs = adapter(&[], 4096, 256);
    let conn = vfs.open("main.db", main_db()).unwrap();
    assert!(conn.set_chunk_size(&vfs, 4096).is_ok());
    assert!(matches!(conn.set_chunk_size(&vfs, 1024), Err(VfsError::Other(_))));
    assert!(matches!(conn.set_chunk_size(&vfs, 0), Err(VfsError::Other(_))));
}

#[test]
fn handles_share_the_lock_table() {
    let mut vfs = adapter(&image(16), 16, 4);
    let mut a = vfs.open("main.db", main_db()).unwrap();
    let mut b = vfs.open("main.db", main_db()).unwrap();
    assert!(a.lock(&mut vfs.lock_state, LockKind::Shared));
    assert!(b.lock(&mut vfs.lock_state, LockKind::Shared));
    assert!(a.lock(&mut vfs.lock_state, LockKind::Reserved));
    assert!(b.reserved(&vfs.lock_state));
    assert!(!a.lock(&mut vfs.lock_state, LockKind::Exclusive));
    assert_eq!(a.current_lock(), LockKind::Pending);
    b.release(&mut vfs.lock_state);
    assert!(a.lock(&mut vfs.lock_state, LockKind::Exclusive));
    a.release(&mut vfs.lock_state);
    assert_eq!(vfs.lock_state.read, 0);
    assert_eq!(vfs.lock_state.write, None);
}
