use cid::Cid;
use tableland::{Actor, BlockStore, Cas, ConstructorParams, Error, ExitKind, DB};

fn image(len: usize) -> Vec<u8> {
    let mut data = Vec::with_capacity(len);
    for i in 0..len {
        data.push((i % 251) as u8);
    }
    data
}

/// A store that refuses every write after the first `writes_left`.
struct FailingStore {
    inner: BlockStore,
    writes_left: usize,
}

impl Cas for FailingStore {
    fn put_page(&mut self, page: &[u8]) -> Result<Cid, Error> {
        if self.writes_left == 0 {
            return Err(Error::Passthrough("store is full".to_string()));
        }
        self.writes_left -= 1;
        self.inner.put_page(page)
    }

    fn put_bucket(&mut self, links: &[Cid]) -> Result<Cid, Error> {
        if self.writes_left == 0 {
            return Err(Error::Passthrough("store is full".to_string()));
        }
        self.writes_left -= 1;
        self.inner.put_bucket(links)
    }

    fn get_page(&mut self, cid: &Cid) -> Result<Vec<u8>, Error> {
        self.inner.get_page(cid)
    }

    fn get_bucket(&mut self, cid: &Cid) -> Result<Vec<Cid>, Error> {
        self.inner.get_bucket(cid)
    }
}

/// A store that counts what is asked of it.
struct CountingStore {
    inner: BlockStore,
    reads: usize,
    writes: usize,
}

impl Cas for CountingStore {
    fn put_page(&mut self, page: &[u8]) -> Result<Cid, Error> {
        self.writes += 1;
        self.inner.put_page(page)
    }

    fn put_bucket(&mut self, links: &[Cid]) -> Result<Cid, Error> {
        self.writes += 1;
        self.inner.put_bucket(links)
    }

    fn get_page(&mut self, cid: &Cid) -> Result<Vec<u8>, Error> {
        self.reads += 1;
        self.inner.get_page(cid)
    }

    fn get_bucket(&mut self, cid: &Cid) -> Result<Vec<Cid>, Error> {
        self.reads += 1;
        self.inner.get_bucket(cid)
    }
}

#[test]
fn a_lookup_reads_one_block_per_level() {
    for (pages, buck_size, height) in [(3usize, 4usize, 0usize), (16, 4, 1), (17, 4, 2), (100, 3, 4)] {
        let mut store = CountingStore { inner: BlockStore::new(), reads: 0, writes: 0 };
        let db = DB::new(&mut store, &image(pages * 8), 8, buck_size).unwrap();
        assert_eq!(db.tree_height, height);
        assert_eq!(store.reads, 0);
        for i in 0..pages {
            store.reads = 0;
            db.get_page(&mut store, i).unwrap();
            assert_eq!(store.reads, height + 1);
        }
        store.reads = 0;
        db.get_page(&mut store, pages).unwrap();
        assert_eq!(store.reads, 0);
    }
}

#[test]
fn a_write_touches_only_its_path() {
    let mut store = CountingStore { inner: BlockStore::new(), reads: 0, writes: 0 };
    let mut db = DB::new(&mut store, &image(100 * 8), 8, 3).unwrap();
    assert_eq!(db.tree_height, 4);
    // 100 pages, and 34 + 12 + 4 + 2 buckets
    assert_eq!(store.writes, 152);
    store.reads = 0;
    store.writes = 0;
    db.put_page(&mut store, 57, &[1u8; 8]).unwrap();
    assert_eq!((store.reads, store.writes), (4, 5));
    // behind the last page: the last node of every level has room
    store.reads = 0;
    store.writes = 0;
    db.put_page(&mut store, 100, &[2u8; 8]).unwrap();
    assert_eq!((store.reads, store.writes), (4, 5));
    // the cut runs through one bucket on each of three levels
    store.reads = 0;
    store.writes = 0;
    db.truncate(&mut store, 20).unwrap();
    assert_eq!(db.tree_height, 2);
    assert_eq!((store.reads, store.writes), (4, 2));
    store.reads = 0;
    store.writes = 0;
    db.truncate(&mut store, 0).unwrap();
    db.truncate(&mut store, 5).unwrap();
    assert_eq!((store.reads, store.writes), (0, 0));
}

#[test]
fn image_of_224_pages_is_flat() {
    let mut store = BlockStore::new();
    let data = image(224 * 4096);
    let db = DB::new(&mut store, &data, 4096, 256).unwrap();
    assert_eq!(db.page_size, 4096);
    assert_eq!(db.buck_size, 256);
    assert_eq!(db.page_count, 224);
    assert_eq!(db.tree_height, 0);
    assert_eq!(db.page_tree.len(), 224);
}

#[test]
fn image_of_18581_pages_has_one_level() {
    let mut store = BlockStore::new();
    let data = image(18581 * 16);
    let db = DB::new(&mut store, &data, 16, 256).unwrap();
    assert_eq!(db.page_count, 18581);
    assert_eq!(db.tree_height, 1);
    assert_eq!(db.page_tree.len(), 73);
}

#[test]
fn tableland_actor_test_construction() {
    fn construct(data: Vec<u8>, page_count: usize, tree_height: usize, tree_length: usize) {
        let mut store = BlockStore::new();
        let st = Actor::constructor(&mut store, ConstructorParams { db: data, buck_size: 256 })
            .expect("construction");
        assert_eq!(st.db.page_count, page_count);
        assert_eq!(st.db.tree_height, tree_height);
        assert_eq!(st.db.page_tree.len(), tree_length);
    }
    construct(image(224 * 4096), 224, 0, 224);
    construct(image(300 * 4096), 300, 1, 2);
    construct(vec![], 0, 0, 0);
}

#[test]
fn empty_image_has_no_pages() {
    let mut store = BlockStore::new();
    let db = DB::new(&mut store, &[], 4096, 256).unwrap();
    assert_eq!(db.page_count, 0);
    assert_eq!(db.tree_height, 0);
    assert_eq!(db.page_tree.len(), 0);
    assert_eq!(db.get_page(&mut store, 0).unwrap(), vec![0u8; 4096]);
}

#[test]
fn fan_out_below_two_is_refused() {
    let mut store = BlockStore::new();
    for buck_size in [0usize, 1] {
        let err = DB::new(&mut store, &image(64), 16, buck_size).unwrap_err();
        assert!(matches!(err, Error::IllegalArgument(_)));
        assert_eq!(err.exit(), ExitKind::IllegalArgument);
    }
    assert!(DB::new(&mut store, &image(64), 16, 2).is_ok());
}

#[test]
fn height_is_the_least_that_fits() {
    let mut store = BlockStore::new();
    let cases = [
        (0usize, 0usize, 0usize),
        (1, 0, 1),
        (4, 0, 4),
        (5, 1, 2),
        (16, 1, 4),
        (17, 2, 2),
        (64, 2, 4),
        (65, 3, 2),
    ];
    for (pages, height, top) in cases {
        let db = DB::new(&mut store, &image(pages * 8), 8, 4).unwrap();
        assert_eq!(db.page_count, pages);
        assert_eq!(db.tree_height, height);
        assert_eq!(db.page_tree.len(), top);
    }
}

#[test]
fn buckets_are_full_but_the_last() {
    for (pages, buck_size) in [(100usize, 3usize), (64, 4), (65, 4), (7, 2), (300, 256)] {
        let mut store = BlockStore::new();
        let db = DB::new(&mut store, &image(pages * 8), 8, buck_size).unwrap();
        assert!(db.page_tree.len() <= buck_size);
        let mut level = db.page_tree.clone();
        for _ in 0..db.tree_height {
            let mut below = Vec::new();
            for (j, node) in level.iter().enumerate() {
                let links = store.get_bucket(node).unwrap();
                assert!(!links.is_empty());
                assert!(links.len() <= buck_size);
                if j + 1 < level.len() {
                    assert_eq!(links.len(), buck_size);
                }
                below.extend(links);
            }
            level = below;
        }
        assert_eq!(level.len(), pages);
    }
}

#[test]
fn pages_read_back() {
    let mut store = BlockStore::new();
    let data = image(10 * 16 + 5);
    let db = DB::new(&mut store, &data, 16, 2).unwrap();
    assert_eq!(db.page_count, 11);
    assert_eq!(db.tree_height, 3);
    assert_eq!(db.page_tree.len(), 2);
    for i in 0..10 {
        assert_eq!(db.get_page(&mut store, i).unwrap(), data[i * 16..(i + 1) * 16].to_vec());
    }
    assert_eq!(db.get_page(&mut store, 10).unwrap(), data[160..].to_vec());
    assert_eq!(db.get_page(&mut store, 11).unwrap(), vec![0u8; 16]);
    assert_eq!(db.get_page(&mut store, usize::MAX).unwrap(), vec![0u8; 16]);
}

#[test]
fn round_trip_gives_the_padded_image() {
    for buck_size in [2usize, 3, 7, 256] {
        for len in [0usize, 1, 15, 16, 17, 100, 1000] {
            let mut store = BlockStore::new();
            let data = image(len);
            let db = DB::new(&mut store, &data, 16, buck_size).unwrap();
            let mut read = Vec::new();
            for i in 0..db.page_count {
                let mut page = db.get_page(&mut store, i).unwrap();
                page.resize(16, 0);
                read.extend(page);
            }
            let mut want = data.clone();
            want.resize((len + 15) / 16 * 16, 0);
            assert_eq!(read, want);
        }
    }
}

#[test]
fn same_image_same_tree() {
    let mut one = BlockStore::new();
    let mut two = BlockStore::new();
    let a = DB::new(&mut one, &image(500), 16, 4).unwrap();
    let b = DB::new(&mut two, &image(500), 16, 4).unwrap();
    assert_eq!(a.page_tree, b.page_tree);
    let mut other = image(500);
    other[499] ^= 1;
    let c = DB::new(&mut two, &other, 16, 4).unwrap();
    assert_ne!(a.page_tree, c.page_tree);
}

#[test]
fn changes_give_the_tree_of_the_changed_image() {
    for buck_size in [2usize, 3, 4, 5] {
        let mut store = BlockStore::new();
        let mut data: Vec<u8> = Vec::new();
        let mut db = DB::new(&mut store, &data, 8, buck_size).unwrap();
        let mut step = 0u8;
        // grow page by page, writing over an earlier page now and then
        for n in 0..70usize {
            step = step.wrapping_add(37);
            db.put_page(&mut store, n, &[step; 8]).unwrap();
            data.extend([step; 8]);
            if n % 3 == 2 {
                let at = (n * 7) % (n + 1);
                step = step.wrapping_add(11);
                db.put_page(&mut store, at, &[step; 8]).unwrap();
                data[at * 8..(at + 1) * 8].copy_from_slice(&[step; 8]);
            }
            let fresh = DB::new(&mut BlockStore::new(), &data, 8, buck_size).unwrap();
            assert_eq!(db.page_count, fresh.page_count);
            assert_eq!(db.tree_height, fresh.tree_height);
            assert_eq!(db.page_tree, fresh.page_tree);
            assert!(db.is_wf());
        }
        for i in 0..70 {
            assert_eq!(db.get_page(&mut store, i).unwrap(), data[i * 8..(i + 1) * 8].to_vec());
        }
        // shrink in uneven steps down to nothing
        for retain in [69usize, 64, 50, 49, 27, 26, 25, 17, 16, 9, 8, 5, 4, 3, 2, 1, 0] {
            db.truncate(&mut store, retain).unwrap();
            data.truncate(retain * 8);
            let fresh = DB::new(&mut BlockStore::new(), &data, 8, buck_size).unwrap();
            assert_eq!(db.page_count, retain);
            assert_eq!(db.tree_height, fresh.tree_height);
            assert_eq!(db.page_tree, fresh.page_tree);
            assert!(db.is_wf());
            for i in 0..retain {
                assert_eq!(db.get_page(&mut store, i).unwrap(), data[i * 8..(i + 1) * 8].to_vec());
            }
            assert_eq!(db.get_page(&mut store, retain).unwrap(), vec![0u8; 8]);
        }
    }
}

#[test]
fn a_cut_from_any_size_to_any_size() {
    let data = image(40 * 8);
    for buck_size in [2usize, 3, 6] {
        for from in [1usize, 2, 3, 9, 10, 27, 28, 40] {
            for retain in 0..from {
                let mut store = BlockStore::new();
                let mut db = DB::new(&mut store, &data[..from * 8], 8, buck_size).unwrap();
                db.truncate(&mut store, retain).unwrap();
                let fresh =
                    DB::new(&mut BlockStore::new(), &data[..retain * 8], 8, buck_size).unwrap();
                assert_eq!(db.page_count, retain);
                assert_eq!(db.tree_height, fresh.tree_height);
                assert_eq!(db.page_tree, fresh.page_tree);
            }
        }
    }
}

#[test]
fn the_descriptor_is_checked() {
    let mut store = BlockStore::new();
    let mut db = DB::new(&mut store, &image(20 * 16), 16, 4).unwrap();
    assert!(db.is_wf());
    db.tree_height = 1;
    assert!(!db.is_wf());
    db.tree_height = 2;
    db.page_count = 21;
    assert!(db.is_wf());
    db.page_count = 33;
    assert!(!db.is_wf());
    db.page_count = 20;
    db.buck_size = 1;
    assert!(!db.is_wf());
    db.buck_size = 4;
    db.page_size = 0;
    assert!(!db.is_wf());
}

#[test]
fn a_written_page_is_read_back() {
    let mut store = BlockStore::new();
    let data = image(20 * 16);
    let mut db = DB::new(&mut store, &data, 16, 4).unwrap();
    let page = [7u8; 16];
    db.put_page(&mut store, 13, &page).unwrap();
    assert_eq!(db.page_count, 20);
    assert_eq!(db.tree_height, 2);
    for i in 0..20 {
        let want = if i == 13 { page.to_vec() } else { data[i * 16..(i + 1) * 16].to_vec() };
        assert_eq!(db.get_page(&mut store, i).unwrap(), want);
    }
}

#[test]
fn writing_twice_keeps_the_root() {
    let mut store = BlockStore::new();
    let mut db = DB::new(&mut store, &image(20 * 16), 16, 4).unwrap();
    let before = db.page_tree.clone();
    let page = [9u8; 16];
    db.put_page(&mut store, 3, &page).unwrap();
    let once = db.page_tree.clone();
    assert_ne!(before, once);
    db.put_page(&mut store, 3, &page).unwrap();
    assert_eq!(db.page_tree, once);
    assert_eq!(db.page_count, 20);
    assert_eq!(db.tree_height, 2);
}

#[test]
fn a_write_equals_construction_from_the_new_image() {
    let mut store = BlockStore::new();
    let mut data = image(20 * 16);
    let mut db = DB::new(&mut store, &data, 16, 4).unwrap();
    let page = [3u8; 16];
    db.put_page(&mut store, 5, &page).unwrap();
    data[5 * 16..6 * 16].copy_from_slice(&page);
    let fresh = DB::new(&mut BlockStore::new(), &data, 16, 4).unwrap();
    assert_eq!(db.page_tree, fresh.page_tree);
    assert_eq!(db.tree_height, fresh.tree_height);
}

#[test]
fn appending_grows_the_tree() {
    let mut store = BlockStore::new();
    let mut db = DB::new(&mut store, &[], 16, 2).unwrap();
    let mut pages = Vec::new();
    let heights = [0usize, 0, 1, 1, 2, 2, 2, 2, 3];
    for (i, height) in heights.iter().enumerate() {
        let page = [i as u8 + 1; 16];
        db.put_page(&mut store, i, &page).unwrap();
        pages.push(page);
        assert_eq!(db.page_count, i + 1);
        assert_eq!(db.tree_height, *height);
        assert!(db.page_tree.len() <= 2);
        for (j, want) in pages.iter().enumerate() {
            assert_eq!(db.get_page(&mut store, j).unwrap(), want.to_vec());
        }
    }
}

#[test]
fn truncation_drops_the_tail() {
    let mut store = BlockStore::new();
    let data = image(20 * 16);
    let mut db = DB::new(&mut store, &data, 16, 4).unwrap();
    db.truncate(&mut store, 25).unwrap();
    assert_eq!(db.page_count, 20);
    db.truncate(&mut store, 20).unwrap();
    assert_eq!(db.page_count, 20);
    db.truncate(&mut store, 6).unwrap();
    assert_eq!(db.page_count, 6);
    assert_eq!(db.tree_height, 1);
    assert_eq!(db.page_tree.len(), 2);
    for i in 0..6 {
        assert_eq!(db.get_page(&mut store, i).unwrap(), data[i * 16..(i + 1) * 16].to_vec());
    }
    for i in 6..22 {
        assert_eq!(db.get_page(&mut store, i).unwrap(), vec![0u8; 16]);
    }
    let fresh = DB::new(&mut BlockStore::new(), &data[..6 * 16], 16, 4).unwrap();
    assert_eq!(db.page_tree, fresh.page_tree);
    db.truncate(&mut store, 0).unwrap();
    assert_eq!(db.page_count, 0);
    assert_eq!(db.tree_height, 0);
    assert!(db.page_tree.is_empty());
}

#[test]
fn a_missing_block_is_a_failure() {
    let mut store = BlockStore::new();
    let db = DB::new(&mut store, &image(20 * 16), 16, 4).unwrap();
    let mut empty = BlockStore::new();
    let err = db.get_page(&mut empty, 0).unwrap_err();
    assert!(matches!(err, Error::Passthrough(_)));
    assert_eq!(err.exit(), ExitKind::IllegalState);
    assert!(err.to_string().starts_with("failed to get "));
    assert!(err.to_string().ends_with(" from store"));
    let mut lost = DB::new(&mut store, &image(20 * 16), 16, 4).unwrap();
    assert!(lost.put_page(&mut empty, 0, &[0u8; 16]).is_err());
    assert!(lost.put_page(&mut empty, 20, &[0u8; 16]).is_err());
    assert!(lost.truncate(&mut empty, 7).is_err());
    assert_eq!(lost.page_tree, db.page_tree);
    let flat = DB::new(&mut store, &image(32), 16, 4).unwrap();
    assert!(flat.get_page(&mut empty, 1).is_err());
}

#[test]
fn a_page_is_no_bucket() {
    let mut store = BlockStore::new();
    let page = store.put_page(&[1u8, 2, 3]).unwrap();
    assert_eq!(store.get_page(&page).unwrap(), vec![1u8, 2, 3]);
    assert_ne!(page, store.put_page(&[1u8, 2, 4]).unwrap());
    assert_eq!(page, store.put_page(&[1u8, 2, 3]).unwrap());
    let bucket = store.put_bucket(&[page, page]).unwrap();
    assert_eq!(store.get_bucket(&bucket).unwrap(), vec![page, page]);
    assert_ne!(bucket, page);
    assert!(store.get_bucket(&page).is_err());
    assert!(store.get_page(&bucket).is_err());
    let raw = store.into_memory();
    let mut again = BlockStore::from_memory(raw);
    assert_eq!(again.get_page(&page).unwrap(), vec![1u8, 2, 3]);
}

#[test]
fn a_failing_store_leaves_the_tree_alone() {
    let mut store = FailingStore { inner: BlockStore::new(), writes_left: usize::MAX };
    let mut db = DB::new(&mut store, &image(20 * 16), 16, 4).unwrap();
    let root = db.page_tree.clone();
    // a page and the two buckets above it
    for writes_left in 0..3 {
        store.writes_left = writes_left;
        let err = db.put_page(&mut store, 2, &[1u8; 16]).unwrap_err();
        assert!(matches!(err, Error::Passthrough(_)));
        assert_eq!(err.to_string(), "store is full");
        assert_eq!(db.page_tree, root);
        assert_eq!(db.page_count, 20);
        store.writes_left = writes_left;
        assert!(db.put_page(&mut store, 20, &[1u8; 16]).is_err());
        assert_eq!(db.page_tree, root);
        assert_eq!(db.page_count, 20);
        assert_eq!(db.tree_height, 2);
    }
    // the one bucket that the cut runs through
    store.writes_left = 0;
    assert!(db.truncate(&mut store, 6).is_err());
    assert_eq!(db.page_tree, root);
    assert_eq!(db.page_count, 20);
    store.writes_left = 0;
    db.truncate(&mut store, 0).unwrap();
    assert_eq!(db.page_count, 0);
    let mut db = DB::new(&mut store.inner, &image(20 * 16), 16, 4).unwrap();
    store.writes_left = 1;
    db.truncate(&mut store, 6).unwrap();
    assert_eq!(db.page_count, 6);
    store.writes_left = 3;
    db.put_page(&mut store, 2, &[1u8; 16]).unwrap_or_else(|e| panic!("{}", e.to_string()));
    assert_eq!(db.get_page(&mut store, 2).unwrap(), vec![1u8; 16]);
    store.writes_left = 5;
    assert!(DB::new(&mut store, &image(20 * 16), 16, 4).is_err());
}
