//! The file-system adapter: the one database file that the SQL engine sees,
//! served page by page from the tree in the block store.

use crate::actor::str_eq;
use crate::env::{fill_random, stream_byte};
use crate::errors::Error;
use crate::layout::{ceil_div, height, lemma_ceil_div, padded, zeros};
use crate::lock::{Connection, LockKind, LockState};
use crate::state::{put_seq, zero_page, State};
use crate::store::{follows, lemma_follows_refl, page_link, writes_within, wrote_all, Cas};
use vstd::prelude::*;

verus! {

/// The kind of file that the SQL engine asks to open.
#[derive(Clone, Copy, Debug, PartialEq, Eq, Structural)]
pub enum OpenKind {
    MainDb,
    MainJournal,
    TempDb,
    TempJournal,
    TransientDb,
    SubJournal,
    SuperJournal,
    Wal,
}

/// The access that a file is opened with.
#[derive(Clone, Copy, Debug, PartialEq, Eq, Structural)]
pub enum OpenAccess {
    Read,
    Write,
    Create,
    CreateNew,
}

/// How the SQL engine asks to open a file.
#[derive(Clone, Copy, Debug, PartialEq, Eq, Structural)]
pub struct OpenOptions {
    pub kind: OpenKind,
    pub access: OpenAccess,
}

/// A failure of the adapter, by the kind of I/O error it stands for.
#[derive(Debug)]
pub enum VfsError {
    /// No such database: the name that was asked for.
    NotFound(String),
    /// Only the main database can be opened.
    PermissionDenied,
    /// A read that runs over the end of its page.
    UnexpectedEof,
    /// A request that the adapter does not serve.
    Other(String),
    /// The page tree or the block store failed.
    Store(Error),
}

/// The adapter of one invocation: the lock table that its handles share, the
/// actor's state and the block store.
pub struct PagesVfs<S: Cas> {
    pub lock_state: LockState,
    pub st: State,
    pub store: S,
}

impl<S: Cas> PagesVfs<S> {
    /// The adapter over a state and its store, with no handle open.
    pub fn new(st: State, store: S) -> (r: PagesVfs<S>)
        ensures
            r.st == st,
            r.store == store,
            r.lock_state.read == 0,
            r.lock_state.write is None,
    {
        PagesVfs { lock_state: LockState::new(), st, store }
    }

    /// Opens the database: only `main.db`, and only as the main database.
    /// Another name is not found; another kind of file is not permitted.
    /// The handle holds no lock.
    pub fn open(&self, db: &str, opts: OpenOptions) -> (r: Result<Connection, VfsError>)
        ensures
            db@ != "main.db"@ ==> (r matches Err(VfsError::NotFound(name)) && name@ == db@),
            db@ == "main.db"@ && opts.kind != OpenKind::MainDb ==> r matches Err(
                VfsError::PermissionDenied,
            ),
            db@ == "main.db"@ && opts.kind == OpenKind::MainDb ==> (r matches Ok(c) && c.lock
                == LockKind::Unlocked),
    {
        if !str_eq(db, "main.db") {
            return Err(VfsError::NotFound(db.to_string()));
        }
        if opts.kind != OpenKind::MainDb {
            return Err(VfsError::PermissionDenied);
        }
        Ok(Connection { lock: LockKind::Unlocked })
    }

    /// Deletes a file: there is none to delete, so nothing is done.
    pub fn delete(&self, db: &str) -> (r: Result<(), VfsError>)
        ensures
            r is Ok,
    {
        Ok(())
    }

    /// Whether a database exists: `main.db` does once it has a page.
    pub fn db_exists(&self, db: &str) -> (r: Result<bool, VfsError>)
        ensures
            r matches Ok(b) && b == (db@ == "main.db"@ && self.st.db.page_count > 0),
    {
        Ok(str_eq(db, "main.db") && self.st.db.page_count > 0)
    }

    /// The name for a temporary database: always `main.db`.
    pub fn temporary_name(&self) -> (r: String)
        ensures
            r@ == "main.db"@,
    {
        "main.db".to_string()
    }

    /// Fills `buffer` with the bytes drawn from the beacon digest `seed`.
    pub fn random(&self, seed: &[u8; 32], buffer: &mut [i8])
        ensures
            final(buffer)@.len() == old(buffer)@.len(),
            forall|i: int|
                0 <= i < old(buffer)@.len() ==> final(buffer)@[i] == stream_byte(seed@, i),
    {
        fill_random(seed, buffer)
    }

    /// Sleeps for `millis` milliseconds and returns the time slept: none.
    pub fn sleep(&self, millis: u64) -> (r: u64)
        ensures
            r == 0,
    {
        0
    }
}

impl Connection {
    /// The number of pages of the database.
    pub fn page_count<S: Cas>(&self, vfs: &PagesVfs<S>) -> (r: usize)
        ensures
            r == vfs.st.db.page_count,
    {
        vfs.st.db.page_count
    }

    /// The size of the database file in bytes.
    pub fn size<S: Cas>(&self, vfs: &PagesVfs<S>) -> (r: Result<u64, VfsError>)
        requires
            vfs.st.db.page_count * vfs.st.db.page_size <= u64::MAX,
        ensures
            r matches Ok(size) && size == vfs.st.db.page_count * vfs.st.db.page_size,
    {
        let count = self.page_count(vfs) as u64;
        Ok(count * (vfs.st.db.page_size as u64))
    }

    /// Reads page `ix` as the engine sees it: a full page, zeros past the
    /// end of the file and behind a short last page.
    pub fn get_page<S: Cas>(&self, vfs: &mut PagesVfs<S>, ix: usize) -> (r: Result<Vec<u8>, VfsError>)
        requires
            old(vfs).st.db.wf(),
        ensures
            final(vfs).st == old(vfs).st,
            final(vfs).lock_state == old(vfs).lock_state,
            final(vfs).store.blocks() == old(vfs).store.blocks(),
            final(vfs).store.collided() == old(vfs).store.collided(),
            match old(vfs).st.db.page_at(old(vfs).store.blocks(), ix as nat) {
                None => r matches Err(VfsError::Store(_)),
                Some(stored) => if stored.len() > old(vfs).st.db.page_size {
                    r matches Err(VfsError::Other(_))
                } else {
                    r matches Ok(v) && v@ == padded(stored, old(vfs).st.db.page_size as nat)
                },
            },
    {
        let size = vfs.st.db.page_size;
        let mut page = match vfs.st.db.get_page(&mut vfs.store, ix) {
            Ok(page) => page,
            Err(e) => {
                return Err(VfsError::Store(e));
            },
        };
        if page.len() > size {
            return Err(VfsError::Other("a stored page is longer than the page size".to_string()));
        }
        let ghost stored = page@;
        while page.len() < size
            invariant
                stored.len() <= page@.len() <= size,
                page@ == stored + zeros((page@.len() - stored.len()) as nat),
            decreases size - page@.len(),
        {
            page.push(0u8);
            assert(page@ =~= stored + zeros((page@.len() - stored.len()) as nat));
        }
        assert(page@ =~= padded(stored, size as nat));
        Ok(page)
    }

    /// Writes `data` as page `ix` of the database.
    pub fn put_page<S: Cas>(&self, vfs: &mut PagesVfs<S>, ix: usize, data: &[u8]) -> (r: Result<(), VfsError>)
        requires
            old(vfs).st.db.wf(),
            ix <= old(vfs).st.db.page_count,
            data@.len() == old(vfs).st.db.page_size,
        ensures
            final(vfs).lock_state == old(vfs).lock_state,
            follows(&final(vfs).store, &old(vfs).store),
            final(vfs).st.db.page_size == old(vfs).st.db.page_size,
            final(vfs).st.db.buck_size == old(vfs).st.db.buck_size,
            final(vfs).st.db.wf(),
            match r {
                Ok(_) => {
                    &&& final(vfs).st.db.page_count == if ix < old(vfs).st.db.page_count {
                        old(vfs).st.db.page_count as int
                    } else {
                        old(vfs).st.db.page_count + 1
                    }
                    &&& old(vfs).st.db.put_top(
                        old(vfs).store.blocks(),
                        ix as nat,
                        page_link(data@),
                    ) == Some(
                        (final(vfs).st.db.tree_height as nat, final(vfs).st.db.page_tree@),
                    )
                },
                Err(e) => e is Store && final(vfs).st == old(vfs).st,
            },
            writes_within(
                old(vfs).store.blocks(),
                final(vfs).store.blocks(),
                old(vfs).st.db.put_links(old(vfs).store.blocks(), ix as nat, page_link(data@)),
            ),
            r is Ok ==> wrote_all(
                final(vfs).store.blocks(),
                old(vfs).st.db.put_links(old(vfs).store.blocks(), ix as nat, page_link(data@)),
            ),
            forall|pages: Seq<Seq<u8>>|
                r is Ok && !final(vfs).store.collided() && #[trigger] old(vfs).st.db.holds(
                    old(vfs).store.blocks(),
                    pages,
                ) ==> final(vfs).st.db.holds(
                    final(vfs).store.blocks(),
                    put_seq(pages, ix as int, data@),
                ),
    {
        match vfs.st.db.put_page(&mut vfs.store, ix, data) {
            Ok(_) => Ok(()),
            Err(e) => Err(VfsError::Store(e)),
        }
    }

    /// Drops the pages from number `retain` on.
    pub fn del_last_pages<S: Cas>(&self, vfs: &mut PagesVfs<S>, retain: usize) -> (r: Result<(), VfsError>)
        requires
            old(vfs).st.db.wf(),
        ensures
            final(vfs).lock_state == old(vfs).lock_state,
            follows(&final(vfs).store, &old(vfs).store),
            final(vfs).st.db.page_size == old(vfs).st.db.page_size,
            final(vfs).st.db.buck_size == old(vfs).st.db.buck_size,
            final(vfs).st.db.wf(),
            retain >= old(vfs).st.db.page_count ==> r is Ok && final(vfs).st == old(vfs).st,
            retain == 0 && old(vfs).st.db.page_count > 0 ==> r is Ok && final(vfs).st.db.page_count
                == 0 && final(vfs).st.db.tree_height == 0 && final(vfs).st.db.page_tree@.len() == 0,
            0 < retain < old(vfs).st.db.page_count ==> match r {
                Ok(_) => {
                    &&& final(vfs).st.db.page_count == retain
                    &&& final(vfs).st.db.tree_height == height(
                        retain as nat,
                        old(vfs).st.db.buck_size as nat,
                    )
                    &&& old(vfs).st.db.cut_top(old(vfs).store.blocks(), retain as nat) == Some(
                        final(vfs).st.db.page_tree@,
                    )
                    &&& wrote_all(
                        final(vfs).store.blocks(),
                        old(vfs).st.db.cut_links(old(vfs).store.blocks(), retain as nat),
                    )
                },
                Err(e) => e is Store && final(vfs).st == old(vfs).st,
            },
            0 < retain < old(vfs).st.db.page_count ==> writes_within(
                old(vfs).store.blocks(),
                final(vfs).store.blocks(),
                old(vfs).st.db.cut_links(old(vfs).store.blocks(), retain as nat),
            ),
            !(0 < retain < old(vfs).st.db.page_count) ==> final(vfs).store == old(vfs).store,
            forall|pages: Seq<Seq<u8>>|
                r is Ok && retain < old(vfs).st.db.page_count && !final(vfs).store.collided()
                    && #[trigger] old(vfs).st.db.holds(old(vfs).store.blocks(), pages) ==> final(vfs).st.db.holds(final(vfs).store.blocks(), pages.take(retain as int)),
    {
        match vfs.st.db.truncate(&mut vfs.store, retain) {
            Ok(_) => Ok(()),
            Err(e) => Err(VfsError::Store(e)),
        }
    }

    /// Fills `buf` from the file at `offset`. The bytes come from the page
    /// that `offset` falls in; a read that would run over the end of that
    /// page is an unexpected end of file. Past the last page the file reads
    /// as zeros.
    pub fn read_exact_at<S: Cas>(&mut self, vfs: &mut PagesVfs<S>, buf: &mut [u8], offset: u64) -> (r: Result<
        (),
        VfsError,
    >)
        requires
            old(vfs).st.db.wf(),
        ensures
            final(self).lock == old(self).lock,
            final(vfs).st == old(vfs).st,
            final(vfs).lock_state == old(vfs).lock_state,
            final(vfs).store.blocks() == old(vfs).store.blocks(),
            final(vfs).store.collided() == old(vfs).store.collided(),
            final(buf)@.len() == old(buf)@.len(),
            ({
                let size = old(vfs).st.db.page_size as int;
                let index = (offset as int / size) as nat;
                let start = offset as int % size;
                match old(vfs).st.db.page_at(old(vfs).store.blocks(), index) {
                    None => (r matches Err(VfsError::Store(_))) && final(buf)@ == old(buf)@,
                    Some(stored) => if stored.len() > size {
                        (r matches Err(VfsError::Other(_))) && final(buf)@ == old(buf)@
                    } else if start + old(buf)@.len() > size {
                        (r matches Err(VfsError::UnexpectedEof)) && final(buf)@ == old(buf)@
                    } else {
                        r is Ok && final(buf)@ == padded(stored, size as nat).subrange(
                            start,
                            start + old(buf)@.len(),
                        )
                    },
                }
            }),
    {
        let size = vfs.st.db.page_size;
        let index = offset / (size as u64);
        let start = (offset % (size as u64)) as usize;
        let data = if index > usize::MAX as u64 {
            zero_page(size)
        } else {
            match self.get_page(vfs, index as usize) {
                Ok(data) => data,
                Err(e) => {
                    return Err(e);
                },
            }
        };
        let n = buf.len();
        if n > size - start {
            return Err(VfsError::UnexpectedEof);
        }
        let mut i: usize = 0;
        while i < n
            invariant
                i <= n,
                n == buf@.len(),
                start + n <= data@.len(),
                data@.len() == size,
                forall|j: int| 0 <= j < i ==> buf@[j] == data@[start + j],
            decreases n - i,
        {
            buf[i] = data[start + i];
            i = i + 1;
        }
        assert(buf@ =~= data@.subrange(start as int, start + n));
        Ok(())
    }

    /// Writes `buf` to the file at `offset`: one whole page at a page
    /// boundary, anything else is refused. The page replaces the one at that
    /// place or becomes the next page of the file.
    pub fn write_all_at<S: Cas>(&mut self, vfs: &mut PagesVfs<S>, buf: &[u8], offset: u64) -> (r: Result<
        (),
        VfsError,
    >)
        requires
            old(vfs).st.db.wf(),
            offset % (old(vfs).st.db.page_size as u64) == 0 && buf@.len() == old(vfs).st.db.page_size ==> offset / (old(vfs).st.db.page_size as u64) <= old(vfs).st.db.page_count,
        ensures
            final(self).lock == old(self).lock,
            final(vfs).lock_state == old(vfs).lock_state,
            follows(&final(vfs).store, &old(vfs).store),
            final(vfs).st.db.page_size == old(vfs).st.db.page_size,
            final(vfs).st.db.buck_size == old(vfs).st.db.buck_size,
            final(vfs).st.db.wf(),
            offset % (old(vfs).st.db.page_size as u64) > 0 || buf@.len() != old(vfs).st.db.page_size ==> (r matches Err(VfsError::Other(_))) && final(vfs).st == old(vfs).st
                && final(vfs).store == old(vfs).store,
            offset % (old(vfs).st.db.page_size as u64) == 0 && buf@.len() == old(vfs).st.db.page_size ==> match r {
                Ok(_) => {
                    &&& final(vfs).st.db.page_count == if offset / (old(vfs).st.db.page_size as u64)
                        < old(vfs).st.db.page_count {
                        old(vfs).st.db.page_count as int
                    } else {
                        old(vfs).st.db.page_count + 1
                    }
                    &&& old(vfs).st.db.put_top(
                        old(vfs).store.blocks(),
                        (offset / (old(vfs).st.db.page_size as u64)) as nat,
                        page_link(buf@),
                    ) == Some(
                        (final(vfs).st.db.tree_height as nat, final(vfs).st.db.page_tree@),
                    )
                    &&& wrote_all(
                        final(vfs).store.blocks(),
                        old(vfs).st.db.put_links(
                            old(vfs).store.blocks(),
                            (offset / (old(vfs).st.db.page_size as u64)) as nat,
                            page_link(buf@),
                        ),
                    )
                },
                Err(e) => e is Store && final(vfs).st == old(vfs).st,
            },
            offset % (old(vfs).st.db.page_size as u64) == 0 && buf@.len() == old(vfs).st.db.page_size
                ==> writes_within(
                old(vfs).store.blocks(),
                final(vfs).store.blocks(),
                old(vfs).st.db.put_links(
                    old(vfs).store.blocks(),
                    (offset / (old(vfs).st.db.page_size as u64)) as nat,
                    page_link(buf@),
                ),
            ),
            forall|pages: Seq<Seq<u8>>|
                r is Ok && !final(vfs).store.collided() && #[trigger] old(vfs).st.db.holds(
                    old(vfs).store.blocks(),
                    pages,
                ) ==> final(vfs).st.db.holds(
                    final(vfs).store.blocks(),
                    put_seq(pages, (offset / (old(vfs).st.db.page_size as u64)) as int, buf@),
                ),
    {
        let size = vfs.st.db.page_size;
        if offset % (size as u64) > 0 {
            proof {
                lemma_follows_refl(&vfs.store);
            }
            return Err(VfsError::Other("unexpected write across page boundaries".to_string()));
        }
        if buf.len() != size {
            proof {
                lemma_follows_refl(&vfs.store);
            }
            return Err(VfsError::Other("unexpected write size".to_string()));
        }
        let index = offset / (size as u64);
        self.put_page(vfs, index as usize, buf)
    }

    /// Makes sure that what was written is stored: it already is.
    pub fn sync(&mut self, data_only: bool) -> (r: Result<(), VfsError>)
        ensures
            r is Ok,
            final(self).lock == old(self).lock,
    {
        Ok(())
    }

    /// Sets the length of the file to `size` bytes. A length of fewer pages
    /// than the file has, but not of none, drops the pages beyond it; any
    /// other length leaves the file alone, since it grows by being written.
    pub fn set_len<S: Cas>(&mut self, vfs: &mut PagesVfs<S>, size: u64) -> (r: Result<(), VfsError>)
        requires
            old(vfs).st.db.wf(),
        ensures
            final(self).lock == old(self).lock,
            final(vfs).lock_state == old(vfs).lock_state,
            follows(&final(vfs).store, &old(vfs).store),
            final(vfs).st.db.page_size == old(vfs).st.db.page_size,
            final(vfs).st.db.buck_size == old(vfs).st.db.buck_size,
            final(vfs).st.db.wf(),
            ({
                let pages = ceil_div(size as nat, old(vfs).st.db.page_size as nat);
                if 0 < pages < old(vfs).st.db.page_count {
                    (match r {
                        Ok(_) => {
                            &&& final(vfs).st.db.page_count == pages
                            &&& final(vfs).st.db.tree_height == height(
                                pages,
                                old(vfs).st.db.buck_size as nat,
                            )
                            &&& old(vfs).st.db.cut_top(old(vfs).store.blocks(), pages) == Some(
                                final(vfs).st.db.page_tree@,
                            )
                            &&& wrote_all(
                                final(vfs).store.blocks(),
                                old(vfs).st.db.cut_links(old(vfs).store.blocks(), pages),
                            )
                        },
                        Err(e) => e is Store && final(vfs).st == old(vfs).st,
                    }) && writes_within(
                        old(vfs).store.blocks(),
                        final(vfs).store.blocks(),
                        old(vfs).st.db.cut_links(old(vfs).store.blocks(), pages),
                    )
                } else {
                    r is Ok && final(vfs).st == old(vfs).st && final(vfs).store == old(vfs).store
                }
            }),
            forall|pages: Seq<Seq<u8>>|
                r is Ok && 0 < ceil_div(size as nat, old(vfs).st.db.page_size as nat) < old(vfs).st.db.page_count && !final(vfs).store.collided() && #[trigger] old(vfs).st.db.holds(old(vfs).store.blocks(), pages) ==> final(vfs).st.db.holds(
                    final(vfs).store.blocks(),
                    pages.take(ceil_div(size as nat, old(vfs).st.db.page_size as nat) as int),
                ),
    {
        let page_size = vfs.st.db.page_size as u64;
        proof {
            lemma_ceil_div(size as nat, page_size as nat);
        }
        let whole = size / page_size;
        let rest = size % page_size;
        let current_page_count = self.page_count(vfs);
        if whole >= current_page_count as u64 {
            proof {
                lemma_follows_refl(&vfs.store);
            }
            return Ok(());
        }
        let page_count = if rest > 0 {
            whole + 1
        } else {
            whole
        };
        if page_count > 0 && page_count < current_page_count as u64 {
            self.del_last_pages(vfs, page_count as usize)
        } else {
            proof {
                lemma_follows_refl(&vfs.store);
            }
            Ok(())
        }
    }

    /// Changes the chunk size of the file: only the page size is accepted.
    pub fn set_chunk_size<S: Cas>(&self, vfs: &PagesVfs<S>, chunk_size: usize) -> (r: Result<(), VfsError>)
        ensures
            chunk_size == vfs.st.db.page_size <==> r is Ok,
            r matches Err(e) ==> e is Other,
    {
        if chunk_size != vfs.st.db.page_size {
            Err(VfsError::Other("changing chunk size is not allowed".to_string()))
        } else {
            Ok(())
        }
    }
}

} // verus!
