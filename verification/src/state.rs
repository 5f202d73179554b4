//! The page tree: the database image as pages in the block store, found
//! through a shallow tree of buckets of CIDs.

use crate::errors::Error;
use crate::layout::{
    capacity, ceil_div, chunk, chunks, height, lemma_capacity, lemma_ceil_div,
    lemma_ceil_div_shrinks, lemma_chunk, lemma_height_bound, lemma_height_capacity, level_len, zeros,
};
use crate::store::{
    bucket_link, extends, follows, lemma_follows_refl, lemma_follows_trans, lemma_read_extends,
    page_link, read_bucket, read_page, writes_within, wrote_all, Cas,
};
use cid::Cid;
use vstd::arithmetic::div_mod::lemma_div_multiples_vanish;
use vstd::prelude::*;
use vstd::slice::slice_subrange;

verus! {

/// The pages of a byte image: pieces of `page_size` bytes, the last one
/// shorter where the image does not end on a page boundary.
pub open spec fn pages_of(data: Seq<u8>, page_size: nat) -> Seq<Seq<u8>> {
    chunks(data, page_size)
}

/// The CIDs of the pages, in order: the leaves of the tree.
pub open spec fn leaf_links(pages: Seq<Seq<u8>>) -> Seq<Cid> {
    Seq::new(pages.len(), |i: int| page_link(pages[i]))
}

/// The level above `level`: the CID of one bucket for every `buck` nodes.
pub open spec fn parents(level: Seq<Cid>, buck: nat) -> Seq<Cid> {
    Seq::new(ceil_div(level.len(), buck), |j: int| bucket_link(chunk(level, buck, j)))
}

/// Level `k` of the tree over `leaves`: the leaves themselves on level 0.
pub open spec fn level_at(leaves: Seq<Cid>, buck: nat, k: nat) -> Seq<Cid>
    decreases k,
{
    if k == 0 {
        leaves
    } else {
        parents(level_at(leaves, buck, (k - 1) as nat), buck)
    }
}

/// Every page reads back from the store under its CID.
pub open spec fn pages_stored(blocks: Map<Cid, Seq<u8>>, pages: Seq<Seq<u8>>) -> bool {
    forall|i: int|
        0 <= i < pages.len() ==> read_page(blocks, page_link(#[trigger] pages[i])) == Some(pages[i])
}

/// Every bucket of the levels 1 to `upto` reads back from the store as the
/// piece of the level below that it stands for.
pub open spec fn buckets_stored(
    blocks: Map<Cid, Seq<u8>>,
    leaves: Seq<Cid>,
    buck: nat,
    upto: nat,
) -> bool {
    forall|k: nat, j: int|
        1 <= k <= upto && 0 <= j < level_at(leaves, buck, k).len() ==> read_bucket(
            blocks,
            #[trigger] level_at(leaves, buck, k)[j],
        ) == Some(chunk(level_at(leaves, buck, (k - 1) as nat), buck, j))
}

/// The CIDs of the pages.
pub open spec fn page_links(pages: Seq<Seq<u8>>) -> Set<Cid> {
    Set::new(|c: Cid| exists|i: int| 0 <= i < pages.len() && page_link(#[trigger] pages[i]) == c)
}

/// The CIDs of the buckets of the levels 1 to `upto` of the tree over
/// `leaves`.
pub open spec fn bucket_links(leaves: Seq<Cid>, buck: nat, upto: nat) -> Set<Cid> {
    Set::new(
        |c: Cid|
            exists|k: nat, j: int|
                1 <= k <= upto && 0 <= j < level_at(leaves, buck, k).len() && #[trigger] level_at(
                    leaves,
                    buck,
                    k,
                )[j] == c,
    )
}

/// The descriptor of a page tree.
#[derive(Debug)]
pub struct DB {
    /// Bytes per page.
    pub page_size: usize,
    /// The most links that a bucket holds.
    pub buck_size: usize,
    /// The number of pages.
    pub page_count: usize,
    /// The number of bucket levels above the pages.
    pub tree_height: usize,
    /// The top level: the pages' CIDs where the height is 0, else CIDs of
    /// buckets.
    pub page_tree: Vec<Cid>,
}

/// The root of the actor's state.
#[derive(Debug)]
pub struct State {
    pub db: DB,
}

impl DB {
    /// The descriptor's own invariant: a fan-out of at least two, the least
    /// height that brings the top level down to one bucket's worth, and a
    /// top level of the length that goes with it.
    pub open spec fn wf(&self) -> bool {
        &&& self.page_size > 0
        &&& self.buck_size >= 2
        &&& self.tree_height == height(self.page_count as nat, self.buck_size as nat)
        &&& self.page_tree@.len() == level_len(
            self.page_count as nat,
            self.buck_size as nat,
            self.tree_height as nat,
        )
    }

    /// The descriptor is the tree over these leaves.
    pub open spec fn is_tree_of(&self, leaves: Seq<Cid>) -> bool {
        &&& self.page_count == leaves.len()
        &&& self.tree_height == height(leaves.len(), self.buck_size as nat)
        &&& self.page_tree@ == level_at(leaves, self.buck_size as nat, self.tree_height as nat)
    }

    /// The store holds these pages under this tree: the descriptor is the
    /// tree over the pages' CIDs, and every page and bucket reads back.
    pub open spec fn holds(&self, blocks: Map<Cid, Seq<u8>>, pages: Seq<Seq<u8>>) -> bool {
        &&& self.page_size > 0
        &&& self.buck_size >= 2
        &&& self.is_tree_of(leaf_links(pages))
        &&& pages_stored(blocks, pages)
        &&& buckets_stored(
            blocks,
            leaf_links(pages),
            self.buck_size as nat,
            self.tree_height as nat,
        )
    }

    /// Builds the tree over `leaves`: level by level, each bucket of up to
    /// `buck_size` links goes to the store and its CID to the level above,
    /// until a level fits in one bucket.
    pub fn build<S: Cas>(
        store: &mut S,
        leaves: Vec<Cid>,
        page_size: usize,
        buck_size: usize,
    ) -> (r: Result<DB, Error>)
        requires
            buck_size >= 2,
        ensures
            follows(final(store), old(store)),
            final(store).reads() == old(store).reads(),
            match r {
                Ok(db) => {
                    &&& db.page_size == page_size
                    &&& db.buck_size == buck_size
                    &&& db.is_tree_of(leaves@)
                    &&& !final(store).collided() ==> buckets_stored(
                        final(store).blocks(),
                        leaves@,
                        buck_size as nat,
                        db.tree_height as nat,
                    )
                },
                Err(e) => e is Passthrough,
            },
            leaves@.len() <= buck_size ==> r is Ok && final(store).blocks() == old(store).blocks()
                && final(store).collided() == old(store).collided(),
            writes_within(
                old(store).blocks(),
                final(store).blocks(),
                bucket_links(leaves@, buck_size as nat, height(leaves@.len(), buck_size as nat)),
            ),
            r matches Ok(db) ==> wrote_all(
                final(store).blocks(),
                bucket_links(leaves@, buck_size as nat, db.tree_height as nat),
            ),
    {
        let ghost store0 = *store;
        let ghost leaves0 = leaves@;
        let ghost buck = buck_size as nat;
        let page_count = leaves.len();
        let mut tree = leaves;
        let mut h: usize = 0;
        proof {
            lemma_height_bound(leaves0.len(), buck);
            lemma_follows_refl(store);
        }
        if tree.len() <= buck_size {
            return Ok(DB { page_size, buck_size, page_count, tree_height: 0, page_tree: tree });
        }
        while tree.len() > buck_size
            invariant
                buck_size >= 2,
                buck == buck_size,
                page_count == leaves0.len(),
                leaves0 == leaves@,
                leaves0.len() > buck_size,
                tree@ == level_at(leaves0, buck, h as nat),
                h + height(tree@.len(), buck) == height(leaves0.len(), buck),
                height(leaves0.len(), buck) <= usize::MAX,
                store0 == *old(store),
                follows(store, &store0),
                store.reads() == store0.reads(),
                !store.collided() ==> buckets_stored(store.blocks(), leaves0, buck, h as nat),
                writes_within(
                    store0.blocks(),
                    store.blocks(),
                    bucket_links(leaves0, buck, height(leaves0.len(), buck)),
                ),
                wrote_all(store.blocks(), bucket_links(leaves0, buck, h as nat)),
            decreases tree@.len(),
        {
            let ghost level = tree@;
            let len = tree.len();
            let mut next: Vec<Cid> = Vec::new();
            let mut start: usize = 0;
            let ghost mut j: int = 0;
            proof {
                lemma_ceil_div_shrinks(level.len(), buck);
                lemma_ceil_div(level.len(), buck);
            }
            while start < len
                invariant
                    buck_size >= 2,
                    buck == buck_size,
                    leaves0 == leaves@,
                    leaves0.len() > buck_size,
                    len == tree@.len(),
                    tree@ == level,
                    level == level_at(leaves0, buck, h as nat),
                    0 <= j <= ceil_div(level.len(), buck),
                    start == if j * buck <= len {
                        j * buck
                    } else {
                        len as int
                    },
                    next@.len() == j,
                    forall|x: int|
                        0 <= x < j ==> #[trigger] next@[x] == bucket_link(chunk(level, buck, x)),
                    store0 == *old(store),
                    follows(store, &store0),
                    store.reads() == store0.reads(),
                    h + height(level.len(), buck) == height(leaves0.len(), buck),
                    level.len() > buck,
                    writes_within(
                        store0.blocks(),
                        store.blocks(),
                        bucket_links(leaves0, buck, height(leaves0.len(), buck)),
                    ),
                    wrote_all(store.blocks(), bucket_links(leaves0, buck, h as nat)),
                    forall|x: int| 0 <= x < j ==> store.blocks().contains_key(#[trigger] next@[x]),
                    !store.collided() ==> buckets_stored(store.blocks(), leaves0, buck, h as nat),
                    !store.collided() ==> forall|x: int|
                        0 <= x < j ==> read_bucket(store.blocks(), #[trigger] next@[x]) == Some(
                            chunk(level, buck, x),
                        ),
                decreases len - start,
            {
                proof {
                    lemma_ceil_div(level.len(), buck);
                    let q = ceil_div(level.len(), buck) as int;
                    assert(j < q) by (nonlinear_arith)
                        requires
                            j * buck < len,
                            len <= q * buck,
                            0 <= j <= q,
                            buck >= 2,
                    ;
                    lemma_chunk(level, buck, j);
                    assert((j + 1) * buck == j * buck + buck) by (nonlinear_arith);
                }
                let end = if len - start > buck_size {
                    start + buck_size
                } else {
                    len
                };
                let links = slice_subrange(tree.as_slice(), start, end);
                assert(links@ == chunk(level, buck, j));
                let ghost before = *store;
                let c = match store.put_bucket(links) {
                    Ok(c) => c,
                    Err(e) => {
                        proof {
                            lemma_follows_trans(&store0, &before, store);
                        }
                        return Err(e);
                    },
                };
                proof {
                    lemma_follows_trans(&store0, &before, store);
                    assert(level_at(leaves0, buck, (h + 1) as nat) == parents(level, buck));
                    assert(level_at(leaves0, buck, (h + 1) as nat)[j] == c);
                    assert(bucket_links(leaves0, buck, height(leaves0.len(), buck)).contains(c));
                    if !store.collided() {
                        lemma_buckets_stored_extends(
                            before.blocks(),
                            store.blocks(),
                            leaves0,
                            buck,
                            h as nat,
                        );
                        assert forall|x: int| 0 <= x < j implies read_bucket(
                            store.blocks(),
                            #[trigger] next@[x],
                        ) == Some(chunk(level, buck, x)) by {
                            lemma_read_extends(before.blocks(), store.blocks(), next@[x]);
                        }
                    }
                }
                next.push(c);
                start = end;
                proof {
                    j = j + 1;
                }
            }
            proof {
                let q = ceil_div(level.len(), buck) as int;
                assert(j == q) by (nonlinear_arith)
                    requires
                        j * buck >= len,
                        (q - 1) * buck < len,
                        0 <= j <= q,
                        buck >= 2,
                ;
                assert(next@ =~= parents(level, buck));
                assert(level_at(leaves0, buck, (h + 1) as nat) == parents(level, buck));
                assert forall|c: Cid| #[trigger]
                    bucket_links(leaves0, buck, (h + 1) as nat).contains(
                        c,
                    ) implies store.blocks().contains_key(c) by {
                    let (k, x) = choose|k: nat, x: int|
                        1 <= k <= h + 1 && 0 <= x < level_at(leaves0, buck, k).len()
                            && #[trigger] level_at(leaves0, buck, k)[x] == c;
                    if k <= h {
                        assert(bucket_links(leaves0, buck, h as nat).contains(c));
                    } else {
                        assert(c == next@[x]);
                    }
                }
                if !store.collided() {
                    assert forall|k: nat, x: int|
                        1 <= k <= h + 1 && 0 <= x < level_at(leaves0, buck, k).len() implies read_bucket(
                        store.blocks(),
                        #[trigger] level_at(leaves0, buck, k)[x],
                    ) == Some(chunk(level_at(leaves0, buck, (k - 1) as nat), buck, x)) by {
                        if k == h + 1 {
                            assert(level_at(leaves0, buck, k)[x] == next@[x]);
                        }
                    }
                }
            }
            tree = next;
            h = h + 1;
        }
        Ok(DB { page_size, buck_size, page_count, tree_height: h, page_tree: tree })
    }
}

/// Where a walk from a list of nodes of level `k` ends: at each level the
/// node that covers page `i` is read as a bucket, and `i` is taken modulo the
/// node's capacity; on level 0 the node is the page's own CID. `None` where an
/// index falls outside a bucket or a block does not read as a bucket.
pub open spec fn walk(
    blocks: Map<Cid, Seq<u8>>,
    links: Seq<Cid>,
    buck: nat,
    k: nat,
    i: nat,
) -> Option<Cid>
    decreases k,
{
    let cap = capacity(buck, k);
    let idx = (i / cap) as int;
    if cap == 0 || idx >= links.len() {
        None
    } else if k == 0 {
        Some(links[idx])
    } else {
        match read_bucket(blocks, links[idx]) {
            None => None,
            Some(next) => walk(blocks, next, buck, (k - 1) as nat, i % cap),
        }
    }
}

/// The pages after a write of `page` at `index`: replaced where there is such
/// a page, appended where `index` is the next one.
pub open spec fn put_seq(pages: Seq<Seq<u8>>, index: int, page: Seq<u8>) -> Seq<Seq<u8>> {
    if 0 <= index < pages.len() {
        pages.update(index, page)
    } else {
        pages.push(page)
    }
}

/// `buck` to the power `k`.
pub(crate) fn capacity_of(buck: usize, k: usize) -> (r: usize)
    requires
        buck >= 1,
        capacity(buck as nat, k as nat) <= usize::MAX,
    ensures
        r == capacity(buck as nat, k as nat),
{
    let mut r: usize = 1;
    let mut i: usize = 0;
    while i < k
        invariant
            buck >= 1,
            i <= k,
            r == capacity(buck as nat, i as nat),
            capacity(buck as nat, k as nat) <= usize::MAX,
        decreases k - i,
    {
        proof {
            lemma_capacity(buck as nat, i as nat);
            lemma_capacity_grows(buck as nat, (i + 1) as nat, k as nat);
        }
        r = r * buck;
        i = i + 1;
    }
    r
}

/// The height of the tree over `n` pages, and the length of its top level.
pub(crate) fn height_of(n: usize, buck: usize) -> (r: (usize, usize))
    requires
        buck >= 2,
    ensures
        r.0 == height(n as nat, buck as nat),
        r.1 == level_len(n as nat, buck as nat, r.0 as nat),
        r.1 <= buck,
{
    let mut len = n;
    let mut h: usize = 0;
    proof {
        lemma_height_bound(n as nat, buck as nat);
    }
    while len > buck
        invariant
            buck >= 2,
            len == level_len(n as nat, buck as nat, h as nat),
            h + height(len as nat, buck as nat) == height(n as nat, buck as nat),
            height(n as nat, buck as nat) <= usize::MAX,
        decreases len,
    {
        proof {
            lemma_ceil_div(len as nat, buck as nat);
            lemma_ceil_div_shrinks(len as nat, buck as nat);
        }
        len = if len % buck > 0 {
            len / buck + 1
        } else {
            len / buck
        };
        h = h + 1;
    }
    (h, len)
}

/// A page of `size` zero bytes.
pub fn zero_page(size: usize) -> (r: Vec<u8>)
    ensures
        r@ == zeros(size as nat),
{
    let mut r: Vec<u8> = Vec::new();
    let mut i: usize = 0;
    while i < size
        invariant
            i <= size,
            r@ == zeros(i as nat),
        decreases size - i,
    {
        r.push(0u8);
        i = i + 1;
        assert(r@ =~= zeros(i as nat));
    }
    r
}

/// Follows the buckets from `links`, nodes of level `k`, down to the CID of
/// page `i`.
fn find_leaf<S: Cas>(
    store: &mut S,
    links: &[Cid],
    buck: usize,
    k: usize,
    cap: usize,
    i: usize,
) -> (r: Result<Cid, Error>)
    requires
        buck >= 1,
        cap == capacity(buck as nat, k as nat),
    ensures
        final(store).blocks() == old(store).blocks(),
        final(store).collided() == old(store).collided(),
        match walk(old(store).blocks(), links@, buck as nat, k as nat, i as nat) {
            Some(c) => r matches Ok(v) && v == c,
            None => r matches Err(e) && e is Passthrough,
        },
        r is Ok ==> final(store).reads() == old(store).reads() + k,
        final(store).reads() >= old(store).reads(),
    decreases k,
{
    proof {
        lemma_capacity(buck as nat, k as nat);
    }
    let idx = i / cap;
    if idx >= links.len() {
        return Err(Error::Passthrough("page index outside of the tree".to_string()));
    }
    if k == 0 {
        return Ok(links[idx]);
    }
    let next = match store.get_bucket(&links[idx]) {
        Ok(next) => next,
        Err(e) => {
            return Err(e);
        },
    };
    proof {
        lemma_capacity(buck as nat, (k - 1) as nat);
        lemma_div_multiples_vanish(capacity(buck as nat, (k - 1) as nat) as int, buck as int);
    }
    find_leaf(store, next.as_slice(), buck, k - 1, cap / buck, i % cap)
}

impl DB {
    /// Tests the descriptor's invariant.
    pub fn is_wf(&self) -> (r: bool)
        ensures
            r == self.wf(),
    {
        if self.page_size == 0 || self.buck_size < 2 {
            return false;
        }
        let (h, len) = height_of(self.page_count, self.buck_size);
        self.tree_height == h && self.page_tree.len() == len
    }

    /// The page with number `index` as the store has it under this tree:
    /// zero bytes past the last page, else the page at the end of the walk
    /// from the top level. `None` where the walk or the page cannot be read.
    pub open spec fn page_at(&self, blocks: Map<Cid, Seq<u8>>, index: nat) -> Option<Seq<u8>> {
        if index >= self.page_count {
            Some(zeros(self.page_size as nat))
        } else {
            match walk(
                blocks,
                self.page_tree@,
                self.buck_size as nat,
                self.tree_height as nat,
                index,
            ) {
                None => None,
                Some(leaf) => read_page(blocks, leaf),
            }
        }
    }

    /// Cuts `data` into pages, stores them, and builds the tree over them.
    /// A fan-out below two is refused; beyond that only the store can fail.
    /// The tree returned is the tree over the pages' CIDs, and short of a
    /// hash collision the store holds the pages under it.
    pub fn new<S: Cas>(store: &mut S, data: &[u8], page_size: usize, buck_size: usize) -> (r: Result<
        DB,
        Error,
    >)
        requires
            page_size > 0,
        ensures
            follows(final(store), old(store)),
            final(store).reads() == old(store).reads(),
            buck_size < 2 ==> (r matches Err(e) && e is IllegalArgument) && final(store).blocks()
                == old(store).blocks() && final(store).collided() == old(store).collided(),
            buck_size >= 2 && data@.len() == 0 ==> r is Ok && final(store).blocks() == old(store).blocks() && final(store).collided() == old(store).collided(),
            writes_within(
                old(store).blocks(),
                final(store).blocks(),
                page_links(pages_of(data@, page_size as nat)).union(
                    bucket_links(
                        leaf_links(pages_of(data@, page_size as nat)),
                        buck_size as nat,
                        height(pages_of(data@, page_size as nat).len(), buck_size as nat),
                    ),
                ),
            ),
            r matches Ok(db) ==> wrote_all(
                final(store).blocks(),
                page_links(pages_of(data@, page_size as nat)).union(
                    bucket_links(
                        leaf_links(pages_of(data@, page_size as nat)),
                        buck_size as nat,
                        db.tree_height as nat,
                    ),
                ),
            ),
            buck_size >= 2 ==> match r {
                Ok(db) => {
                    &&& db.page_size == page_size
                    &&& db.buck_size == buck_size
                    &&& db.wf()
                    &&& db.is_tree_of(leaf_links(pages_of(data@, page_size as nat)))
                    &&& !final(store).collided() ==> db.holds(
                        final(store).blocks(),
                        pages_of(data@, page_size as nat),
                    )
                },
                Err(e) => e is Passthrough,
            },
    {
        if buck_size < 2 {
            return Err(Error::IllegalArgument("a bucket must hold at least two links".to_string()));
        }
        let ghost store0 = *store;
        let ghost size = page_size as nat;
        let ghost pgs = pages_of(data@, size);
        let len = data.len();
        if len == 0 {
            proof {
                lemma_ceil_div(0, size);
                assert(leaf_links(pgs) =~= Seq::<Cid>::empty());
            }
            let r = DB::build(store, Vec::new(), page_size, buck_size);
            proof {
                if r is Ok {
                    lemma_tree_wf(r->Ok_0, leaf_links(pgs));
                }
            }
            return r;
        }
        proof {
            lemma_ceil_div(len as nat, size);
            let q = ceil_div(len as nat, size) as int;
            assert(q <= len) by (nonlinear_arith)
                requires
                    len > 0 ==> (q - 1) * size < len,
                    len == 0 ==> q == 0,
                    size >= 1,
            ;
        }
        let mut page_count = len / page_size;
        if len % page_size > 0 {
            page_count = page_count + 1;
        }
        let mut leaves: Vec<Cid> = Vec::new();
        let mut p: usize = 0;
        while p < page_count
            invariant
                page_size > 0,
                buck_size >= 2,
                size == page_size,
                len == data@.len(),
                pgs == pages_of(data@, size),
                page_count == ceil_div(len as nat, size),
                p <= page_count,
                leaves@.len() == p,
                forall|x: int| 0 <= x < p ==> #[trigger] leaves@[x] == page_link(pgs[x]),
                store0 == *old(store),
                follows(store, &store0),
                store.reads() == store0.reads(),
                writes_within(store0.blocks(), store.blocks(), page_links(pgs)),
                forall|x: int|
                    0 <= x < p ==> store.blocks().contains_key(page_link(#[trigger] pgs[x])),
                !store.collided() ==> forall|x: int|
                    0 <= x < p ==> read_page(store.blocks(), page_link(#[trigger] pgs[x])) == Some(
                        pgs[x],
                    ),
            decreases page_count - p,
        {
            proof {
                lemma_chunk(data@, size, p as int);
                assert((p + 1) * size == p * size + size) by (nonlinear_arith);
            }
            let start = p * page_size;
            let end = if len - start > page_size {
                start + page_size
            } else {
                len
            };
            let page = slice_subrange(data, start, end);
            assert(page@ == pgs[p as int]);
            let ghost before = *store;
            let c = match store.put_page(page) {
                Ok(c) => c,
                Err(e) => {
                    proof {
                        lemma_follows_trans(&store0, &before, store);
                    }
                    return Err(e);
                },
            };
            proof {
                lemma_follows_trans(&store0, &before, store);
                assert(page_links(pgs).contains(page_link(pgs[p as int])));
                if !store.collided() {
                    assert forall|x: int| 0 <= x < p implies read_page(
                        store.blocks(),
                        page_link(#[trigger] pgs[x]),
                    ) == Some(pgs[x]) by {
                        lemma_read_extends(before.blocks(), store.blocks(), page_link(pgs[x]));
                    }
                }
            }
            leaves.push(c);
            p = p + 1;
        }
        assert(leaves@ =~= leaf_links(pgs));
        let ghost middle = *store;
        let r = DB::build(store, leaves, page_size, buck_size);
        proof {
            lemma_follows_trans(&store0, &middle, store);
            if r is Ok {
                lemma_tree_wf(r->Ok_0, leaf_links(pgs));
                if !store.collided() {
                    lemma_pages_stored_extends(middle.blocks(), store.blocks(), pgs);
                }
                assert forall|c: Cid| #[trigger] page_links(pgs).contains(c) implies store.blocks()
                    .contains_key(c) by {
                    let i = choose|i: int| 0 <= i < pgs.len() && page_link(#[trigger] pgs[i]) == c;
                    assert(middle.blocks().contains_key(page_link(pgs[i])));
                }
            }
        }
        r
    }

    /// Reads page `index`: zero bytes past the last page, else the page that
    /// the walk from the top level leads to, read from the store. It fails
    /// where `page_at` names no page. A page that is found costs one read
    /// for each level of buckets and one for the page.
    pub fn get_page<S: Cas>(&self, store: &mut S, index: usize) -> (r: Result<Vec<u8>, Error>)
        requires
            self.wf(),
        ensures
            final(store).blocks() == old(store).blocks(),
            final(store).collided() == old(store).collided(),
            match self.page_at(old(store).blocks(), index as nat) {
                Some(page) => r matches Ok(v) && v@ == page,
                None => r matches Err(e) && e is Passthrough,
            },
            index >= self.page_count ==> final(store).reads() == old(store).reads(),
            index < self.page_count && r is Ok ==> final(store).reads() == old(store).reads()
                + self.tree_height + 1,
            final(store).reads() >= old(store).reads(),
    {
        if index >= self.page_count {
            return Ok(zero_page(self.page_size));
        }
        proof {
            lemma_height_capacity(self.page_count as nat, self.buck_size as nat);
        }
        let cap = capacity_of(self.buck_size, self.tree_height);
        let leaf = match find_leaf(
            store,
            self.page_tree.as_slice(),
            self.buck_size,
            self.tree_height,
            cap,
            index,
        ) {
            Ok(leaf) => leaf,
            Err(e) => {
                return Err(e);
            },
        };
        store.get_page(&leaf)
    }
}

/// The capacity of a node grows with its level.
pub proof fn lemma_capacity_grows(buck: nat, k: nat, upto: nat)
    requires
        buck >= 1,
        k <= upto,
    ensures
        capacity(buck, k) <= capacity(buck, upto),
    decreases upto - k,
{
    if k < upto {
        lemma_capacity(buck, k);
        lemma_capacity_grows(buck, k + 1, upto);
    }
}

/// The levels of a tree have the lengths that the number of its leaves
/// gives.
pub proof fn lemma_level_at_len(leaves: Seq<Cid>, buck: nat, k: nat)
    ensures
        level_at(leaves, buck, k).len() == level_len(leaves.len(), buck, k),
    decreases k,
{
    if k > 0 {
        lemma_level_at_len(leaves, buck, (k - 1) as nat);
    }
}

/// A descriptor that is the tree over some leaves meets the descriptor's
/// invariant.
pub proof fn lemma_tree_wf(db: DB, leaves: Seq<Cid>)
    requires
        db.is_tree_of(leaves),
        db.page_size > 0,
        db.buck_size >= 2,
    ensures
        db.wf(),
{
    lemma_level_at_len(leaves, db.buck_size as nat, db.tree_height as nat);
}

/// Buckets that read back from a store read back from every store that
/// extends it.
pub proof fn lemma_buckets_stored_extends(
    before: Map<Cid, Seq<u8>>,
    after: Map<Cid, Seq<u8>>,
    leaves: Seq<Cid>,
    buck: nat,
    upto: nat,
)
    requires
        extends(before, after),
        buckets_stored(before, leaves, buck, upto),
    ensures
        buckets_stored(after, leaves, buck, upto),
{
    assert forall|k: nat, j: int|
        1 <= k <= upto && 0 <= j < level_at(leaves, buck, k).len() implies read_bucket(
        after,
        #[trigger] level_at(leaves, buck, k)[j],
    ) == Some(chunk(level_at(leaves, buck, (k - 1) as nat), buck, j)) by {
        lemma_read_extends(before, after, level_at(leaves, buck, k)[j]);
    }
}

/// Pages that read back from a store read back from every store that extends
/// it.
pub proof fn lemma_pages_stored_extends(
    before: Map<Cid, Seq<u8>>,
    after: Map<Cid, Seq<u8>>,
    pages: Seq<Seq<u8>>,
)
    requires
        extends(before, after),
        pages_stored(before, pages),
    ensures
        pages_stored(after, pages),
{
    assert forall|i: int| 0 <= i < pages.len() implies read_page(
        after,
        page_link(#[trigger] pages[i]),
    ) == Some(pages[i]) by {
        lemma_read_extends(before, after, page_link(pages[i]));
    }
}

} // verus!
