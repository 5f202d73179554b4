//! Changing the tree: writing a page over another or behind the last, and
//! dropping the pages at the end. Only the buckets between the top level and
//! the pages that change are read and written.

use crate::cut::{
    cut_leaves, descend, descended, lemma_truncate_stored, truncated, truncated_links,
};
use crate::errors::Error;
use crate::layout::{
    capacity, ceil_div, chunk, height, lemma_capacity, lemma_ceil_div, lemma_chunk,
    lemma_height_bound, lemma_height_capacity, lemma_height_is, lemma_level_covers,
    lemma_level_len_grows, lemma_level_len_split, level_len,
};
use crate::path::{lemma_replace_stored, replace_leaf, replaced, replaced_links};
use crate::spine::{append_leaf, appended, appended_links, lemma_append_stored};
use crate::state::{
    capacity_of, height_of, leaf_links, lemma_buckets_stored_extends, lemma_level_at_len,
    lemma_pages_stored_extends, level_at, parents, put_seq, DB,
};
use crate::store::{
    bucket_link, follows, lemma_follows_refl, lemma_follows_trans, lemma_read_extends, page_link,
    read_bucket, read_page, writes_within, wrote_all, Cas,
};
use cid::Cid;
use vstd::prelude::*;
use vstd::slice::{slice_subrange, slice_to_vec};

verus! {

/// The tree keeps at most as many levels as it had when pages are dropped.
pub proof fn lemma_height_grows(n: nat, m: nat, buck: nat)
    requires
        buck >= 2,
        n <= m,
    ensures
        height(n, buck) <= height(m, buck),
{
    lemma_height_capacity(n, buck);
    lemma_height_capacity(m, buck);
    let low = height(m, buck);
    if low < height(n, buck) {
        lemma_level_len_grows(n, m, buck, low);
        assert(level_len(n, buck, low) > buck);
    }
}

impl DB {
    /// The height and the top level of the tree after a write of a page
    /// with the CID `leaf` at `index`: over a page, the top level with the
    /// page's leaf replaced; behind the last page, the top level with the
    /// leaf added, under a new level where it no longer fits in one bucket.
    /// `None` where the tree cannot be read from the store.
    pub open spec fn put_top(&self, blocks: Map<Cid, Seq<u8>>, index: nat, leaf: Cid) -> Option<
        (nat, Seq<Cid>),
    > {
        let buck = self.buck_size as nat;
        let h = self.tree_height as nat;
        if index < self.page_count {
            match replaced(blocks, self.page_tree@, buck, h, index, leaf) {
                None => None,
                Some(top) => Some((h, top)),
            }
        } else {
            match appended(blocks, self.page_tree@, buck, h, self.page_count as nat, leaf) {
                None => None,
                Some(top) => if top.len() > buck {
                    Some((h + 1, parents(top, buck)))
                } else {
                    Some((h, top))
                },
            }
        }
    }

    /// The CIDs of the blocks that a write of a page with the CID `leaf` at
    /// `index` puts into the store: the page's own, those of the buckets
    /// changed or begun between the top level and the page, and those of the
    /// two buckets of a new top level.
    pub open spec fn put_links(&self, blocks: Map<Cid, Seq<u8>>, index: nat, leaf: Cid) -> Set<
        Cid,
    > {
        let buck = self.buck_size as nat;
        let h = self.tree_height as nat;
        if index < self.page_count {
            replaced_links(blocks, self.page_tree@, buck, h, index, leaf)
        } else {
            let below = appended_links(
                blocks,
                self.page_tree@,
                buck,
                h,
                self.page_count as nat,
                leaf,
            );
            match appended(blocks, self.page_tree@, buck, h, self.page_count as nat, leaf) {
                None => below,
                Some(top) => if top.len() > buck {
                    below.insert(bucket_link(chunk(top, buck, 0))).insert(
                        bucket_link(chunk(top, buck, 1)),
                    )
                } else {
                    below
                },
            }
        }
    }

    /// The CIDs of the blocks that a cut down to the first `retain` pages
    /// puts into the store: those of the buckets that the cut runs through.
    pub open spec fn cut_links(&self, blocks: Map<Cid, Seq<u8>>, retain: nat) -> Set<Cid> {
        let buck = self.buck_size as nat;
        let h = height(retain, buck);
        match descended(blocks, self.page_tree@, self.tree_height as nat, h) {
            None => Set::empty(),
            Some(nodes) => truncated_links(blocks, nodes, buck, h, retain),
        }
    }

    /// The top level of the tree cut down to its first `retain` pages:
    /// the tree is entered at the level of its new height and cut there.
    /// `None` where the tree cannot be read from the store.
    pub open spec fn cut_top(&self, blocks: Map<Cid, Seq<u8>>, retain: nat) -> Option<Seq<Cid>> {
        let buck = self.buck_size as nat;
        let h = height(retain, buck);
        match descended(blocks, self.page_tree@, self.tree_height as nat, h) {
            None => None,
            Some(nodes) => truncated(blocks, nodes, buck, h, retain),
        }
    }

    /// Writes `page` as page `index`: over the page that is there, or as the
    /// next page where `index` is the page count. The buckets between the
    /// top level and the page are read, then the page and those buckets are
    /// written anew; a page added where the last node of a level is full
    /// begins a new node, and a top level that outgrows one bucket goes under
    /// a new level. It fails, and leaves the tree as it was, where the tree
    /// cannot be read from the store, the store refuses a block, or the page
    /// count cannot grow.
    pub fn put_page<S: Cas>(&mut self, store: &mut S, index: usize, page: &[u8]) -> (r: Result<
        (),
        Error,
    >)
        requires
            old(self).wf(),
            index <= old(self).page_count,
            page@.len() == old(self).page_size,
        ensures
            follows(final(store), old(store)),
            final(self).page_size == old(self).page_size,
            final(self).buck_size == old(self).buck_size,
            final(self).wf(),
            match r {
                Ok(_) => {
                    &&& final(self).page_count == if index < old(self).page_count {
                        old(self).page_count as int
                    } else {
                        old(self).page_count + 1
                    }
                    &&& old(self).put_top(old(store).blocks(), index as nat, page_link(page@))
                        == Some((final(self).tree_height as nat, final(self).page_tree@))
                    &&& !final(store).collided() ==> read_page(
                        final(store).blocks(),
                        page_link(page@),
                    ) == Some(page@)
                },
                Err(e) => e is Passthrough && *final(self) == *old(self),
            },
            old(self).put_top(old(store).blocks(), index as nat, page_link(page@)) is None ==> r
                is Err,
            index == usize::MAX ==> r is Err,
            writes_within(
                old(store).blocks(),
                final(store).blocks(),
                old(self).put_links(old(store).blocks(), index as nat, page_link(page@)),
            ),
            r is Ok ==> wrote_all(
                final(store).blocks(),
                old(self).put_links(old(store).blocks(), index as nat, page_link(page@)),
            ),
            forall|pages: Seq<Seq<u8>>|
                r is Ok && !final(store).collided() && #[trigger] old(self).holds(
                    old(store).blocks(),
                    pages,
                ) ==> final(self).holds(final(store).blocks(), put_seq(pages, index as int, page@)),
    {
        let ghost store0 = *store;
        let ghost tree0 = *self;
        let ghost link = page_link(page@);
        let ghost n = self.page_count as nat;
        let ghost buck = self.buck_size as nat;
        let ghost h = self.tree_height as nat;
        proof {
            lemma_follows_refl(store);
            lemma_height_capacity(n, buck);
            lemma_height_bound(n, buck);
        }
        if index == usize::MAX {
            return Err(Error::Passthrough("the page tree cannot hold more pages".to_string()));
        }
        let cap = capacity_of(self.buck_size, self.tree_height);
        let top = slice_to_vec(self.page_tree.as_slice());
        if index < self.page_count {
            let changed = match replace_leaf(
                store,
                top,
                self.buck_size,
                self.tree_height,
                cap,
                index,
                page,
            ) {
                Ok(changed) => changed,
                Err(e) => {
                    return Err(e);
                },
            };
            self.page_tree = changed;
            proof {
                assert forall|pages: Seq<Seq<u8>>|
                    !store.collided() && #[trigger] tree0.holds(
                        store0.blocks(),
                        pages,
                    ) implies self.holds(store.blocks(), put_seq(pages, index as int, page@)) by {
                    let leaves = leaf_links(pages);
                    let after = put_seq(pages, index as int, page@);
                    lemma_replace_stored(
                        store0.blocks(),
                        store.blocks(),
                        leaves,
                        buck,
                        h,
                        index as nat,
                        link,
                    );
                    assert(leaf_links(after) =~= leaves.update(index as int, link));
                    lemma_pages_stored_extends(store0.blocks(), store.blocks(), pages);
                    assert forall|i: int| 0 <= i < after.len() implies read_page(
                        store.blocks(),
                        page_link(#[trigger] after[i]),
                    ) == Some(after[i]) by {
                        if i != index {
                            assert(after[i] == pages[i]);
                        }
                    }
                }
            }
            return Ok(());
        }
        let grown = match append_leaf(
            store,
            top,
            self.buck_size,
            self.tree_height,
            cap,
            self.page_count,
            page,
        ) {
            Ok(grown) => grown,
            Err(e) => {
                return Err(e);
            },
        };
        let ghost store1 = *store;
        proof {
            // the new top level has the length that one more page asks for
            lemma_level_len_split(n, buck, h);
            lemma_capacity(buck, h);
            assert(grown@.len() == level_len((n + 1) as nat, buck, h)) by {
                if h == 0 {
                    assert(capacity(buck, 0) == 1);
                }
            }
            assert forall|k: nat| k < h implies #[trigger] level_len((n + 1) as nat, buck, k)
                > buck by {
                lemma_level_len_grows(n, (n + 1) as nat, buck, k);
            }
        }
        if grown.len() > self.buck_size {
            let first = match store.put_bucket(slice_subrange(grown.as_slice(), 0, self.buck_size)) {
                Ok(first) => first,
                Err(e) => {
                    proof {
                        lemma_follows_trans(&store0, &store1, store);
                    }
                    return Err(e);
                },
            };
            let ghost store2 = *store;
            proof {
                lemma_follows_trans(&store0, &store1, store);
            }
            let second = match store.put_bucket(
                slice_subrange(grown.as_slice(), self.buck_size, grown.len()),
            ) {
                Ok(second) => second,
                Err(e) => {
                    proof {
                        lemma_follows_trans(&store0, &store2, store);
                    }
                    return Err(e);
                },
            };
            let mut lifted: Vec<Cid> = Vec::new();
            lifted.push(first);
            lifted.push(second);
            proof {
                lemma_follows_trans(&store0, &store2, store);
                lemma_ceil_div(grown@.len(), buck);
                lemma_chunk(grown@, buck, 0);
                lemma_chunk(grown@, buck, 1);
                assert(0 * buck == 0 && (0 + 1) * buck == buck && (1 + 1) * buck == buck + buck && 1
                    * buck == buck) by (nonlinear_arith);
                assert(ceil_div(grown@.len(), buck) == 2) by (nonlinear_arith)
                    requires
                        grown@.len() == buck + 1,
                        buck >= 2,
                        grown@.len() <= ceil_div(grown@.len(), buck) * buck,
                        (ceil_div(grown@.len(), buck) - 1) * buck < grown@.len(),
                ;
                assert(lifted@ =~= parents(grown@, buck));
                assert(level_len((n + 1) as nat, buck, h + 1) == 2);
                lemma_height_is((n + 1) as nat, buck, h + 1);
            }
            let ghost lifted0 = lifted@;
            self.page_count = self.page_count + 1;
            self.tree_height = self.tree_height + 1;
            self.page_tree = lifted;
            proof {
                assert forall|pages: Seq<Seq<u8>>|
                    !store.collided() && #[trigger] tree0.holds(
                        store0.blocks(),
                        pages,
                    ) implies self.holds(store.blocks(), put_seq(pages, index as int, page@)) by {
                    let leaves = leaf_links(pages);
                    let after = put_seq(pages, index as int, page@);
                    let more = leaves.push(link);
                    lemma_append_stored(store0.blocks(), store1.blocks(), leaves, buck, h, link);
                    assert(leaf_links(after) =~= more);
                    lemma_pages_stored_extends(store0.blocks(), store.blocks(), pages);
                    lemma_read_extends(store1.blocks(), store.blocks(), link);
                    assert forall|i: int| 0 <= i < after.len() implies read_page(
                        store.blocks(),
                        page_link(#[trigger] after[i]),
                    ) == Some(after[i]) by {
                        if i != index {
                            assert(after[i] == pages[i]);
                        }
                    }
                    lemma_buckets_stored_extends(store1.blocks(), store.blocks(), more, buck, h);
                    assert(level_at(more, buck, h + 1) == parents(level_at(more, buck, h), buck));
                    lemma_read_extends(store2.blocks(), store.blocks(), first);
                    assert forall|k: nat, j: int|
                        1 <= k <= h + 1 && 0 <= j < level_at(more, buck, k).len() implies read_bucket(
                        store.blocks(),
                        #[trigger] level_at(more, buck, k)[j],
                    ) == Some(chunk(level_at(more, buck, (k - 1) as nat), buck, j)) by {
                        if k == h + 1 {
                            assert(level_at(more, buck, k)[j] == lifted0[j]);
                        }
                    }
                }
            }
            return Ok(());
        }
        proof {
            lemma_height_is((n + 1) as nat, buck, h);
        }
        self.page_count = self.page_count + 1;
        self.page_tree = grown;
        proof {
            assert forall|pages: Seq<Seq<u8>>|
                !store.collided() && #[trigger] tree0.holds(
                    store0.blocks(),
                    pages,
                ) implies self.holds(store.blocks(), put_seq(pages, index as int, page@)) by {
                let leaves = leaf_links(pages);
                let after = put_seq(pages, index as int, page@);
                lemma_append_stored(store0.blocks(), store.blocks(), leaves, buck, h, link);
                assert(leaf_links(after) =~= leaves.push(link));
                lemma_pages_stored_extends(store0.blocks(), store.blocks(), pages);
                assert forall|i: int| 0 <= i < after.len() implies read_page(
                    store.blocks(),
                    page_link(#[trigger] after[i]),
                ) == Some(after[i]) by {
                    if i != index {
                        assert(after[i] == pages[i]);
                    }
                }
            }
        }
        Ok(())
    }

    /// Drops the pages from number `retain` on. A tree with no more than
    /// `retain` pages is left alone, and with `retain` 0 the tree becomes
    /// empty and flat; neither touches the store. Otherwise the tree is
    /// entered at the level of its new height and cut there: the buckets
    /// along the cut are read and written anew. It fails, and leaves the
    /// tree as it was, where the tree cannot be read from the store or the
    /// store refuses a block.
    pub fn truncate<S: Cas>(&mut self, store: &mut S, retain: usize) -> (r: Result<(), Error>)
        requires
            old(self).wf(),
        ensures
            follows(final(store), old(store)),
            final(self).page_size == old(self).page_size,
            final(self).buck_size == old(self).buck_size,
            final(self).wf(),
            retain >= old(self).page_count ==> r is Ok && *final(self) == *old(self)
                && *final(store) == *old(store),
            retain == 0 && old(self).page_count > 0 ==> r is Ok && final(self).page_count == 0
                && final(self).tree_height == 0 && final(self).page_tree@ == Seq::<Cid>::empty()
                && *final(store) == *old(store),
            0 < retain < old(self).page_count ==> match r {
                Ok(_) => {
                    &&& final(self).page_count == retain
                    &&& final(self).tree_height == height(retain as nat, old(self).buck_size as nat)
                    &&& old(self).cut_top(old(store).blocks(), retain as nat) == Some(
                        final(self).page_tree@,
                    )
                },
                Err(e) => e is Passthrough && *final(self) == *old(self),
            },
            0 < retain < old(self).page_count && old(self).cut_top(
                old(store).blocks(),
                retain as nat,
            ) is None ==> r is Err,
            0 < retain < old(self).page_count ==> writes_within(
                old(store).blocks(),
                final(store).blocks(),
                old(self).cut_links(old(store).blocks(), retain as nat),
            ),
            0 < retain < old(self).page_count && r is Ok ==> wrote_all(
                final(store).blocks(),
                old(self).cut_links(old(store).blocks(), retain as nat),
            ),
            forall|pages: Seq<Seq<u8>>|
                r is Ok && retain < old(self).page_count && !final(store).collided()
                    && #[trigger] old(self).holds(old(store).blocks(), pages) ==> final(self).holds(
                    final(store).blocks(),
                    pages.take(retain as int),
                ),
    {
        let ghost store0 = *store;
        let ghost tree0 = *self;
        let ghost n = self.page_count as nat;
        let ghost buck = self.buck_size as nat;
        let ghost h = self.tree_height as nat;
        proof {
            lemma_follows_refl(store);
        }
        if retain >= self.page_count {
            return Ok(());
        }
        if retain == 0 {
            self.page_count = 0;
            self.tree_height = 0;
            self.page_tree = Vec::new();
            proof {
                assert forall|pages: Seq<Seq<u8>>| #[trigger]
                    tree0.holds(store0.blocks(), pages) implies self.holds(
                    store.blocks(),
                    pages.take(0),
                ) by {
                    assert(leaf_links(pages.take(0)) =~= Seq::<Cid>::empty());
                }
            }
            return Ok(());
        }
        let (low, len) = height_of(retain, self.buck_size);
        proof {
            lemma_height_capacity(retain as nat, buck);
            lemma_height_capacity(n, buck);
            lemma_height_grows(retain as nat, n, buck);
            lemma_level_covers(retain as nat, buck, low as nat);
        }
        let cap = capacity_of(self.buck_size, low);
        let top = slice_to_vec(self.page_tree.as_slice());
        let nodes = match descend(store, top, self.tree_height, low) {
            Ok(nodes) => nodes,
            Err(e) => {
                return Err(e);
            },
        };
        let ghost store1 = *store;
        let kept = match cut_leaves(store, nodes, self.buck_size, low, cap, retain) {
            Ok(kept) => kept,
            Err(e) => {
                proof {
                    lemma_follows_trans(&store0, &store1, store);
                }
                return Err(e);
            },
        };
        self.page_count = retain;
        self.tree_height = low;
        self.page_tree = kept;
        proof {
            lemma_follows_trans(&store0, &store1, store);
            assert forall|pages: Seq<Seq<u8>>|
                !store.collided() && #[trigger] tree0.holds(
                    store0.blocks(),
                    pages,
                ) implies self.holds(store.blocks(), pages.take(retain as int)) by {
                let leaves = leaf_links(pages);
                let after = pages.take(retain as int);
                lemma_level_at_len(leaves, buck, h);
                lemma_truncate_stored(
                    store0.blocks(),
                    store.blocks(),
                    leaves,
                    buck,
                    h,
                    low as nat,
                    retain as nat,
                );
                assert(leaf_links(after) =~= leaves.take(retain as int));
                lemma_pages_stored_extends(store0.blocks(), store.blocks(), pages);
                assert forall|i: int| 0 <= i < after.len() implies read_page(
                    store.blocks(),
                    page_link(#[trigger] after[i]),
                ) == Some(after[i]) by {
                    assert(after[i] == pages[i]);
                }
            }
        }
        Ok(())
    }
}

} // verus!
