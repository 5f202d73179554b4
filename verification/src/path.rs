//! Writing over one page of the tree: the buckets on the way to the page are
//! read, and written anew from the page up; every other block stays as it
//! is.

use crate::errors::Error;
use crate::layout::{
    capacity, chunk, lemma_capacity, lemma_chunk, lemma_level_covers, lemma_window_child,
    lemma_window_index,
};
use crate::state::{
    buckets_stored, lemma_level_at_len, level_at, parents,
};
use crate::store::{
    bucket_link, extends, follows, lemma_follows_refl, lemma_follows_trans, lemma_read_extends,
    page_link, read_bucket, read_page, writes_within, wrote_all, Cas,
};
use cid::Cid;
use vstd::arithmetic::div_mod::lemma_div_multiples_vanish;
use vstd::prelude::*;

verus! {

/// A list of nodes of level `k` after the leaf of page `i` under it has
/// been replaced by `leaf`: the node that covers the page is replaced by the
/// CID of its bucket with the same change made one level down. `None` where
/// the page is not under these nodes or a block does not read as a bucket.
pub open spec fn replaced(
    blocks: Map<Cid, Seq<u8>>,
    links: Seq<Cid>,
    buck: nat,
    k: nat,
    i: nat,
    leaf: Cid,
) -> Option<Seq<Cid>>
    decreases k,
{
    let cap = capacity(buck, k);
    let idx = (i / cap) as int;
    if cap == 0 || idx >= links.len() {
        None
    } else if k == 0 {
        Some(links.update(idx, leaf))
    } else {
        match read_bucket(blocks, links[idx]) {
            None => None,
            Some(child) => match replaced(blocks, child, buck, (k - 1) as nat, i % cap, leaf) {
                None => None,
                Some(changed) => Some(links.update(idx, bucket_link(changed))),
            },
        }
    }
}

/// The CIDs of the blocks that are written when the leaf of page `i` is
/// replaced by `leaf`: the page's own, and those of the buckets that replace
/// the buckets on the way to it.
pub open spec fn replaced_links(
    blocks: Map<Cid, Seq<u8>>,
    links: Seq<Cid>,
    buck: nat,
    k: nat,
    i: nat,
    leaf: Cid,
) -> Set<Cid>
    decreases k,
{
    let cap = capacity(buck, k);
    let idx = (i / cap) as int;
    if k == 0 {
        set![leaf]
    } else if cap == 0 || idx >= links.len() {
        Set::empty()
    } else {
        match read_bucket(blocks, links[idx]) {
            None => Set::empty(),
            Some(child) => match replaced(blocks, child, buck, (k - 1) as nat, i % cap, leaf) {
                None => Set::empty(),
                Some(changed) => replaced_links(
                    blocks,
                    child,
                    buck,
                    (k - 1) as nat,
                    i % cap,
                    leaf,
                ).insert(bucket_link(changed)),
            },
        }
    }
}

/// The buckets that replace those on the way to page `i` all read back from
/// `after` as they were written.
pub open spec fn path_written(
    before: Map<Cid, Seq<u8>>,
    after: Map<Cid, Seq<u8>>,
    links: Seq<Cid>,
    buck: nat,
    k: nat,
    i: nat,
    leaf: Cid,
) -> bool
    decreases k,
{
    let cap = capacity(buck, k);
    let idx = (i / cap) as int;
    if k == 0 {
        true
    } else if cap == 0 || idx >= links.len() {
        false
    } else {
        match read_bucket(before, links[idx]) {
            None => false,
            Some(child) => match replaced(before, child, buck, (k - 1) as nat, i % cap, leaf) {
                None => false,
                Some(changed) => read_bucket(after, bucket_link(changed)) == Some(changed)
                    && path_written(before, after, child, buck, (k - 1) as nat, i % cap, leaf),
            },
        }
    }
}

/// Buckets that read back from a store read back from every store that
/// extends it.
pub proof fn lemma_path_written_extends(
    before: Map<Cid, Seq<u8>>,
    middle: Map<Cid, Seq<u8>>,
    after: Map<Cid, Seq<u8>>,
    links: Seq<Cid>,
    buck: nat,
    k: nat,
    i: nat,
    leaf: Cid,
)
    requires
        path_written(before, middle, links, buck, k, i, leaf),
        extends(middle, after),
    ensures
        path_written(before, after, links, buck, k, i, leaf),
    decreases k,
{
    if k > 0 {
        let cap = capacity(buck, k);
        let idx = (i / cap) as int;
        let child = read_bucket(before, links[idx])->Some_0;
        let changed = replaced(before, child, buck, (k - 1) as nat, i % cap, leaf)->Some_0;
        lemma_read_extends(middle, after, bucket_link(changed));
        lemma_path_written_extends(before, middle, after, child, buck, (k - 1) as nat, i % cap, leaf);
    }
}

/// Stores `page` and puts its CID in the place of the leaf of page `i`
/// under `links`, nodes of level `k`: the buckets on the way down are read
/// first, then the page and the changed buckets are written from the bottom
/// up. Returns the changed list of nodes.
pub(crate) fn replace_leaf<S: Cas>(
    store: &mut S,
    links: Vec<Cid>,
    buck: usize,
    k: usize,
    cap: usize,
    i: usize,
    page: &[u8],
) -> (r: Result<Vec<Cid>, Error>)
    requires
        buck >= 1,
        cap == capacity(buck as nat, k as nat),
    ensures
        follows(final(store), old(store)),
        writes_within(
            old(store).blocks(),
            final(store).blocks(),
            replaced_links(
                old(store).blocks(),
                links@,
                buck as nat,
                k as nat,
                i as nat,
                page_link(page@),
            ),
        ),
        match replaced(old(store).blocks(), links@, buck as nat, k as nat, i as nat, page_link(page@)) {
            None => r matches Err(e) && e is Passthrough && final(store).blocks() == old(store).blocks(),
            Some(l) => match r {
                Ok(v) => {
                    &&& v@ == l
                    &&& v@.len() == links@.len()
                    &&& wrote_all(
                        final(store).blocks(),
                        replaced_links(
                            old(store).blocks(),
                            links@,
                            buck as nat,
                            k as nat,
                            i as nat,
                            page_link(page@),
                        ),
                    )
                    &&& !final(store).collided() ==> path_written(
                        old(store).blocks(),
                        final(store).blocks(),
                        links@,
                        buck as nat,
                        k as nat,
                        i as nat,
                        page_link(page@),
                    ) && read_page(final(store).blocks(), page_link(page@)) == Some(page@)
                },
                Err(e) => e is Passthrough,
            },
        },
    decreases k,
{
    let mut links = links;
    let ghost store0 = *store;
    let ghost links0 = links@;
    proof {
        lemma_capacity(buck as nat, k as nat);
        lemma_follows_refl(store);
    }
    let idx = i / cap;
    if idx >= links.len() {
        return Err(Error::Passthrough("page index outside of the tree".to_string()));
    }
    if k == 0 {
        let leaf = match store.put_page(page) {
            Ok(leaf) => leaf,
            Err(e) => {
                return Err(e);
            },
        };
        links[idx] = leaf;
        return Ok(links);
    }
    let child = match store.get_bucket(&links[idx]) {
        Ok(child) => child,
        Err(e) => {
            return Err(e);
        },
    };
    let ghost child0 = child@;
    let ghost store1 = *store;
    proof {
        lemma_capacity(buck as nat, (k - 1) as nat);
        lemma_div_multiples_vanish(capacity(buck as nat, (k - 1) as nat) as int, buck as int);
    }
    let changed = match replace_leaf(store, child, buck, k - 1, cap / buck, i % cap, page) {
        Ok(changed) => changed,
        Err(e) => {
            proof {
                lemma_follows_trans(&store0, &store1, store);
            }
            return Err(e);
        },
    };
    let ghost store2 = *store;
    proof {
        lemma_follows_trans(&store0, &store1, store);
    }
    let c = match store.put_bucket(changed.as_slice()) {
        Ok(c) => c,
        Err(e) => {
            proof {
                lemma_follows_trans(&store0, &store2, store);
            }
            return Err(e);
        },
    };
    proof {
        lemma_follows_trans(&store0, &store2, store);
        if !store.collided() {
            lemma_path_written_extends(
                store0.blocks(),
                store2.blocks(),
                store.blocks(),
                child0,
                buck as nat,
                (k - 1) as nat,
                (i % cap) as nat,
                page_link(page@),
            );
            lemma_read_extends(store2.blocks(), store.blocks(), page_link(page@));
        }
    }
    links[idx] = c;
    Ok(links)
}

/// Away from the way to page `i`, a piece of a level is the same before and
/// after the page's leaf is replaced.
pub proof fn lemma_chunk_off_path(
    leaves: Seq<Cid>,
    i: nat,
    leaf: Cid,
    buck: nat,
    k: nat,
    j: int,
)
    requires
        buck >= 1,
        k >= 1,
        i < leaves.len(),
        0 <= j < level_at(leaves, buck, k).len(),
        j != i / capacity(buck, k),
    ensures
        chunk(level_at(leaves.update(i as int, leaf), buck, (k - 1) as nat), buck, j) == chunk(
            level_at(leaves, buck, (k - 1) as nat),
            buck,
            j,
        ),
    decreases k, 0nat,
{
    let after = leaves.update(i as int, leaf);
    let below = level_at(leaves, buck, (k - 1) as nat);
    let below2 = level_at(after, buck, (k - 1) as nat);
    lemma_level_at_len(leaves, buck, (k - 1) as nat);
    lemma_level_at_len(after, buck, (k - 1) as nat);
    assert(level_at(leaves, buck, k) == parents(below, buck));
    lemma_chunk(below, buck, j);
    lemma_chunk(below2, buck, j);
    lemma_window_child(leaves.len(), buck, k, i);
    let g = i as int / (capacity(buck, k) as int);
    let g1 = i as int / (capacity(buck, (k - 1) as nat) as int);
    assert((j + 1) * buck == j * buck + buck) by (nonlinear_arith);
    assert forall|x: int| 0 <= x < chunk(below, buck, j).len() implies chunk(below2, buck, j)[x]
        == chunk(below, buck, j)[x] by {
        let y = j * buck + x;
        assert(y != g1) by (nonlinear_arith)
            requires
                y == j * buck + x,
                0 <= x < buck,
                g * buck <= g1 < g * buck + buck,
                j != g,
        ;
        lemma_off_path(leaves, i, leaf, buck, (k - 1) as nat, y);
    }
    assert(chunk(below2, buck, j) =~= chunk(below, buck, j));
}

/// Away from the way to page `i`, the nodes of a level are the same before
/// and after the page's leaf is replaced.
pub proof fn lemma_off_path(leaves: Seq<Cid>, i: nat, leaf: Cid, buck: nat, k: nat, j: int)
    requires
        buck >= 1,
        i < leaves.len(),
        0 <= j < level_at(leaves, buck, k).len(),
        j != i / capacity(buck, k),
    ensures
        level_at(leaves.update(i as int, leaf), buck, k).len() == level_at(leaves, buck, k).len(),
        level_at(leaves.update(i as int, leaf), buck, k)[j] == level_at(leaves, buck, k)[j],
    decreases k, 1nat,
{
    let after = leaves.update(i as int, leaf);
    lemma_level_at_len(leaves, buck, k);
    lemma_level_at_len(after, buck, k);
    if k == 0 {
        lemma_window_index(buck, 0, 0, i);
    } else {
        lemma_chunk_off_path(leaves, i, leaf, buck, k, j);
        assert(level_at(leaves, buck, k) == parents(level_at(leaves, buck, (k - 1) as nat), buck));
        assert(level_at(after, buck, k) == parents(level_at(after, buck, (k - 1) as nat), buck));
    }
}

/// Within a window of level `k` that covers page `i` of a tree that the
/// store holds, replacing the page's leaf gives the same window of the tree
/// over the changed leaves.
pub proof fn lemma_replaced_window(
    blocks: Map<Cid, Seq<u8>>,
    leaves: Seq<Cid>,
    buck: nat,
    upto: nat,
    k: nat,
    base: int,
    links: Seq<Cid>,
    i: nat,
    leaf: Cid,
)
    requires
        buck >= 1,
        buckets_stored(blocks, leaves, buck, upto),
        k <= upto,
        i < leaves.len(),
        0 <= base,
        base + links.len() <= level_at(leaves, buck, k).len(),
        links == level_at(leaves, buck, k).subrange(base, base + links.len()),
        base <= i / capacity(buck, k) < base + links.len(),
    ensures
        base * capacity(buck, k) <= i,
        replaced(blocks, links, buck, k, (i - base * capacity(buck, k)) as nat, leaf) == Some(
            level_at(leaves.update(i as int, leaf), buck, k).subrange(base, base + links.len()),
        ),
    decreases k,
{
    let after = leaves.update(i as int, leaf);
    let c = capacity(buck, k) as int;
    lemma_capacity(buck, k);
    lemma_window_index(buck, k, base, i);
    let g = i as int / c;
    let idx = g - base;
    lemma_level_at_len(leaves, buck, k);
    lemma_level_at_len(after, buck, k);
    let want = level_at(after, buck, k).subrange(base, base + links.len());
    assert(links[idx] == level_at(leaves, buck, k)[g]);
    if k == 0 {
        assert(links.update(idx, leaf) =~= want);
    } else {
        let below = level_at(leaves, buck, (k - 1) as nat);
        let below2 = level_at(after, buck, (k - 1) as nat);
        let child = chunk(below, buck, g);
        assert(level_at(leaves, buck, k) == parents(below, buck));
        assert(level_at(after, buck, k) == parents(below2, buck));
        assert(read_bucket(blocks, level_at(leaves, buck, k)[g]) == Some(child));
        lemma_window_child(leaves.len(), buck, k, i);
        lemma_level_at_len(leaves, buck, (k - 1) as nat);
        lemma_level_at_len(after, buck, (k - 1) as nat);
        lemma_chunk(below, buck, g);
        lemma_chunk(below2, buck, g);
        assert(child == below.subrange(g * buck, g * buck + child.len()));
        lemma_replaced_window(blocks, leaves, buck, upto, (k - 1) as nat, g * buck, child, i, leaf);
        let changed = chunk(below2, buck, g);
        assert(changed == below2.subrange(g * buck, g * buck + child.len()));
        assert(level_at(after, buck, k)[g] == bucket_link(changed));
        assert forall|x: int| 0 <= x < links.len() implies links.update(
            idx,
            bucket_link(changed),
        )[x] == want[x] by {
            if x != idx {
                lemma_off_path(leaves, i, leaf, buck, k, base + x);
            }
        }
        assert(links.update(idx, bucket_link(changed)) =~= want);
    }
}

/// Within a window of level `k` that covers page `i` of a tree that the
/// store held, the buckets written on the way to the page are the buckets of
/// the tree over the changed leaves, and read back as such.
pub proof fn lemma_path_stored(
    before: Map<Cid, Seq<u8>>,
    after: Map<Cid, Seq<u8>>,
    leaves: Seq<Cid>,
    buck: nat,
    upto: nat,
    k: nat,
    base: int,
    links: Seq<Cid>,
    i: nat,
    leaf: Cid,
)
    requires
        buck >= 1,
        buckets_stored(before, leaves, buck, upto),
        k <= upto,
        i < leaves.len(),
        0 <= base,
        base + links.len() <= level_at(leaves, buck, k).len(),
        links == level_at(leaves, buck, k).subrange(base, base + links.len()),
        base <= i / capacity(buck, k) < base + links.len(),
        base * capacity(buck, k) <= i,
        path_written(
            before,
            after,
            links,
            buck,
            k,
            (i - base * capacity(buck, k)) as nat,
            leaf,
        ),
    ensures
        forall|m: nat|
            1 <= m <= k ==> read_bucket(
                after,
                #[trigger] level_at(leaves.update(i as int, leaf), buck, m)[i as int / (capacity(
                    buck,
                    m,
                ) as int)],
            ) == Some(
                chunk(
                    level_at(leaves.update(i as int, leaf), buck, (m - 1) as nat),
                    buck,
                    i as int / (capacity(buck, m) as int),
                ),
            ),
    decreases k,
{
    if k > 0 {
        let changed_leaves = leaves.update(i as int, leaf);
        let c = capacity(buck, k) as int;
        lemma_capacity(buck, k);
        lemma_window_index(buck, k, base, i);
        let g = i as int / c;
        let idx = g - base;
        let below = level_at(leaves, buck, (k - 1) as nat);
        let below2 = level_at(changed_leaves, buck, (k - 1) as nat);
        let child = chunk(below, buck, g);
        assert(links[idx] == level_at(leaves, buck, k)[g]);
        assert(level_at(leaves, buck, k) == parents(below, buck));
        assert(level_at(changed_leaves, buck, k) == parents(below2, buck));
        assert(read_bucket(before, level_at(leaves, buck, k)[g]) == Some(child));
        lemma_window_child(leaves.len(), buck, k, i);
        lemma_level_at_len(leaves, buck, k);
        lemma_level_at_len(changed_leaves, buck, k);
        lemma_level_at_len(leaves, buck, (k - 1) as nat);
        lemma_level_at_len(changed_leaves, buck, (k - 1) as nat);
        lemma_chunk(below, buck, g);
        lemma_chunk(below2, buck, g);
        assert(child == below.subrange(g * buck, g * buck + child.len()));
        lemma_replaced_window(before, leaves, buck, upto, (k - 1) as nat, g * buck, child, i, leaf);
        let changed = chunk(below2, buck, g);
        assert(changed == below2.subrange(g * buck, g * buck + child.len()));
        lemma_path_stored(before, after, leaves, buck, upto, (k - 1) as nat, g * buck, child, i, leaf);
        assert(level_at(changed_leaves, buck, k)[g] == bucket_link(changed));
    }
}

/// Replacing the leaf of page `i` in a tree that the store holds gives the
/// tree over the changed leaves, and the store holds its buckets: those on
/// the way to the page as they were written, the others as before.
pub proof fn lemma_replace_stored(
    before: Map<Cid, Seq<u8>>,
    after: Map<Cid, Seq<u8>>,
    leaves: Seq<Cid>,
    buck: nat,
    h: nat,
    i: nat,
    leaf: Cid,
)
    requires
        buck >= 1,
        i < leaves.len(),
        buckets_stored(before, leaves, buck, h),
    ensures
        replaced(before, level_at(leaves, buck, h), buck, h, i, leaf) == Some(
            level_at(leaves.update(i as int, leaf), buck, h),
        ),
        extends(before, after) && path_written(
            before,
            after,
            level_at(leaves, buck, h),
            buck,
            h,
            i,
            leaf,
        ) ==> buckets_stored(after, leaves.update(i as int, leaf), buck, h),
{
    let changed_leaves = leaves.update(i as int, leaf);
    let top = level_at(leaves, buck, h);
    lemma_level_at_len(leaves, buck, h);
    lemma_level_at_len(changed_leaves, buck, h);
    lemma_level_covers(leaves.len(), buck, h);
    lemma_capacity(buck, h);
    let c = capacity(buck, h) as int;
    assert(0 <= i as int / c < top.len()) by (nonlinear_arith)
        requires
            i < leaves.len(),
            leaves.len() <= top.len() * c,
            c >= 1,
            i >= 0,
    ;
    assert(top == top.subrange(0, top.len() as int));
    assert(0 * c == 0) by (nonlinear_arith);
    lemma_replaced_window(before, leaves, buck, h, h, 0, top, i, leaf);
    let new_top = level_at(changed_leaves, buck, h);
    assert(new_top == new_top.subrange(0, top.len() as int));
    if extends(before, after) && path_written(before, after, top, buck, h, i, leaf) {
        lemma_path_stored(before, after, leaves, buck, h, h, 0, top, i, leaf);
        assert forall|m: nat, j: int|
            1 <= m <= h && 0 <= j < level_at(changed_leaves, buck, m).len() implies read_bucket(
            after,
            #[trigger] level_at(changed_leaves, buck, m)[j],
        ) == Some(chunk(level_at(changed_leaves, buck, (m - 1) as nat), buck, j)) by {
            lemma_level_at_len(leaves, buck, m);
            lemma_level_at_len(changed_leaves, buck, m);
            if j != i as int / (capacity(buck, m) as int) {
                lemma_off_path(leaves, i, leaf, buck, m, j);
                lemma_chunk_off_path(leaves, i, leaf, buck, m, j);
                lemma_read_extends(before, after, level_at(leaves, buck, m)[j]);
            }
        }
    }
}

} // verus!
