//! What holds of the page tree whatever the image and the fan-out: a tree
//! that the store holds leads to every page, what is written is read back,
//! and what is cut off reads as zeros.

use crate::layout::{
    capacity, ceil_div, chunk, height, lemma_capacity, lemma_ceil_div, lemma_chunk,
    lemma_height_capacity, lemma_level_covers, lemma_window_child, lemma_window_index, padded,
    zeros,
};
use crate::path::lemma_replace_stored;
use crate::state::{
    buckets_stored, leaf_links, lemma_level_at_len, level_at, pages_of, parents, put_seq, walk,
    DB,
};
use crate::store::{page_link, read_bucket};
use cid::Cid;
use vstd::arithmetic::div_mod::lemma_fundamental_div_mod;
use vstd::prelude::*;

verus! {

/// Within a window of level `k` that covers page `i`, the walk ends at the
/// page's CID.
pub proof fn lemma_walk_window(
    blocks: Map<Cid, Seq<u8>>,
    leaves: Seq<Cid>,
    buck: nat,
    upto: nat,
    k: nat,
    base: int,
    links: Seq<Cid>,
    i: nat,
)
    requires
        buck >= 1,
        buckets_stored(blocks, leaves, buck, upto),
        k <= upto,
        i < leaves.len(),
        0 <= base,
        base + links.len() <= level_at(leaves, buck, k).len(),
        links == level_at(leaves, buck, k).subrange(base, base + links.len()),
        base <= i / capacity(buck, k) < base + links.len(),
    ensures
        base * capacity(buck, k) <= i,
        walk(blocks, links, buck, k, (i - base * capacity(buck, k)) as nat) == Some(
            leaves[i as int],
        ),
    decreases k,
{
    let c = capacity(buck, k) as int;
    lemma_capacity(buck, k);
    lemma_window_index(buck, k, base, i);
    let g = i as int / c;
    assert(links[g - base] == level_at(leaves, buck, k)[g]);
    if k > 0 {
        let below = level_at(leaves, buck, (k - 1) as nat);
        let next = chunk(below, buck, g);
        assert(level_at(leaves, buck, k) == parents(below, buck));
        assert(read_bucket(blocks, level_at(leaves, buck, k)[g]) == Some(next));
        lemma_window_child(leaves.len(), buck, k, i);
        lemma_level_at_len(leaves, buck, (k - 1) as nat);
        lemma_chunk(below, buck, g);
        assert(next == below.subrange(g * buck, g * buck + next.len()));
        lemma_walk_window(blocks, leaves, buck, upto, (k - 1) as nat, g * buck, next, i);
    }
}

/// A tree that the store holds leads to every page: reading page `i`
/// through the tree gives the page itself.
pub proof fn lemma_page_found(db: DB, blocks: Map<Cid, Seq<u8>>, pages: Seq<Seq<u8>>, i: nat)
    requires
        db.holds(blocks, pages),
        i < pages.len(),
    ensures
        db.page_at(blocks, i) == Some(pages[i as int]),
{
    let leaves = leaf_links(pages);
    let buck = db.buck_size as nat;
    let h = db.tree_height as nat;
    let top = level_at(leaves, buck, h);
    lemma_level_at_len(leaves, buck, h);
    lemma_level_covers(leaves.len(), buck, h);
    lemma_capacity(buck, h);
    let c = capacity(buck, h) as int;
    lemma_fundamental_div_mod(i as int, c);
    assert(0 <= i as int / c < top.len()) by (nonlinear_arith)
        requires
            i == c * (i as int / c) + (i as int % c),
            0 <= i as int % c < c,
            i < leaves.len(),
            leaves.len() <= top.len() * c,
            c >= 1,
    ;
    assert(top == top.subrange(0, top.len() as int));
    lemma_walk_window(blocks, leaves, buck, h, h, 0, top, i);
    assert(0 * c == 0) by (nonlinear_arith);
    assert(pages[i as int] == pages[i as int]);
}

/// A byte image filled up with zeros to a whole number of pages.
pub open spec fn padded_image(data: Seq<u8>, page_size: nat) -> Seq<u8> {
    data + zeros((ceil_div(data.len(), page_size) * page_size - data.len()) as nat)
}

/// Round trip: where the store holds the pages of an image under a tree,
/// every page of the tree reads back as its piece of the image, and, filled
/// up with zeros, as its piece of the image filled up to whole pages. So the
/// pages in order make up the padded image.
pub proof fn law_round_trip(db: DB, blocks: Map<Cid, Seq<u8>>, data: Seq<u8>, i: nat)
    requires
        db.holds(blocks, pages_of(data, db.page_size as nat)),
        i < db.page_count,
    ensures
        db.page_count == ceil_div(data.len(), db.page_size as nat),
        db.page_at(blocks, i) == Some(chunk(data, db.page_size as nat, i as int)),
        padded(chunk(data, db.page_size as nat, i as int), db.page_size as nat) == padded_image(
            data,
            db.page_size as nat,
        ).subrange((i * db.page_size) as int, ((i + 1) * db.page_size) as int),
{
    let size = db.page_size as nat;
    let pages = pages_of(data, size);
    lemma_page_found(db, blocks, pages, i);
    lemma_chunk(data, size, i as int);
    lemma_ceil_div(data.len(), size);
    let q = ceil_div(data.len(), size) as int;
    let page = chunk(data, size, i as int);
    let whole = padded_image(data, size);
    assert((i + 1) * size == i * size + size && (i + 1) * size <= q * size) by (nonlinear_arith)
        requires
            0 <= i < q,
    ;
    assert(padded(page, size) =~= whole.subrange((i * size) as int, ((i + 1) * size) as int));
}

/// Fan-out: every bucket of a tree holds at least one link and no more than
/// `buck`, every bucket but the last of its level holds exactly `buck`, and
/// the top level has no more than `buck` nodes.
pub proof fn law_fan_out(leaves: Seq<Cid>, buck: nat, k: nat, j: int)
    requires
        buck >= 2,
        1 <= k <= height(leaves.len(), buck),
        0 <= j < level_at(leaves, buck, k).len(),
    ensures
        0 < chunk(level_at(leaves, buck, (k - 1) as nat), buck, j).len() <= buck,
        j + 1 < level_at(leaves, buck, k).len() ==> chunk(
            level_at(leaves, buck, (k - 1) as nat),
            buck,
            j,
        ).len() == buck,
        level_at(leaves, buck, height(leaves.len(), buck)).len() <= buck,
        level_at(leaves, buck, k).len() == ceil_div(leaves.len(), capacity(buck, k)),
{
    let below = level_at(leaves, buck, (k - 1) as nat);
    assert(level_at(leaves, buck, k) == parents(below, buck));
    lemma_chunk(below, buck, j);
    lemma_ceil_div(below.len(), buck);
    let q = ceil_div(below.len(), buck) as int;
    if j + 1 < q {
        assert((j + 1) * buck <= below.len()) by (nonlinear_arith)
            requires
                j + 1 <= q - 1,
                (q - 1) * buck < below.len(),
                buck >= 2,
        ;
    }
    lemma_height_capacity(leaves.len(), buck);
    lemma_level_at_len(leaves, buck, height(leaves.len(), buck));
    lemma_level_at_len(leaves, buck, k);
    lemma_level_covers(leaves.len(), buck, k);
}

/// A write is read back: where the store holds the pages after a write of
/// `page` at `index`, page `index` reads as `page` and every other page as
/// before.
pub proof fn law_put_then_get(
    db: DB,
    blocks: Map<Cid, Seq<u8>>,
    pages: Seq<Seq<u8>>,
    index: nat,
    page: Seq<u8>,
    i: nat,
)
    requires
        index <= pages.len(),
        db.holds(blocks, put_seq(pages, index as int, page)),
        i < pages.len() || i == index,
    ensures
        db.page_count == if index < pages.len() {
            pages.len()
        } else {
            pages.len() + 1
        },
        i == index ==> db.page_at(blocks, i) == Some(page),
        i != index ==> db.page_at(blocks, i) == Some(pages[i as int]),
{
    lemma_page_found(db, blocks, put_seq(pages, index as int, page), i);
}

/// A write made twice is made once: where the store holds a tree, writing
/// over a page the page that is there gives the same top level at the same
/// height, so the state root does not change.
pub proof fn law_put_twice(db: DB, blocks: Map<Cid, Seq<u8>>, pages: Seq<Seq<u8>>, index: nat)
    requires
        db.holds(blocks, pages),
        index < pages.len(),
    ensures
        db.put_top(blocks, index, page_link(pages[index as int])) == Some(
            (db.tree_height as nat, db.page_tree@),
        ),
{
    let leaves = leaf_links(pages);
    let link = page_link(pages[index as int]);
    lemma_replace_stored(
        blocks,
        blocks,
        leaves,
        db.buck_size as nat,
        db.tree_height as nat,
        index,
        link,
    );
    assert(leaves.update(index as int, link) =~= leaves);
}

/// After a truncation to `retain` pages the tree has `retain` pages, the
/// pages that stay read as before, and every page from `retain` on reads as
/// zeros.
pub proof fn law_truncate(
    db: DB,
    blocks: Map<Cid, Seq<u8>>,
    pages: Seq<Seq<u8>>,
    retain: nat,
    i: nat,
)
    requires
        retain <= pages.len(),
        db.holds(blocks, pages.take(retain as int)),
    ensures
        db.page_count == retain,
        i >= retain ==> db.page_at(blocks, i) == Some(zeros(db.page_size as nat)),
        i < retain ==> db.page_at(blocks, i) == Some(pages[i as int]),
{
    if i < retain {
        lemma_page_found(db, blocks, pages.take(retain as int), i);
    }
}

/// What the descriptor's invariant comes to: a tree without pages has an
/// empty top level and no other has; a flat tree lists its pages; from one
/// level of buckets on, the top level has one node for every `buck_size` to
/// the power of the height pages, no more than `buck_size` nodes in all, and
/// a single node of it covers fewer pages than the tree has.
pub proof fn law_descriptor(db: DB)
    requires
        db.wf(),
    ensures
        db.page_count == 0 <==> db.page_tree@.len() == 0,
        db.tree_height == 0 ==> db.page_tree@.len() == db.page_count,
        db.page_tree@.len() == ceil_div(
            db.page_count as nat,
            capacity(db.buck_size as nat, db.tree_height as nat),
        ),
        db.page_tree@.len() <= db.buck_size,
        db.tree_height >= 1 ==> capacity(db.buck_size as nat, db.tree_height as nat)
            < db.page_count,
{
    let n = db.page_count as nat;
    let buck = db.buck_size as nat;
    lemma_level_covers(n, buck, db.tree_height as nat);
    lemma_height_capacity(n, buck);
}

} // verus!
