//! Dropping the pages behind a given one: the tree is entered at the level
//! that its new height asks for, the nodes behind the last page that stays
//! are dropped, and the bucket that is cut through is read and written anew,
//! level by level down to the pages.

use crate::errors::Error;
use crate::layout::{
    capacity, ceil_div, chunk, lemma_capacity, lemma_ceil_div, lemma_chunk, lemma_index_up,
    lemma_level_covers, lemma_level_len_grows, lemma_window_child, lemma_window_index,
};
use crate::spine::lemma_full_below;
use crate::state::{buckets_stored, lemma_level_at_len, level_at, parents};
use crate::store::{
    bucket_link, extends, follows, lemma_follows_refl, lemma_follows_trans, lemma_read_extends,
    read_bucket, writes_within, wrote_all, Cas,
};
use cid::Cid;
use vstd::arithmetic::div_mod::{
    lemma_div_multiples_vanish, lemma_fundamental_div_mod, lemma_fundamental_div_mod_converse,
    lemma_mod_bound,
};
use vstd::prelude::*;

verus! {

/// The nodes of level `target` under the first node of a list of nodes of
/// level `k`: the first bucket is read at each level in between. `None`
/// where there is no first node or a block does not read as a bucket.
pub open spec fn descended(
    blocks: Map<Cid, Seq<u8>>,
    links: Seq<Cid>,
    k: nat,
    target: nat,
) -> Option<Seq<Cid>>
    decreases k,
{
    if k <= target {
        Some(links)
    } else if links.len() == 0 {
        None
    } else {
        match read_bucket(blocks, links[0]) {
            None => None,
            Some(child) => descended(blocks, child, (k - 1) as nat, target),
        }
    }
}

/// A list of nodes of level `k` cut down to its first `keep` pages: the
/// nodes that stay whole are kept, those behind are dropped, and where the
/// cut runs through a node it is replaced by the CID of its bucket cut one
/// level down. `None` where the nodes do not cover `keep` pages or a block
/// does not read as a bucket.
pub open spec fn truncated(
    blocks: Map<Cid, Seq<u8>>,
    links: Seq<Cid>,
    buck: nat,
    k: nat,
    keep: nat,
) -> Option<Seq<Cid>>
    decreases k,
{
    let cap = capacity(buck, k);
    let full = (keep / cap) as int;
    if cap == 0 {
        None
    } else if k == 0 || keep % cap == 0 {
        if full <= links.len() {
            Some(links.take(full))
        } else {
            None
        }
    } else if full >= links.len() {
        None
    } else {
        match read_bucket(blocks, links[full]) {
            None => None,
            Some(child) => match truncated(blocks, child, buck, (k - 1) as nat, keep % cap) {
                None => None,
                Some(changed) => Some(links.take(full).push(bucket_link(changed))),
            },
        }
    }
}

/// The CIDs of the blocks that are written when a list of nodes is cut
/// down: those of the buckets that the cut runs through.
pub open spec fn truncated_links(
    blocks: Map<Cid, Seq<u8>>,
    links: Seq<Cid>,
    buck: nat,
    k: nat,
    keep: nat,
) -> Set<Cid>
    decreases k,
{
    let cap = capacity(buck, k);
    let full = (keep / cap) as int;
    if cap == 0 || k == 0 || keep % cap == 0 || full >= links.len() {
        Set::empty()
    } else {
        match read_bucket(blocks, links[full]) {
            None => Set::empty(),
            Some(child) => match truncated(blocks, child, buck, (k - 1) as nat, keep % cap) {
                None => Set::empty(),
                Some(changed) => truncated_links(
                    blocks,
                    child,
                    buck,
                    (k - 1) as nat,
                    keep % cap,
                ).insert(bucket_link(changed)),
            },
        }
    }
}

/// The buckets written along the cut all read back from `after` as they
/// were written.
pub open spec fn truncated_written(
    before: Map<Cid, Seq<u8>>,
    after: Map<Cid, Seq<u8>>,
    links: Seq<Cid>,
    buck: nat,
    k: nat,
    keep: nat,
) -> bool
    decreases k,
{
    let cap = capacity(buck, k);
    let full = (keep / cap) as int;
    if cap == 0 {
        false
    } else if k == 0 || keep % cap == 0 {
        true
    } else if full >= links.len() {
        false
    } else {
        match read_bucket(before, links[full]) {
            None => false,
            Some(child) => match truncated(before, child, buck, (k - 1) as nat, keep % cap) {
                None => false,
                Some(changed) => read_bucket(after, bucket_link(changed)) == Some(changed)
                    && truncated_written(before, after, child, buck, (k - 1) as nat, keep % cap),
            },
        }
    }
}

/// Buckets that read back from a store read back from every store that
/// extends it.
pub proof fn lemma_truncated_written_extends(
    before: Map<Cid, Seq<u8>>,
    middle: Map<Cid, Seq<u8>>,
    after: Map<Cid, Seq<u8>>,
    links: Seq<Cid>,
    buck: nat,
    k: nat,
    keep: nat,
)
    requires
        truncated_written(before, middle, links, buck, k, keep),
        extends(middle, after),
    ensures
        truncated_written(before, after, links, buck, k, keep),
    decreases k,
{
    let cap = capacity(buck, k);
    let full = (keep / cap) as int;
    if k > 0 && keep % cap != 0 {
        let child = read_bucket(before, links[full])->Some_0;
        let changed = truncated(before, child, buck, (k - 1) as nat, keep % cap)->Some_0;
        lemma_read_extends(middle, after, bucket_link(changed));
        lemma_truncated_written_extends(
            before,
            middle,
            after,
            child,
            buck,
            (k - 1) as nat,
            keep % cap,
        );
    }
}

/// Reads the way down from `links`, nodes of level `k`, to the nodes of
/// level `target` under the first of them.
pub(crate) fn descend<S: Cas>(store: &mut S, links: Vec<Cid>, k: usize, target: usize) -> (r:
    Result<Vec<Cid>, Error>)
    ensures
        final(store).blocks() == old(store).blocks(),
        final(store).collided() == old(store).collided(),
        final(store).reads() >= old(store).reads(),
        match descended(old(store).blocks(), links@, k as nat, target as nat) {
            Some(l) => r matches Ok(v) && v@ == l,
            None => r matches Err(e) && e is Passthrough,
        },
    decreases k,
{
    if k <= target {
        return Ok(links);
    }
    if links.len() == 0 {
        return Err(Error::Passthrough("the page tree does not hold its page count".to_string()));
    }
    let child = match store.get_bucket(&links[0]) {
        Ok(child) => child,
        Err(e) => {
            return Err(e);
        },
    };
    descend(store, child, k - 1, target)
}

/// Cuts `links`, nodes of level `k`, down to their first `keep` pages: the
/// buckets along the cut are read first, then written anew from the bottom
/// up. Returns the list of nodes that stay.
pub(crate) fn cut_leaves<S: Cas>(
    store: &mut S,
    links: Vec<Cid>,
    buck: usize,
    k: usize,
    cap: usize,
    keep: usize,
) -> (r: Result<Vec<Cid>, Error>)
    requires
        buck >= 1,
        cap == capacity(buck as nat, k as nat),
    ensures
        follows(final(store), old(store)),
        writes_within(
            old(store).blocks(),
            final(store).blocks(),
            truncated_links(old(store).blocks(), links@, buck as nat, k as nat, keep as nat),
        ),
        match truncated(old(store).blocks(), links@, buck as nat, k as nat, keep as nat) {
            None => r matches Err(e) && e is Passthrough && final(store).blocks() == old(store).blocks(),
            Some(l) => match r {
                Ok(v) => {
                    &&& v@ == l
                    &&& v@.len() == ceil_div(keep as nat, cap as nat)
                    &&& wrote_all(
                        final(store).blocks(),
                        truncated_links(
                            old(store).blocks(),
                            links@,
                            buck as nat,
                            k as nat,
                            keep as nat,
                        ),
                    )
                    &&& !final(store).collided() ==> truncated_written(
                        old(store).blocks(),
                        final(store).blocks(),
                        links@,
                        buck as nat,
                        k as nat,
                        keep as nat,
                    )
                },
                Err(e) => e is Passthrough,
            },
        },
    decreases k,
{
    let mut links = links;
    let ghost store0 = *store;
    proof {
        lemma_capacity(buck as nat, k as nat);
        lemma_follows_refl(store);
        lemma_ceil_div(keep as nat, cap as nat);
    }
    let full = keep / cap;
    if k == 0 || keep % cap == 0 {
        if full > links.len() {
            return Err(Error::Passthrough("the page tree does not hold its page count".to_string()));
        }
        links.truncate(full);
        return Ok(links);
    }
    if full >= links.len() {
        return Err(Error::Passthrough("the page tree does not hold its page count".to_string()));
    }
    let child = match store.get_bucket(&links[full]) {
        Ok(child) => child,
        Err(e) => {
            return Err(e);
        },
    };
    let ghost child0 = child@;
    let ghost store1 = *store;
    proof {
        lemma_capacity(buck as nat, (k - 1) as nat);
        lemma_div_multiples_vanish(capacity(buck as nat, (k - 1) as nat) as int, buck as int);
    }
    let changed = match cut_leaves(store, child, buck, k - 1, cap / buck, keep % cap) {
        Ok(changed) => changed,
        Err(e) => {
            proof {
                lemma_follows_trans(&store0, &store1, store);
            }
            return Err(e);
        },
    };
    let ghost store2 = *store;
    proof {
        lemma_follows_trans(&store0, &store1, store);
    }
    let c = match store.put_bucket(changed.as_slice()) {
        Ok(c) => c,
        Err(e) => {
            proof {
                lemma_follows_trans(&store0, &store2, store);
            }
            return Err(e);
        },
    };
    proof {
        lemma_follows_trans(&store0, &store2, store);
        if !store.collided() {
            lemma_truncated_written_extends(
                store0.blocks(),
                store2.blocks(),
                store.blocks(),
                child0,
                buck as nat,
                (k - 1) as nat,
                (keep % cap) as nat,
            );
        }
    }
    links.truncate(full);
    links.push(c);
    Ok(links)
}

/// Counting from the start of a window that covers the last page that
/// stays: the pages that stay within the window, in whole nodes and pages
/// left over, and the node that the cut runs through.
pub proof fn lemma_cut_index(buck: nat, k: nat, base: int, keep: nat)
    requires
        buck >= 1,
        keep > 0,
        0 <= base <= (keep - 1) / (capacity(buck, k) as int),
    ensures
        base * capacity(buck, k) < keep,
        (keep - base * capacity(buck, k)) / (capacity(buck, k) as int) == keep / capacity(buck, k)
            - base,
        (keep - base * capacity(buck, k)) % (capacity(buck, k) as int) == keep % capacity(buck, k),
        keep % capacity(buck, k) > 0 ==> keep / capacity(buck, k) == (keep - 1) / (capacity(
            buck,
            k,
        ) as int),
        keep % capacity(buck, k) == 0 ==> keep / capacity(buck, k) == (keep - 1) / (capacity(
            buck,
            k,
        ) as int) + 1,
        0 <= keep % capacity(buck, k) < capacity(buck, k),
{
    let c = capacity(buck, k) as int;
    lemma_capacity(buck, k);
    let last = (keep - 1) as nat;
    lemma_window_index(buck, k, base, last);
    let g = last as int / c;
    lemma_fundamental_div_mod(last as int, c);
    lemma_mod_bound(last as int, c);
    lemma_fundamental_div_mod(keep as int, c);
    lemma_mod_bound(keep as int, c);
    let full = keep as int / c;
    let rest = keep as int % c;
    if last as int % c + 1 < c {
        lemma_fundamental_div_mod_converse(keep as int, c, g, last as int % c + 1);
    } else {
        assert(keep == (g + 1) * c + 0) by (nonlinear_arith)
            requires
                last == c * g + last as int % c,
                last as int % c + 1 == c,
                keep == last + 1,
        ;
        lemma_fundamental_div_mod_converse(keep as int, c, g + 1, 0);
    }
    assert(base * c < keep) by (nonlinear_arith)
        requires
            base * c <= last,
            keep == last + 1,
    ;
    let local = keep - base * c;
    assert(local == (full - base) * c + rest) by (nonlinear_arith)
        requires
            keep == c * full + rest,
            local == keep - base * c,
    ;
    lemma_fundamental_div_mod_converse(local, c, full - base, rest);
}

/// Where the cut runs through a node of level `k`, the nodes that stay one
/// level down end within that node's bucket, and the pages that stay under
/// the node are those left over.
pub proof fn lemma_cut_child(buck: nat, k: nat, keep: nat)
    requires
        buck >= 1,
        k >= 1,
        keep % capacity(buck, k) > 0,
    ensures
        ceil_div(keep, capacity(buck, (k - 1) as nat)) <= (keep / capacity(buck, k) + 1) * buck,
        keep - (keep / capacity(buck, k)) * buck * capacity(buck, (k - 1) as nat) == keep
            % capacity(buck, k),
{
    let c = capacity(buck, k) as int;
    let c1 = capacity(buck, (k - 1) as nat) as int;
    lemma_capacity(buck, k);
    lemma_capacity(buck, (k - 1) as nat);
    lemma_fundamental_div_mod(keep as int, c);
    lemma_mod_bound(keep as int, c);
    lemma_ceil_div(keep, c1 as nat);
    let g = keep as int / c;
    let rest = keep as int % c;
    let q = ceil_div(keep, c1 as nat) as int;
    assert(q <= (g + 1) * buck && keep - g * buck * c1 == rest) by (nonlinear_arith)
        requires
            (q - 1) * c1 < keep,
            keep == c * g + rest,
            rest < c,
            c == buck * c1,
            c1 >= 1,
            q >= 0,
    ;
}

/// The levels of a tree cut down to its first `keep` leaves: each level has
/// one node for every `buck` to the power of the level leaves, and the nodes
/// that hold kept leaves only, with their buckets, are as before.
pub proof fn lemma_take_levels(leaves: Seq<Cid>, keep: nat, buck: nat, k: nat)
    requires
        buck >= 1,
        keep <= leaves.len(),
    ensures
        level_at(leaves.take(keep as int), buck, k).len() == ceil_div(keep, capacity(buck, k)),
        level_at(leaves.take(keep as int), buck, k).len() <= level_at(leaves, buck, k).len(),
        keep / capacity(buck, k) <= level_at(leaves.take(keep as int), buck, k).len(),
        forall|j: int|
            0 <= j < keep / capacity(buck, k) ==> #[trigger] level_at(
                leaves.take(keep as int),
                buck,
                k,
            )[j] == level_at(leaves, buck, k)[j],
        k >= 1 ==> forall|j: int|
            0 <= j < keep / capacity(buck, k) ==> #[trigger] chunk(
                level_at(leaves.take(keep as int), buck, (k - 1) as nat),
                buck,
                j,
            ) == chunk(level_at(leaves, buck, (k - 1) as nat), buck, j),
    decreases k,
{
    let n = leaves.len();
    let cut = leaves.take(keep as int);
    let c = capacity(buck, k) as int;
    lemma_capacity(buck, k);
    lemma_level_at_len(leaves, buck, k);
    lemma_level_at_len(cut, buck, k);
    lemma_level_covers(keep, buck, k);
    lemma_level_len_grows(keep, n, buck, k);
    lemma_ceil_div(keep, c as nat);
    let full = keep as int / c;
    if k == 0 {
        lemma_window_index(buck, 0, 0, keep);
    } else {
        let c1 = capacity(buck, (k - 1) as nat) as int;
        let b = buck as int;
        lemma_capacity(buck, (k - 1) as nat);
        lemma_take_levels(leaves, keep, buck, (k - 1) as nat);
        let below = level_at(leaves, buck, (k - 1) as nat);
        let below2 = level_at(cut, buck, (k - 1) as nat);
        assert(level_at(leaves, buck, k) == parents(below, buck));
        assert(level_at(cut, buck, k) == parents(below2, buck));
        let full1 = keep as int / c1;
        lemma_index_up(keep, buck, (k - 1) as nat);
        assert(full1 / b == full);
        lemma_fundamental_div_mod(full1, b);
        lemma_mod_bound(full1, b);
        assert forall|j: int| 0 <= j < full implies #[trigger] chunk(below2, buck, j) == chunk(
            below,
            buck,
            j,
        ) by {
            assert((j + 1) * b <= full1 && (j + 1) * b == j * b + b && 0 <= j * b)
                by (nonlinear_arith)
                requires
                    0 <= j < full,
                    full1 == b * full + full1 % b,
                    0 <= full1 % b,
                    b >= 1,
            ;
            lemma_chunk(below, buck, j);
            lemma_chunk(below2, buck, j);
            assert forall|x: int| 0 <= x < b implies #[trigger] chunk(below2, buck, j)[x] == chunk(
                below,
                buck,
                j,
            )[x] by {
                assert(below2[j * b + x] == below[j * b + x]);
            }
            assert(chunk(below2, buck, j) =~= chunk(below, buck, j));
        }
        assert forall|j: int| 0 <= j < full implies #[trigger] level_at(cut, buck, k)[j]
            == level_at(leaves, buck, k)[j] by {
            assert(chunk(below2, buck, j) == chunk(below, buck, j));
        }
    }
}

/// Within a window of level `k` of a tree that the store holds, which
/// covers the last leaf that stays, cutting gives the same window of the
/// tree over the leaves that stay, up to that tree's end.
pub proof fn lemma_truncated_window(
    blocks: Map<Cid, Seq<u8>>,
    leaves: Seq<Cid>,
    buck: nat,
    upto: nat,
    k: nat,
    base: int,
    links: Seq<Cid>,
    keep: nat,
)
    requires
        buck >= 1,
        buckets_stored(blocks, leaves, buck, upto),
        k <= upto,
        0 < keep <= leaves.len(),
        0 <= base,
        base + links.len() <= level_at(leaves, buck, k).len(),
        links == level_at(leaves, buck, k).subrange(base, base + links.len()),
        base <= (keep - 1) / (capacity(buck, k) as int) < base + links.len(),
    ensures
        base * capacity(buck, k) < keep,
        base <= level_at(leaves.take(keep as int), buck, k).len(),
        truncated(blocks, links, buck, k, (keep - base * capacity(buck, k)) as nat) == Some(
            level_at(leaves.take(keep as int), buck, k).subrange(
                base,
                level_at(leaves.take(keep as int), buck, k).len() as int,
            ),
        ),
    decreases k,
{
    let n = leaves.len();
    let cut = leaves.take(keep as int);
    let c = capacity(buck, k) as int;
    lemma_capacity(buck, k);
    let last = (keep - 1) as nat;
    lemma_cut_index(buck, k, base, keep);
    lemma_take_levels(leaves, keep, buck, k);
    lemma_ceil_div(keep, c as nat);
    let g = last as int / c;
    let full = keep as int / c;
    let rest = keep as int % c;
    let level = level_at(leaves, buck, k);
    let level2 = level_at(cut, buck, k);
    let want = level2.subrange(base, level2.len() as int);
    if k == 0 || rest == 0 {
        assert(links.take(full - base) =~= want);
    } else {
        assert(full == g);
        let idx = g - base;
        let below = level_at(leaves, buck, (k - 1) as nat);
        let below2 = level_at(cut, buck, (k - 1) as nat);
        let child = chunk(below, buck, g);
        assert(level == parents(below, buck));
        assert(level2 == parents(below2, buck));
        assert(links[idx] == level[g]);
        assert(read_bucket(blocks, level[g]) == Some(child));
        lemma_window_child(n, buck, k, last);
        lemma_level_at_len(leaves, buck, (k - 1) as nat);
        lemma_level_at_len(cut, buck, (k - 1) as nat);
        lemma_take_levels(leaves, keep, buck, (k - 1) as nat);
        lemma_chunk(below, buck, g);
        lemma_chunk(below2, buck, g);
        let c1 = capacity(buck, (k - 1) as nat) as int;
        let g1 = last as int / c1;
        assert(child == below.subrange(g * buck, g * buck + child.len()));
        lemma_truncated_window(blocks, leaves, buck, upto, (k - 1) as nat, g * buck, child, keep);
        lemma_cut_child(buck, k, keep);
        assert(keep - g * buck * c1 == rest);
        let changed = chunk(below2, buck, g);
        assert(changed == below2.subrange(g * buck, below2.len() as int));
        assert(level2[g] == bucket_link(changed));
        assert(links.take(idx).push(bucket_link(changed)) =~= want);
    }
}

/// Within a window of level `k` of a tree that the store held, which covers
/// the last leaf that stays, the buckets written along the cut are the last
/// buckets of the tree over the leaves that stay, and read back as such.
pub proof fn lemma_truncated_stored(
    before: Map<Cid, Seq<u8>>,
    after: Map<Cid, Seq<u8>>,
    leaves: Seq<Cid>,
    buck: nat,
    upto: nat,
    k: nat,
    base: int,
    links: Seq<Cid>,
    keep: nat,
)
    requires
        buck >= 1,
        buckets_stored(before, leaves, buck, upto),
        k <= upto,
        0 < keep <= leaves.len(),
        0 <= base,
        base + links.len() <= level_at(leaves, buck, k).len(),
        links == level_at(leaves, buck, k).subrange(base, base + links.len()),
        base <= (keep - 1) / (capacity(buck, k) as int) < base + links.len(),
        base * capacity(buck, k) < keep,
        truncated_written(
            before,
            after,
            links,
            buck,
            k,
            (keep - base * capacity(buck, k)) as nat,
        ),
    ensures
        forall|m: nat|
            1 <= m <= k && keep % capacity(buck, m) > 0 ==> read_bucket(
                after,
                #[trigger] level_at(leaves.take(keep as int), buck, m)[keep as int / (capacity(
                    buck,
                    m,
                ) as int)],
            ) == Some(
                chunk(
                    level_at(leaves.take(keep as int), buck, (m - 1) as nat),
                    buck,
                    keep as int / (capacity(buck, m) as int),
                ),
            ),
    decreases k,
{
    let n = leaves.len();
    let cut = leaves.take(keep as int);
    let c = capacity(buck, k) as int;
    lemma_capacity(buck, k);
    let rest = keep as int % c;
    if k > 0 && rest == 0 {
        assert forall|m: nat| 1 <= m <= k implies keep % capacity(buck, m) == 0 by {
            lemma_full_below(keep, buck, k, m);
        }
    } else if k > 0 {
        let last = (keep - 1) as nat;
        lemma_cut_index(buck, k, base, keep);
        lemma_take_levels(leaves, keep, buck, k);
        lemma_ceil_div(keep, c as nat);
        let g = last as int / c;
        let full = keep as int / c;
        assert(full == g);
        let idx = g - base;
        let level = level_at(leaves, buck, k);
        let level2 = level_at(cut, buck, k);
        let below = level_at(leaves, buck, (k - 1) as nat);
        let below2 = level_at(cut, buck, (k - 1) as nat);
        let child = chunk(below, buck, g);
        assert(level == parents(below, buck));
        assert(level2 == parents(below2, buck));
        assert(links[idx] == level[g]);
        assert(read_bucket(before, level[g]) == Some(child));
        lemma_window_child(n, buck, k, last);
        lemma_level_at_len(leaves, buck, (k - 1) as nat);
        lemma_level_at_len(cut, buck, (k - 1) as nat);
        lemma_take_levels(leaves, keep, buck, (k - 1) as nat);
        lemma_chunk(below, buck, g);
        lemma_chunk(below2, buck, g);
        let c1 = capacity(buck, (k - 1) as nat) as int;
        assert(child == below.subrange(g * buck, g * buck + child.len()));
        lemma_truncated_window(before, leaves, buck, upto, (k - 1) as nat, g * buck, child, keep);
        lemma_cut_child(buck, k, keep);
        assert(keep - g * buck * c1 == rest);
        let changed = chunk(below2, buck, g);
        assert(changed == below2.subrange(g * buck, below2.len() as int));
        assert(level2[g] == bucket_link(changed));
        lemma_truncated_stored(
            before,
            after,
            leaves,
            buck,
            upto,
            (k - 1) as nat,
            g * buck,
            child,
            keep,
        );
    }
}

/// From the top level of a tree that the store holds, the way down under
/// the first node leads to the first bucket's worth of each level.
pub proof fn lemma_descended(
    blocks: Map<Cid, Seq<u8>>,
    leaves: Seq<Cid>,
    buck: nat,
    upto: nat,
    k: nat,
    target: nat,
    links: Seq<Cid>,
)
    requires
        buck >= 1,
        leaves.len() > 0,
        buckets_stored(blocks, leaves, buck, upto),
        target <= k <= upto,
        links.len() > 0,
        links.len() <= level_at(leaves, buck, k).len(),
        links == level_at(leaves, buck, k).subrange(0, links.len() as int),
        k < upto ==> links == chunk(level_at(leaves, buck, k), buck, 0),
    ensures
        descended(blocks, links, k, target) matches Some(l) && l.len() > 0 && l.len() <= level_at(
            leaves,
            buck,
            target,
        ).len() && l == level_at(leaves, buck, target).subrange(0, l.len() as int) && (target
            < upto ==> l == chunk(level_at(leaves, buck, target), buck, 0)),
    decreases k,
{
    if k > target {
        let below = level_at(leaves, buck, (k - 1) as nat);
        assert(level_at(leaves, buck, k) == parents(below, buck));
        assert(links[0] == level_at(leaves, buck, k)[0]);
        let child = chunk(below, buck, 0);
        assert(read_bucket(blocks, level_at(leaves, buck, k)[0]) == Some(child));
        lemma_chunk(below, buck, 0);
        assert(0 * buck == 0 && (0 + 1) * buck == buck) by (nonlinear_arith);
        lemma_descended(blocks, leaves, buck, upto, (k - 1) as nat, target, child);
    }
}

/// Cutting a tree that the store holds down to its first `keep` leaves,
/// begun at the level `h` of the new height, gives the top level of the
/// tree over the leaves that stay, and the store holds that tree's buckets:
/// those along the cut as they were written, the others as before.
pub proof fn lemma_truncate_stored(
    before: Map<Cid, Seq<u8>>,
    after: Map<Cid, Seq<u8>>,
    leaves: Seq<Cid>,
    buck: nat,
    upto: nat,
    h: nat,
    keep: nat,
)
    requires
        buck >= 1,
        0 < keep <= leaves.len(),
        h <= upto,
        buckets_stored(before, leaves, buck, upto),
        level_at(leaves, buck, upto).len() <= buck,
        ceil_div(keep, capacity(buck, h)) <= buck,
    ensures
        descended(before, level_at(leaves, buck, upto), upto, h) matches Some(w) && truncated(
            before,
            w,
            buck,
            h,
            keep,
        ) == Some(level_at(leaves.take(keep as int), buck, h)) && (extends(before, after)
            && truncated_written(before, after, w, buck, h, keep) ==> buckets_stored(
            after,
            leaves.take(keep as int),
            buck,
            h,
        )),
{
    let n = leaves.len();
    let cut = leaves.take(keep as int);
    let top = level_at(leaves, buck, upto);
    lemma_level_at_len(leaves, buck, upto);
    lemma_level_covers(n, buck, upto);
    assert(top == top.subrange(0, top.len() as int));
    lemma_descended(before, leaves, buck, upto, upto, h, top);
    let w = descended(before, top, upto, h)->Some_0;
    let c = capacity(buck, h) as int;
    lemma_capacity(buck, h);
    let last = (keep - 1) as nat;
    lemma_take_levels(leaves, keep, buck, h);
    lemma_ceil_div(keep, c as nat);
    lemma_level_at_len(leaves, buck, h);
    lemma_level_covers(n, buck, h);
    let level = level_at(leaves, buck, h);
    let q = ceil_div(keep, c as nat) as int;
    assert(0 <= last as int / c < q) by (nonlinear_arith)
        requires
            last == keep - 1,
            keep >= 1,
            keep <= q * c,
            c >= 1,
    ;
    // the window holds the first bucket's worth of the level, or the whole level
    if h < upto {
        lemma_ceil_div(level.len(), buck);
        lemma_chunk(level, buck, 0);
        assert(0 * buck == 0 && (0 + 1) * buck == buck) by (nonlinear_arith);
        assert(q <= level.len());
        assert(last as int / c < w.len());
    } else {
        assert(w == top);
        assert(q <= level.len());
    }
    assert(0 * c == 0) by (nonlinear_arith);
    lemma_truncated_window(before, leaves, buck, upto, h, 0, w, keep);
    let new_top = level_at(cut, buck, h);
    assert(new_top == new_top.subrange(0, new_top.len() as int));
    if extends(before, after) && truncated_written(before, after, w, buck, h, keep) {
        lemma_truncated_stored(before, after, leaves, buck, upto, h, 0, w, keep);
        assert forall|m: nat, j: int|
            1 <= m <= h && 0 <= j < level_at(cut, buck, m).len() implies read_bucket(
            after,
            #[trigger] level_at(cut, buck, m)[j],
        ) == Some(chunk(level_at(cut, buck, (m - 1) as nat), buck, j)) by {
            lemma_take_levels(leaves, keep, buck, m);
            lemma_capacity(buck, m);
            lemma_ceil_div(keep, capacity(buck, m));
            lemma_level_at_len(leaves, buck, m);
            if j < keep as int / (capacity(buck, m) as int) {
                assert(level_at(cut, buck, m)[j] == level_at(leaves, buck, m)[j]);
                assert(chunk(level_at(cut, buck, (m - 1) as nat), buck, j) == chunk(
                    level_at(leaves, buck, (m - 1) as nat),
                    buck,
                    j,
                ));
                lemma_read_extends(before, after, level_at(leaves, buck, m)[j]);
            }
        }
    }
}

} // verus!
