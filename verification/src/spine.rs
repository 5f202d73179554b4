//! Adding a page behind the last: the buckets on the right edge of the tree
//! are read, and written anew from the page up; where the last node of a
//! level is full, a new node is begun beside it.

use crate::errors::Error;
use crate::layout::{
    capacity, chunk, lemma_capacity, lemma_ceil_div, lemma_chunk, lemma_index_up,
    lemma_level_len_split, lemma_window_child, lemma_window_index,
};
use crate::state::{buckets_stored, lemma_level_at_len, level_at, parents};
use crate::store::{
    bucket_link, extends, follows, lemma_follows_refl, lemma_follows_trans, lemma_read_extends,
    page_link, read_bucket, read_page, writes_within, wrote_all, Cas,
};
use cid::Cid;
use vstd::arithmetic::div_mod::{
    lemma_div_multiples_vanish, lemma_fundamental_div_mod, lemma_mod_bound,
};
use vstd::prelude::*;

verus! {

/// The node of level `k` over a single leaf: a chain of buckets of one link.
pub open spec fn spine(leaf: Cid, k: nat) -> Cid
    decreases k,
{
    if k == 0 {
        leaf
    } else {
        bucket_link(seq![spine(leaf, (k - 1) as nat)])
    }
}

/// A list of nodes of level `k` that cover `count` pages, after one more
/// page with the CID `leaf` has been added behind them: where the nodes are
/// all full a new node over the leaf alone is added, else the last node is
/// replaced by the CID of its bucket with the leaf added one level down.
/// `None` where the count does not go with the nodes or a block does not
/// read as a bucket.
pub open spec fn appended(
    blocks: Map<Cid, Seq<u8>>,
    links: Seq<Cid>,
    buck: nat,
    k: nat,
    count: nat,
    leaf: Cid,
) -> Option<Seq<Cid>>
    decreases k,
{
    let cap = capacity(buck, k);
    let idx = (count / cap) as int;
    if k == 0 {
        Some(links.push(leaf))
    } else if cap == 0 {
        None
    } else if idx >= links.len() {
        Some(links.push(spine(leaf, k)))
    } else if idx + 1 == links.len() && count % cap > 0 {
        match read_bucket(blocks, links[idx]) {
            None => None,
            Some(child) => match appended(blocks, child, buck, (k - 1) as nat, count % cap, leaf) {
                None => None,
                Some(changed) => Some(links.update(idx, bucket_link(changed))),
            },
        }
    } else {
        None
    }
}

/// The CIDs of the buckets of the chain over a leaf, from level 1 to `k`.
pub open spec fn spine_links(leaf: Cid, k: nat) -> Set<Cid>
    decreases k,
{
    if k == 0 {
        Set::empty()
    } else {
        spine_links(leaf, (k - 1) as nat).insert(spine(leaf, k))
    }
}

/// The CIDs of the blocks that are written when a page with the CID `leaf`
/// is added: the page's own, and those of the buckets that are changed or
/// new on the right edge.
pub open spec fn appended_links(
    blocks: Map<Cid, Seq<u8>>,
    links: Seq<Cid>,
    buck: nat,
    k: nat,
    count: nat,
    leaf: Cid,
) -> Set<Cid>
    decreases k,
{
    let cap = capacity(buck, k);
    let idx = (count / cap) as int;
    if k == 0 {
        set![leaf]
    } else if cap == 0 {
        Set::empty()
    } else if idx >= links.len() {
        spine_links(leaf, k).insert(leaf)
    } else if idx + 1 == links.len() && count % cap > 0 {
        match read_bucket(blocks, links[idx]) {
            None => Set::empty(),
            Some(child) => match appended(blocks, child, buck, (k - 1) as nat, count % cap, leaf) {
                None => Set::empty(),
                Some(changed) => appended_links(
                    blocks,
                    child,
                    buck,
                    (k - 1) as nat,
                    count % cap,
                    leaf,
                ).insert(bucket_link(changed)),
            },
        }
    } else {
        Set::empty()
    }
}

/// The bucket of level `m` of the chain over a leaf reads back.
pub open spec fn spine_stored(after: Map<Cid, Seq<u8>>, leaf: Cid, m: nat) -> bool {
    read_bucket(after, spine(leaf, m)) == Some(seq![spine(leaf, (m - 1) as nat)])
}

/// The buckets of the chain over a leaf, up to level `k`, read back.
pub open spec fn spine_written(after: Map<Cid, Seq<u8>>, leaf: Cid, k: nat) -> bool {
    forall|m: nat| 1 <= m <= k ==> #[trigger] spine_stored(after, leaf, m)
}

/// The buckets written on the right edge when a page is added all read
/// back from `after` as they were written.
pub open spec fn appended_written(
    before: Map<Cid, Seq<u8>>,
    after: Map<Cid, Seq<u8>>,
    links: Seq<Cid>,
    buck: nat,
    k: nat,
    count: nat,
    leaf: Cid,
) -> bool
    decreases k,
{
    let cap = capacity(buck, k);
    let idx = (count / cap) as int;
    if k == 0 {
        true
    } else if cap == 0 {
        false
    } else if idx >= links.len() {
        spine_written(after, leaf, k)
    } else if idx + 1 == links.len() && count % cap > 0 {
        match read_bucket(before, links[idx]) {
            None => false,
            Some(child) => match appended(before, child, buck, (k - 1) as nat, count % cap, leaf) {
                None => false,
                Some(changed) => read_bucket(after, bucket_link(changed)) == Some(changed)
                    && appended_written(
                    before,
                    after,
                    child,
                    buck,
                    (k - 1) as nat,
                    count % cap,
                    leaf,
                ),
            },
        }
    } else {
        false
    }
}

/// Buckets that read back from a store read back from every store that
/// extends it.
pub proof fn lemma_appended_written_extends(
    before: Map<Cid, Seq<u8>>,
    middle: Map<Cid, Seq<u8>>,
    after: Map<Cid, Seq<u8>>,
    links: Seq<Cid>,
    buck: nat,
    k: nat,
    count: nat,
    leaf: Cid,
)
    requires
        appended_written(before, middle, links, buck, k, count, leaf),
        extends(middle, after),
    ensures
        appended_written(before, after, links, buck, k, count, leaf),
    decreases k,
{
    if k > 0 {
        let cap = capacity(buck, k);
        let idx = (count / cap) as int;
        if idx >= links.len() {
            assert forall|m: nat| 1 <= m <= k implies #[trigger] spine_stored(after, leaf, m) by {
                assert(spine_stored(middle, leaf, m));
                lemma_read_extends(middle, after, spine(leaf, m));
            }
        } else {
            let child = read_bucket(before, links[idx])->Some_0;
            let changed = appended(before, child, buck, (k - 1) as nat, count % cap, leaf)->Some_0;
            lemma_read_extends(middle, after, bucket_link(changed));
            lemma_appended_written_extends(
                before,
                middle,
                after,
                child,
                buck,
                (k - 1) as nat,
                count % cap,
                leaf,
            );
        }
    }
}

/// Stores the chain of buckets of one link over `leaf` and returns the CID
/// of its node of level `k`.
pub(crate) fn make_spine<S: Cas>(store: &mut S, leaf: Cid, k: usize) -> (r: Result<Cid, Error>)
    ensures
        follows(final(store), old(store)),
        final(store).reads() == old(store).reads(),
        writes_within(old(store).blocks(), final(store).blocks(), spine_links(leaf, k as nat)),
        match r {
            Ok(node) => node == spine(leaf, k as nat) && (!final(store).collided()
                ==> spine_written(final(store).blocks(), leaf, k as nat)) && wrote_all(
                final(store).blocks(),
                spine_links(leaf, k as nat),
            ),
            Err(e) => e is Passthrough,
        },
{
    let ghost store0 = *store;
    let mut node = leaf;
    let mut m: usize = 0;
    proof {
        lemma_follows_refl(store);
        lemma_spine_links_grow(leaf, 0, k as nat);
    }
    while m < k
        invariant
            m <= k,
            store0 == *old(store),
            node == spine(leaf, m as nat),
            follows(store, &store0),
            store.reads() == store0.reads(),
            !store.collided() ==> spine_written(store.blocks(), leaf, m as nat),
            writes_within(store0.blocks(), store.blocks(), spine_links(leaf, m as nat)),
            wrote_all(store.blocks(), spine_links(leaf, m as nat)),
            forall|c: Cid| #[trigger]
                spine_links(leaf, m as nat).contains(c) ==> spine_links(leaf, k as nat).contains(
                    c,
                ),
        decreases k - m,
    {
        let mut one: Vec<Cid> = Vec::new();
        one.push(node);
        assert(one@ =~= seq![node]);
        let ghost before = *store;
        let next = match store.put_bucket(one.as_slice()) {
            Ok(next) => next,
            Err(e) => {
                proof {
                    lemma_follows_trans(&store0, &before, store);
                }
                return Err(e);
            },
        };
        proof {
            lemma_follows_trans(&store0, &before, store);
            if !store.collided() {
                assert forall|x: nat| 1 <= x <= m + 1 implies #[trigger] spine_stored(
                    store.blocks(),
                    leaf,
                    x,
                ) by {
                    if x <= m {
                        assert(spine_stored(before.blocks(), leaf, x));
                        lemma_read_extends(before.blocks(), store.blocks(), spine(leaf, x));
                    }
                }
            }
        }
        proof {
            lemma_spine_links_grow(leaf, (m + 1) as nat, k as nat);
        }
        node = next;
        m = m + 1;
    }
    Ok(node)
}

/// The chain up to a level holds the chain up to every level below.
pub proof fn lemma_spine_links_grow(leaf: Cid, m: nat, k: nat)
    requires
        m <= k,
    ensures
        forall|c: Cid| #[trigger]
            spine_links(leaf, m).contains(c) ==> spine_links(leaf, k).contains(c),
    decreases k - m,
{
    if m < k {
        lemma_spine_links_grow(leaf, m, (k - 1) as nat);
    }
}

/// Stores `page` and adds its CID behind the `count` pages under `links`,
/// nodes of level `k`: the buckets on the right edge are read first, then
/// the page and the changed or new buckets are written from the bottom up.
/// Returns the changed list of nodes, which is longer by one where its last
/// node was full.
pub(crate) fn append_leaf<S: Cas>(
    store: &mut S,
    links: Vec<Cid>,
    buck: usize,
    k: usize,
    cap: usize,
    count: usize,
    page: &[u8],
) -> (r: Result<Vec<Cid>, Error>)
    requires
        buck >= 1,
        cap == capacity(buck as nat, k as nat),
    ensures
        follows(final(store), old(store)),
        writes_within(
            old(store).blocks(),
            final(store).blocks(),
            appended_links(
                old(store).blocks(),
                links@,
                buck as nat,
                k as nat,
                count as nat,
                page_link(page@),
            ),
        ),
        match appended(
            old(store).blocks(),
            links@,
            buck as nat,
            k as nat,
            count as nat,
            page_link(page@),
        ) {
            None => r matches Err(e) && e is Passthrough && final(store).blocks() == old(store).blocks(),
            Some(l) => match r {
                Ok(v) => {
                    &&& v@ == l
                    &&& links@.len() <= v@.len() <= links@.len() + 1
                    &&& wrote_all(
                        final(store).blocks(),
                        appended_links(
                            old(store).blocks(),
                            links@,
                            buck as nat,
                            k as nat,
                            count as nat,
                            page_link(page@),
                        ),
                    )
                    &&& !final(store).collided() ==> appended_written(
                        old(store).blocks(),
                        final(store).blocks(),
                        links@,
                        buck as nat,
                        k as nat,
                        count as nat,
                        page_link(page@),
                    ) && read_page(final(store).blocks(), page_link(page@)) == Some(page@)
                },
                Err(e) => e is Passthrough,
            },
        },
    decreases k,
{
    let mut links = links;
    let ghost store0 = *store;
    proof {
        lemma_capacity(buck as nat, k as nat);
        lemma_follows_refl(store);
    }
    if k == 0 {
        let leaf = match store.put_page(page) {
            Ok(leaf) => leaf,
            Err(e) => {
                return Err(e);
            },
        };
        links.push(leaf);
        return Ok(links);
    }
    let idx = count / cap;
    if idx >= links.len() {
        let leaf = match store.put_page(page) {
            Ok(leaf) => leaf,
            Err(e) => {
                return Err(e);
            },
        };
        let ghost store1 = *store;
        let node = match make_spine(store, leaf, k) {
            Ok(node) => node,
            Err(e) => {
                proof {
                    lemma_follows_trans(&store0, &store1, store);
                }
                return Err(e);
            },
        };
        proof {
            lemma_follows_trans(&store0, &store1, store);
            if !store.collided() {
                lemma_read_extends(store1.blocks(), store.blocks(), page_link(page@));
            }
        }
        links.push(node);
        return Ok(links);
    }
    if idx + 1 != links.len() || count % cap == 0 {
        return Err(Error::Passthrough("the page tree does not hold its page count".to_string()));
    }
    let child = match store.get_bucket(&links[idx]) {
        Ok(child) => child,
        Err(e) => {
            return Err(e);
        },
    };
    let ghost child0 = child@;
    let ghost store1 = *store;
    proof {
        lemma_capacity(buck as nat, (k - 1) as nat);
        lemma_div_multiples_vanish(capacity(buck as nat, (k - 1) as nat) as int, buck as int);
    }
    let changed = match append_leaf(store, child, buck, k - 1, cap / buck, count % cap, page) {
        Ok(changed) => changed,
        Err(e) => {
            proof {
                lemma_follows_trans(&store0, &store1, store);
            }
            return Err(e);
        },
    };
    let ghost store2 = *store;
    proof {
        lemma_follows_trans(&store0, &store1, store);
    }
    let c = match store.put_bucket(changed.as_slice()) {
        Ok(c) => c,
        Err(e) => {
            proof {
                lemma_follows_trans(&store0, &store2, store);
            }
            return Err(e);
        },
    };
    proof {
        lemma_follows_trans(&store0, &store2, store);
        if !store.collided() {
            lemma_appended_written_extends(
                store0.blocks(),
                store2.blocks(),
                store.blocks(),
                child0,
                buck as nat,
                (k - 1) as nat,
                (count % cap) as nat,
                page_link(page@),
            );
            lemma_read_extends(store2.blocks(), store.blocks(), page_link(page@));
        }
    }
    links[idx] = c;
    Ok(links)
}

/// The levels of a tree with one more leaf: each level has one node for
/// every full node of the level before the leaf came, and one more; the
/// full nodes and their buckets are as before; and where all nodes were
/// full, the last node is the chain over the new leaf.
pub proof fn lemma_push_levels(leaves: Seq<Cid>, leaf: Cid, buck: nat, k: nat)
    requires
        buck >= 1,
    ensures
        level_at(leaves.push(leaf), buck, k).len() == leaves.len() / capacity(buck, k) + 1,
        level_at(leaves, buck, k).len() == leaves.len() / capacity(buck, k) + if leaves.len()
            % capacity(buck, k) > 0 {
            1int
        } else {
            0int
        },
        forall|j: int|
            0 <= j < leaves.len() / capacity(buck, k) ==> #[trigger] level_at(
                leaves.push(leaf),
                buck,
                k,
            )[j] == level_at(leaves, buck, k)[j],
        k >= 1 ==> forall|j: int|
            0 <= j < leaves.len() / capacity(buck, k) ==> #[trigger] chunk(
                level_at(leaves.push(leaf), buck, (k - 1) as nat),
                buck,
                j,
            ) == chunk(level_at(leaves, buck, (k - 1) as nat), buck, j),
        leaves.len() % capacity(buck, k) == 0 ==> level_at(leaves.push(leaf), buck, k)[(
        leaves.len() / capacity(buck, k)) as int] == spine(leaf, k),
        k >= 1 && leaves.len() % capacity(buck, k) == 0 ==> chunk(
            level_at(leaves.push(leaf), buck, (k - 1) as nat),
            buck,
            (leaves.len() / capacity(buck, k)) as int,
        ) == seq![spine(leaf, (k - 1) as nat)] && leaves.len() % capacity(buck, (k - 1) as nat)
            == 0,
    decreases k,
{
    let n = leaves.len();
    let after = leaves.push(leaf);
    let c = capacity(buck, k) as int;
    lemma_capacity(buck, k);
    lemma_level_at_len(leaves, buck, k);
    lemma_level_at_len(after, buck, k);
    lemma_level_len_split(n, buck, k);
    let full = n as int / c;
    if k == 0 {
        lemma_window_index(buck, 0, 0, n);
    } else {
        let c1 = capacity(buck, (k - 1) as nat) as int;
        let b = buck as int;
        lemma_capacity(buck, (k - 1) as nat);
        lemma_push_levels(leaves, leaf, buck, (k - 1) as nat);
        let below = level_at(leaves, buck, (k - 1) as nat);
        let below2 = level_at(after, buck, (k - 1) as nat);
        assert(level_at(leaves, buck, k) == parents(below, buck));
        assert(level_at(after, buck, k) == parents(below2, buck));
        let full1 = n as int / c1;
        lemma_index_up(n, buck, (k - 1) as nat);
        assert(full1 / b == full);
        lemma_fundamental_div_mod(full1, b);
        lemma_mod_bound(full1, b);
        lemma_mod_bound(n as int, c1);
        assert forall|j: int| 0 <= j < full implies #[trigger] chunk(below2, buck, j) == chunk(
            below,
            buck,
            j,
        ) by {
            assert((j + 1) * b <= full1 && (j + 1) * b == j * b + b && 0 <= j * b)
                by (nonlinear_arith)
                requires
                    0 <= j < full,
                    full1 == b * full + full1 % b,
                    0 <= full1 % b,
                    b >= 1,
            ;
            lemma_chunk(below, buck, j);
            lemma_chunk(below2, buck, j);
            assert forall|x: int| 0 <= x < b implies #[trigger] chunk(below2, buck, j)[x] == chunk(
                below,
                buck,
                j,
            )[x] by {
                assert(below2[j * b + x] == below[j * b + x]);
            }
            assert(chunk(below2, buck, j) =~= chunk(below, buck, j));
        }
        assert forall|j: int| 0 <= j < full implies #[trigger] level_at(after, buck, k)[j]
            == level_at(leaves, buck, k)[j] by {
            assert(chunk(below2, buck, j) == chunk(below, buck, j));
        }
        if n as int % c == 0 {
            assert(full1 % b == 0 && n as int % c1 == 0) by (nonlinear_arith)
                requires
                    n as int % c == (full1 % b) * c1 + n as int % c1,
                    n as int % c == 0,
                    0 <= full1 % b,
                    0 <= n as int % c1,
                    c1 >= 1,
            ;
            assert(full1 == full * b) by (nonlinear_arith)
                requires
                    full1 == b * full + full1 % b,
                    full1 % b == 0,
            ;
            assert((full + 1) * b == full * b + b) by (nonlinear_arith);
            assert(chunk(below2, buck, full) =~= seq![spine(leaf, (k - 1) as nat)]);
        }
    }
}

/// Within the window at the right edge of level `k` of a tree that the
/// store holds, adding a leaf gives the same window of the tree with the
/// leaf added.
pub proof fn lemma_appended_window(
    blocks: Map<Cid, Seq<u8>>,
    leaves: Seq<Cid>,
    buck: nat,
    upto: nat,
    k: nat,
    base: int,
    links: Seq<Cid>,
    leaf: Cid,
)
    requires
        buck >= 1,
        buckets_stored(blocks, leaves, buck, upto),
        k <= upto,
        0 <= base <= level_at(leaves, buck, k).len(),
        links == level_at(leaves, buck, k).subrange(base, level_at(leaves, buck, k).len() as int),
        base <= leaves.len() / capacity(buck, k),
    ensures
        base * capacity(buck, k) <= leaves.len(),
        base <= level_at(leaves.push(leaf), buck, k).len(),
        appended(
            blocks,
            links,
            buck,
            k,
            (leaves.len() - base * capacity(buck, k)) as nat,
            leaf,
        ) == Some(
            level_at(leaves.push(leaf), buck, k).subrange(
                base,
                level_at(leaves.push(leaf), buck, k).len() as int,
            ),
        ),
    decreases k,
{
    let n = leaves.len();
    let after = leaves.push(leaf);
    let c = capacity(buck, k) as int;
    lemma_capacity(buck, k);
    lemma_window_index(buck, k, base, n);
    lemma_push_levels(leaves, leaf, buck, k);
    let g = n as int / c;
    let level = level_at(leaves, buck, k);
    let level2 = level_at(after, buck, k);
    let want = level2.subrange(base, level2.len() as int);
    if k == 0 {
        assert(links.push(leaf) =~= want);
    } else if n as int % c == 0 {
        assert(links.push(spine(leaf, k)) =~= want);
    } else {
        let idx = g - base;
        let below = level_at(leaves, buck, (k - 1) as nat);
        let below2 = level_at(after, buck, (k - 1) as nat);
        let child = chunk(below, buck, g);
        assert(level == parents(below, buck));
        assert(level2 == parents(below2, buck));
        assert(links[idx] == level[g]);
        assert(read_bucket(blocks, level[g]) == Some(child));
        lemma_window_child((n + 1) as nat, buck, k, n);
        lemma_level_at_len(leaves, buck, (k - 1) as nat);
        lemma_level_at_len(after, buck, (k - 1) as nat);
        lemma_push_levels(leaves, leaf, buck, (k - 1) as nat);
        lemma_chunk(below, buck, g);
        lemma_chunk(below2, buck, g);
        lemma_ceil_div(below.len(), buck);
        let c1 = capacity(buck, (k - 1) as nat) as int;
        let g1 = n as int / c1;
        assert(below.len() <= (g + 1) * buck) by (nonlinear_arith)
            requires
                below.len() <= g1 + 1,
                g1 < g * buck + buck,
        ;
        assert(child == below.subrange(g * buck, below.len() as int));
        lemma_appended_window(blocks, leaves, buck, upto, (k - 1) as nat, g * buck, child, leaf);
        let changed = chunk(below2, buck, g);
        assert(changed == below2.subrange(g * buck, below2.len() as int));
        assert(level2[g] == bucket_link(changed));
        assert(links.update(idx, bucket_link(changed)) =~= want);
    }
}

/// Where every node of level `k` is full, so is every node of each level
/// below.
pub proof fn lemma_full_below(n: nat, buck: nat, k: nat, m: nat)
    requires
        buck >= 1,
        m <= k,
        n % capacity(buck, k) == 0,
    ensures
        n % capacity(buck, m) == 0,
    decreases k - m,
{
    if m < k {
        lemma_index_up(n, buck, (k - 1) as nat);
        lemma_capacity(buck, (k - 1) as nat);
        let c1 = capacity(buck, (k - 1) as nat) as int;
        let g1 = n as int / c1;
        lemma_mod_bound(g1, buck as int);
        lemma_mod_bound(n as int, c1);
        assert(n as int % c1 == 0) by (nonlinear_arith)
            requires
                0 == (g1 % (buck as int)) * c1 + n as int % c1,
                0 <= g1 % (buck as int),
                0 <= n as int % c1,
                c1 >= 1,
        ;
        lemma_full_below(n, buck, (k - 1) as nat, m);
    }
}

/// Within the window at the right edge of level `k` of a tree that the
/// store held, the buckets written when a leaf was added are the last
/// buckets of the tree with the leaf added, and read back as such.
pub proof fn lemma_appended_stored(
    before: Map<Cid, Seq<u8>>,
    after: Map<Cid, Seq<u8>>,
    leaves: Seq<Cid>,
    buck: nat,
    upto: nat,
    k: nat,
    base: int,
    links: Seq<Cid>,
    leaf: Cid,
)
    requires
        buck >= 1,
        buckets_stored(before, leaves, buck, upto),
        k <= upto,
        0 <= base <= level_at(leaves, buck, k).len(),
        links == level_at(leaves, buck, k).subrange(base, level_at(leaves, buck, k).len() as int),
        base <= leaves.len() / capacity(buck, k),
        base * capacity(buck, k) <= leaves.len(),
        appended_written(
            before,
            after,
            links,
            buck,
            k,
            (leaves.len() - base * capacity(buck, k)) as nat,
            leaf,
        ),
    ensures
        forall|m: nat|
            1 <= m <= k ==> read_bucket(
                after,
                #[trigger] level_at(leaves.push(leaf), buck, m)[leaves.len() as int / (capacity(
                    buck,
                    m,
                ) as int)],
            ) == Some(
                chunk(
                    level_at(leaves.push(leaf), buck, (m - 1) as nat),
                    buck,
                    leaves.len() as int / (capacity(buck, m) as int),
                ),
            ),
    decreases k,
{
    if k > 0 {
        let n = leaves.len();
        let grown = leaves.push(leaf);
        let c = capacity(buck, k) as int;
        lemma_capacity(buck, k);
        lemma_window_index(buck, k, base, n);
        lemma_push_levels(leaves, leaf, buck, k);
        let g = n as int / c;
        let level = level_at(leaves, buck, k);
        let level2 = level_at(grown, buck, k);
        if n as int % c == 0 {
            assert forall|m: nat| 1 <= m <= k implies read_bucket(
                after,
                #[trigger] level_at(grown, buck, m)[n as int / (capacity(buck, m) as int)],
            ) == Some(
                chunk(
                    level_at(grown, buck, (m - 1) as nat),
                    buck,
                    n as int / (capacity(buck, m) as int),
                ),
            ) by {
                lemma_full_below(n, buck, k, m);
                lemma_push_levels(leaves, leaf, buck, m);
                assert(spine_stored(after, leaf, m));
            }
        } else {
            let idx = g - base;
            let below = level_at(leaves, buck, (k - 1) as nat);
            let below2 = level_at(grown, buck, (k - 1) as nat);
            let child = chunk(below, buck, g);
            assert(level == parents(below, buck));
            assert(level2 == parents(below2, buck));
            assert(links[idx] == level[g]);
            assert(read_bucket(before, level[g]) == Some(child));
            lemma_window_child((n + 1) as nat, buck, k, n);
            lemma_level_at_len(leaves, buck, (k - 1) as nat);
            lemma_level_at_len(grown, buck, (k - 1) as nat);
            lemma_push_levels(leaves, leaf, buck, (k - 1) as nat);
            lemma_chunk(below, buck, g);
            lemma_chunk(below2, buck, g);
            lemma_ceil_div(below.len(), buck);
            let c1 = capacity(buck, (k - 1) as nat) as int;
            let g1 = n as int / c1;
            assert(below.len() <= (g + 1) * buck) by (nonlinear_arith)
                requires
                    below.len() <= g1 + 1,
                    g1 < g * buck + buck,
            ;
            assert(child == below.subrange(g * buck, below.len() as int));
            lemma_appended_window(before, leaves, buck, upto, (k - 1) as nat, g * buck, child, leaf);
            let changed = chunk(below2, buck, g);
            assert(changed == below2.subrange(g * buck, below2.len() as int));
            assert(level2[g] == bucket_link(changed));
            lemma_appended_stored(
                before,
                after,
                leaves,
                buck,
                upto,
                (k - 1) as nat,
                g * buck,
                child,
                leaf,
            );
        }
    }
}

/// Adding a leaf to a tree that the store holds gives the top level of the
/// tree with the leaf added, and the store holds that tree's buckets up to
/// this level: those on the right edge as they were written, the others as
/// before.
pub proof fn lemma_append_stored(
    before: Map<Cid, Seq<u8>>,
    after: Map<Cid, Seq<u8>>,
    leaves: Seq<Cid>,
    buck: nat,
    h: nat,
    leaf: Cid,
)
    requires
        buck >= 1,
        buckets_stored(before, leaves, buck, h),
    ensures
        appended(before, level_at(leaves, buck, h), buck, h, leaves.len(), leaf) == Some(
            level_at(leaves.push(leaf), buck, h),
        ),
        extends(before, after) && appended_written(
            before,
            after,
            level_at(leaves, buck, h),
            buck,
            h,
            leaves.len(),
            leaf,
        ) ==> buckets_stored(after, leaves.push(leaf), buck, h),
{
    let n = leaves.len();
    let grown = leaves.push(leaf);
    let top = level_at(leaves, buck, h);
    lemma_capacity(buck, h);
    let c = capacity(buck, h) as int;
    assert(0 * c == 0) by (nonlinear_arith);
    assert(0 <= n as int / c) by (nonlinear_arith)
        requires
            n >= 0,
            c >= 1,
    ;
    assert(top == top.subrange(0, top.len() as int));
    lemma_appended_window(before, leaves, buck, h, h, 0, top, leaf);
    let new_top = level_at(grown, buck, h);
    assert(new_top == new_top.subrange(0, new_top.len() as int));
    if extends(before, after) && appended_written(before, after, top, buck, h, n, leaf) {
        lemma_appended_stored(before, after, leaves, buck, h, h, 0, top, leaf);
        assert forall|m: nat, j: int|
            1 <= m <= h && 0 <= j < level_at(grown, buck, m).len() implies read_bucket(
            after,
            #[trigger] level_at(grown, buck, m)[j],
        ) == Some(chunk(level_at(grown, buck, (m - 1) as nat), buck, j)) by {
            lemma_push_levels(leaves, leaf, buck, m);
            if j < n as int / (capacity(buck, m) as int) {
                assert(level_at(grown, buck, m)[j] == level_at(leaves, buck, m)[j]);
                assert(chunk(level_at(grown, buck, (m - 1) as nat), buck, j) == chunk(
                    level_at(leaves, buck, (m - 1) as nat),
                    buck,
                    j,
                ));
                lemma_read_extends(before, after, level_at(leaves, buck, m)[j]);
            }
        }
    }
}

} // verus!
