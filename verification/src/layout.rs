//! The arithmetic of the page tree: how a sequence is cut into pieces of a
//! fixed size, how many levels of buckets a number of pages needs, and how
//! many pages one node of a level covers.

use vstd::arithmetic::div_mod::{
    lemma_div_denominator, lemma_fundamental_div_mod, lemma_fundamental_div_mod_converse,
    lemma_mod_bound,
};
use vstd::prelude::*;

verus! {

/// `n / d`, rounded up; 0 where `d` is 0.
pub open spec fn ceil_div(n: nat, d: nat) -> nat {
    if d == 0 {
        0
    } else {
        ((n + d - 1) / (d as int)) as nat
    }
}

/// The `j`-th piece of `s` when it is cut into pieces of `size` items: full
/// but for the last, which holds what is left.
pub open spec fn chunk<T>(s: Seq<T>, size: nat, j: int) -> Seq<T> {
    s.subrange(
        j * size,
        if (j + 1) * size <= s.len() {
            (j + 1) * size
        } else {
            s.len() as int
        },
    )
}

/// `s` cut into pieces of `size` items, in order.
pub open spec fn chunks<T>(s: Seq<T>, size: nat) -> Seq<Seq<T>> {
    Seq::new(ceil_div(s.len(), size), |j: int| chunk(s, size, j))
}

/// The number of nodes on level `k` of a tree over `n` pages: `n` on level
/// 0, and on each level above one node for every `buck` nodes below.
pub open spec fn level_len(n: nat, buck: nat, k: nat) -> nat
    decreases k,
{
    if k == 0 {
        n
    } else {
        ceil_div(level_len(n, buck, (k - 1) as nat), buck)
    }
}

/// The number of bucket levels over `n` pages: the first level that has no
/// more than `buck` nodes.
pub open spec fn height(n: nat, buck: nat) -> nat
    decreases n,
{
    if buck < 2 || n <= buck {
        0
    } else {
        proof {
            lemma_ceil_div_shrinks(n, buck);
        }
        1 + height(ceil_div(n, buck), buck)
    }
}

/// The number of pages that one node of level `k` covers: `buck` to the
/// power `k`.
pub open spec fn capacity(buck: nat, k: nat) -> nat
    decreases k,
{
    if k == 0 {
        1
    } else {
        buck * capacity(buck, (k - 1) as nat)
    }
}

/// `size` zero bytes.
pub open spec fn zeros(size: nat) -> Seq<u8> {
    Seq::new(size, |i: int| 0u8)
}

/// `page` filled up with zero bytes to `size` bytes.
pub open spec fn padded(page: Seq<u8>, size: nat) -> Seq<u8> {
    if page.len() >= size {
        page
    } else {
        page + zeros((size - page.len()) as nat)
    }
}

/// Rounding up differs from rounding down by one exactly where something is
/// left over, and the result times `d` is the least multiple that holds `n`.
pub proof fn lemma_ceil_div(n: nat, d: nat)
    requires
        d > 0,
    ensures
        ceil_div(n, d) == n / d + if n % d > 0 {
            1int
        } else {
            0int
        },
        n <= ceil_div(n, d) * d,
        n > 0 ==> (ceil_div(n, d) - 1) * d < n,
        n == 0 ==> ceil_div(n, d) == 0,
        n > 0 ==> ceil_div(n, d) > 0,
{
    let di = d as int;
    let a = n as int / di;
    let b = n as int % di;
    lemma_fundamental_div_mod(n as int, di);
    if b == 0 {
        assert(n + d - 1 == a * di + (di - 1)) by (nonlinear_arith)
            requires
                n == di * a + b,
                b == 0,
                di == d,
        ;
        lemma_fundamental_div_mod_converse(n + d - 1, di, a, di - 1);
    } else {
        assert(n + d - 1 == (a + 1) * di + (b - 1)) by (nonlinear_arith)
            requires
                n == di * a + b,
                di == d,
        ;
        lemma_fundamental_div_mod_converse(n + d - 1, di, a + 1, b - 1);
    }
    let q = ceil_div(n, d) as int;
    assert(n <= q * d && (n > 0 ==> (q - 1) * d < n)) by (nonlinear_arith)
        requires
            n == di * a + b,
            0 <= b < di,
            di == d,
            q == a + if b > 0 {
                1int
            } else {
                0int
            },
    ;
    if n > 0 && q <= 0 {
        assert(q * d <= 0) by (nonlinear_arith)
            requires
                q <= 0,
                d > 0,
        ;
    }
}

/// Above `buck` nodes, a level of buckets is shorter than the level below.
pub proof fn lemma_ceil_div_shrinks(n: nat, buck: nat)
    requires
        buck >= 2,
        n > buck,
    ensures
        ceil_div(n, buck) < n,
        ceil_div(n, buck) >= 2,
{
    lemma_ceil_div(n, buck);
    let q = ceil_div(n, buck) as int;
    assert(q < n && q >= 2) by (nonlinear_arith)
        requires
            (q - 1) * buck < n,
            n <= q * buck,
            buck >= 2,
            n > buck,
    ;
}

/// A tree is never higher than it has pages.
pub proof fn lemma_height_bound(n: nat, buck: nat)
    ensures
        height(n, buck) <= n,
        n <= buck ==> height(n, buck) == 0,
    decreases n,
{
    if buck >= 2 && n > buck {
        lemma_ceil_div_shrinks(n, buck);
        lemma_height_bound(ceil_div(n, buck), buck);
    }
}

/// The capacity of a node is positive and grows with the level.
pub proof fn lemma_capacity(buck: nat, k: nat)
    requires
        buck >= 1,
    ensures
        capacity(buck, k) >= 1,
        capacity(buck, k + 1) == buck * capacity(buck, k),
        capacity(buck, k + 1) >= capacity(buck, k),
    decreases k,
{
    if k > 0 {
        lemma_capacity(buck, (k - 1) as nat);
    }
    let c = capacity(buck, k);
    assert(buck * c >= c) by (nonlinear_arith)
        requires
            buck >= 1,
            c >= 1,
    ;
}

/// The nodes of a level cover all pages: `n` is no more than the level's
/// length times the capacity of one node, and takes every node but the last
/// in full.
pub proof fn lemma_level_covers(n: nat, buck: nat, k: nat)
    requires
        buck >= 1,
    ensures
        n <= level_len(n, buck, k) * capacity(buck, k),
        n > 0 ==> (level_len(n, buck, k) - 1) * capacity(buck, k) < n,
        n > 0 ==> level_len(n, buck, k) > 0,
        n == 0 ==> level_len(n, buck, k) == 0,
        level_len(n, buck, k) == ceil_div(n, capacity(buck, k)),
    decreases k,
{
    if k == 0 {
        lemma_ceil_div(n, 1);
        assert(n as int / 1 == n && n as int % 1 == 0) by {
            lemma_fundamental_div_mod_converse(n as int, 1, n as int, 0);
        }
    } else {
        let below = level_len(n, buck, (k - 1) as nat);
        let c = capacity(buck, (k - 1) as nat);
        lemma_level_covers(n, buck, (k - 1) as nat);
        lemma_capacity(buck, (k - 1) as nat);
        lemma_ceil_div(below, buck);
        let q = level_len(n, buck, k) as int;
        assert(q == ceil_div(below, buck));
        assert(capacity(buck, k) == buck * c);
        assert(n <= q * (buck * c)) by (nonlinear_arith)
            requires
                n <= below * c,
                below <= q * buck,
                c >= 1,
                q >= 0,
        ;
        if n > 0 {
            assert((q - 1) * (buck * c) < n) by (nonlinear_arith)
                requires
                    (below - 1) * c < n,
                    (q - 1) * buck < below,
                    c >= 1,
                    buck >= 1,
            ;
        }
        // q is the least number of nodes that covers n, which is the rounded-up quotient
        let cap = capacity(buck, k);
        lemma_ceil_div(n, cap);
        let q2 = ceil_div(n, cap) as int;
        if n > 0 {
            assert(q == q2) by (nonlinear_arith)
                requires
                    n <= q * cap,
                    (q - 1) * cap < n,
                    n <= q2 * cap,
                    (q2 - 1) * cap < n,
                    cap >= 1,
            ;
        }
    }
}

/// A tree of the least height: its top level fits in one bucket and no
/// level below does, and from one level of buckets on a single node of the
/// top level covers fewer pages than the tree has.
pub proof fn lemma_height_capacity(n: nat, buck: nat)
    requires
        buck >= 2,
    ensures
        height(n, buck) >= 1 ==> capacity(buck, height(n, buck)) < n,
        level_len(n, buck, height(n, buck)) <= buck,
        forall|k: nat| k < height(n, buck) ==> level_len(n, buck, k) > buck,
    decreases n,
{
    if n > buck {
        lemma_ceil_div_shrinks(n, buck);
        let m = ceil_div(n, buck);
        lemma_height_capacity(m, buck);
        lemma_ceil_div(n, buck);
        let h = height(m, buck);
        assert(height(n, buck) == h + 1);
        lemma_level_shift(n, buck, h);
        lemma_capacity(buck, h);
        let c = capacity(buck, h);
        assert(capacity(buck, h + 1) == buck * c);
        if h >= 1 {
            assert(buck * c < n) by (nonlinear_arith)
                requires
                    c < m,
                    (m - 1) * buck < n,
                    buck >= 2,
            ;
        } else {
            assert(c == 1);
            assert(buck * c == buck) by (nonlinear_arith)
                requires
                    c == 1,
            ;
        }
        assert(capacity(buck, height(n, buck)) < n);
        assert forall|k: nat| k < height(n, buck) implies level_len(n, buck, k) > buck by {
            if k > 0 {
                lemma_level_shift(n, buck, (k - 1) as nat);
            }
        }
    }
}

/// Level `k + 1` over `n` pages is level `k` over the nodes of level 1.
pub proof fn lemma_level_shift(n: nat, buck: nat, k: nat)
    ensures
        level_len(n, buck, k + 1) == level_len(ceil_div(n, buck), buck, k),
    decreases k,
{
    if k > 0 {
        lemma_level_shift(n, buck, (k - 1) as nat);
        assert(level_len(n, buck, k) == level_len(ceil_div(n, buck), buck, (k - 1) as nat));
    } else {
        assert(level_len(n, buck, 0) == n);
        assert(level_len(ceil_div(n, buck), buck, 0) == ceil_div(n, buck));
    }
    assert(level_len(n, buck, k + 1) == ceil_div(level_len(n, buck, k), buck));
}

/// Where in its level the node above page `i` stands: dividing by the
/// capacity of the level below and then by `buck` is dividing by the
/// capacity of the level.
pub proof fn lemma_index_up(i: nat, buck: nat, k: nat)
    requires
        buck >= 1,
    ensures
        (i / capacity(buck, k)) / buck == i / capacity(buck, k + 1),
        i % capacity(buck, k + 1) == (i / capacity(buck, k)) % buck * capacity(buck, k) + i
            % capacity(buck, k),
{
    let c = capacity(buck, k) as int;
    let b = buck as int;
    let x = i as int;
    lemma_capacity(buck, k);
    lemma_div_denominator(x, c, b);
    assert(c * b == capacity(buck, k + 1)) by (nonlinear_arith)
        requires
            capacity(buck, k + 1) == buck * capacity(buck, k),
            c == capacity(buck, k),
            b == buck,
    ;
    lemma_fundamental_div_mod(x, c);
    lemma_fundamental_div_mod(x / c, b);
    lemma_fundamental_div_mod(x, c * b);
    let q = x / (c * b);
    assert(x / c == b * q + (x / c) % b);
    assert(x % (c * b) == ((x / c) % b) * c + x % c) by (nonlinear_arith)
        requires
            x == c * (x / c) + x % c,
            x / c == b * q + (x / c) % b,
            x == (c * b) * q + x % (c * b),
    ;
}

/// The pieces of a sequence: where each starts, and that none is empty.
pub proof fn lemma_chunk<T>(s: Seq<T>, size: nat, j: int)
    requires
        size > 0,
        0 <= j < ceil_div(s.len(), size),
    ensures
        0 <= j * size < s.len(),
        chunk(s, size, j).len() == if (j + 1) * size <= s.len() {
            size as int
        } else {
            s.len() - j * size
        },
        0 < chunk(s, size, j).len() <= size,
        forall|x: int|
            0 <= x < chunk(s, size, j).len() ==> #[trigger] chunk(s, size, j)[x] == s[j * size + x],
{
    lemma_ceil_div(s.len(), size);
    let q = ceil_div(s.len(), size) as int;
    let n = s.len() as int;
    assert(0 <= j * size < n && (j + 1) * size == j * size + size) by (nonlinear_arith)
        requires
            0 <= j < q,
            (q - 1) * size < n,
            size > 0,
    ;
}

/// Counting from the start of a window: where a window of level `k` starts
/// at node `base` and covers page `i`, the page's place within the window is
/// `i` less the pages before the window, and the node that covers it is the
/// one `base` places before its place in the level.
pub proof fn lemma_window_index(buck: nat, k: nat, base: int, i: nat)
    requires
        buck >= 1,
        0 <= base <= i / capacity(buck, k),
    ensures
        base * capacity(buck, k) <= i,
        (i - base * capacity(buck, k)) / (capacity(buck, k) as int) == i / capacity(buck, k)
            - base,
        (i - base * capacity(buck, k)) % (capacity(buck, k) as int) == i % capacity(buck, k),
        k == 0 ==> i / capacity(buck, k) == i,
{
    let c = capacity(buck, k) as int;
    lemma_capacity(buck, k);
    let g = i as int / c;
    lemma_fundamental_div_mod(i as int, c);
    lemma_mod_bound(i as int, c);
    assert(base * c <= i && i - base * c == (g - base) * c + (i as int % c)) by (nonlinear_arith)
        requires
            i == c * g + (i as int % c),
            0 <= i as int % c,
            base <= g,
            c >= 1,
    ;
    lemma_fundamental_div_mod_converse(i - base * c, c, g - base, i as int % c);
    if k == 0 {
        assert(g == i) by (nonlinear_arith)
            requires
                i == c * g + (i as int % c),
                0 <= i as int % c < c,
                c == 1,
        ;
    }
}

/// One level down: the node of level `k` that covers page `i` has the node
/// of level `k - 1` that covers it among its `buck` children, and the page's
/// place under the node is `i` modulo the node's capacity.
pub proof fn lemma_window_child(n: nat, buck: nat, k: nat, i: nat)
    requires
        buck >= 1,
        k >= 1,
        i < n,
    ensures
        i / capacity(buck, k) < level_len(n, buck, k),
        i / capacity(buck, (k - 1) as nat) < level_len(n, buck, (k - 1) as nat),
        (i / capacity(buck, k)) * buck <= i / capacity(buck, (k - 1) as nat) < (i / capacity(
            buck,
            k,
        )) * buck + buck,
        (i / capacity(buck, (k - 1) as nat)) / buck == i / capacity(buck, k),
        i - (i / capacity(buck, k)) * buck * capacity(buck, (k - 1) as nat) == i % capacity(
            buck,
            k,
        ),
        (i / capacity(buck, k) + 1) * buck == (i / capacity(buck, k)) * buck + buck,
{
    let c = capacity(buck, k) as int;
    let c1 = capacity(buck, (k - 1) as nat) as int;
    let b = buck as int;
    lemma_capacity(buck, k);
    lemma_capacity(buck, (k - 1) as nat);
    lemma_index_up(i, buck, (k - 1) as nat);
    let g = i as int / c;
    let g1 = i as int / c1;
    lemma_fundamental_div_mod(g1, b);
    lemma_mod_bound(g1, b);
    lemma_fundamental_div_mod(i as int, c1);
    lemma_mod_bound(i as int, c1);
    lemma_fundamental_div_mod(i as int, c);
    lemma_mod_bound(i as int, c);
    lemma_level_covers(n, buck, (k - 1) as nat);
    lemma_level_covers(n, buck, k);
    let len1 = level_len(n, buck, (k - 1) as nat) as int;
    let len = level_len(n, buck, k) as int;
    assert(g1 < len1) by (nonlinear_arith)
        requires
            i == c1 * g1 + (i as int % c1),
            0 <= i as int % c1,
            i < n,
            n <= len1 * c1,
            c1 >= 1,
    ;
    assert(g < len) by (nonlinear_arith)
        requires
            i == c * g + (i as int % c),
            0 <= i as int % c,
            i < n,
            n <= len * c,
            c >= 1,
    ;
    assert(g * b <= g1 < g * b + b && (g + 1) * b == g * b + b) by (nonlinear_arith)
        requires
            g1 == b * g + (g1 % b),
            0 <= g1 % b < b,
    ;
    assert(i - g * b * c1 == i as int % c) by (nonlinear_arith)
        requires
            c == b * c1,
            i == c * g + (i as int % c),
    ;
}

/// The height is told by the lengths of the levels: it is the one level
/// that fits in a bucket while every level below does not.
pub proof fn lemma_height_is(n: nat, buck: nat, h: nat)
    requires
        buck >= 2,
        level_len(n, buck, h) <= buck,
        forall|k: nat| k < h ==> level_len(n, buck, k) > buck,
    ensures
        height(n, buck) == h,
{
    lemma_height_capacity(n, buck);
    let found = height(n, buck);
    if h < found {
        assert(level_len(n, buck, h) > buck);
    }
    if found < h {
        assert(level_len(n, buck, found) > buck);
    }
}

/// More pages make no level shorter.
pub proof fn lemma_level_len_grows(n: nat, m: nat, buck: nat, k: nat)
    requires
        buck >= 1,
        n <= m,
    ensures
        level_len(n, buck, k) <= level_len(m, buck, k),
    decreases k,
{
    if k > 0 {
        lemma_level_len_grows(n, m, buck, (k - 1) as nat);
        let a = level_len(n, buck, (k - 1) as nat);
        let b = level_len(m, buck, (k - 1) as nat);
        lemma_ceil_div(a, buck);
        lemma_ceil_div(b, buck);
        let qa = ceil_div(a, buck) as int;
        let qb = ceil_div(b, buck) as int;
        assert(qa <= qb) by (nonlinear_arith)
            requires
                a <= b,
                a > 0 ==> (qa - 1) * buck < a,
                a == 0 ==> qa == 0,
                b <= qb * buck,
                qb >= 0,
                buck >= 1,
        ;
    }
}

/// The length of a level in whole and begun nodes: as many nodes as are
/// full, and one more where pages are left over.
pub proof fn lemma_level_len_split(n: nat, buck: nat, k: nat)
    requires
        buck >= 1,
    ensures
        level_len(n, buck, k) == n / capacity(buck, k) + if n % capacity(buck, k) > 0 {
            1int
        } else {
            0int
        },
        level_len((n + 1) as nat, buck, k) == n / capacity(buck, k) + 1,
{
    lemma_capacity(buck, k);
    let c = capacity(buck, k);
    lemma_level_covers(n, buck, k);
    lemma_level_covers((n + 1) as nat, buck, k);
    lemma_ceil_div(n, c);
    lemma_ceil_div((n + 1) as nat, c);
    lemma_fundamental_div_mod(n as int, c as int);
    lemma_mod_bound(n as int, c as int);
    let q = n as int / (c as int);
    let r = n as int % (c as int);
    if r + 1 < c {
        lemma_fundamental_div_mod_converse((n + 1) as int, c as int, q, r + 1);
    } else {
        assert(n + 1 == (q + 1) * c + 0) by (nonlinear_arith)
            requires
                n == c * q + r,
                r + 1 == c,
        ;
        lemma_fundamental_div_mod_converse((n + 1) as int, c as int, q + 1, 0);
    }
}

} // verus!
