use vstd::prelude::*;

use crate::block::{
    lemma_lists_bytes_push, lemma_lists_bytes_remove, lemma_seq_bytes_push, lemma_seq_bytes_remove,
    lists_bytes, seq_bytes, Block,
};

verus! {

/// The two blocks share no byte (an empty block shares none with any block).
pub open spec fn disjoint(a: Block, b: Block) -> bool {
    ||| a.len == 0
    ||| b.len == 0
    ||| a.arena != b.arena
    ||| a.offset + a.len <= b.offset
    ||| b.offset + b.len <= a.offset
}

/// `small` lies inside `big`.
pub open spec fn inside(small: Block, big: Block) -> bool {
    &&& small.arena == big.arena
    &&& big.offset <= small.offset
    &&& small.offset + small.len <= big.offset + big.len
}

/// No two blocks at different places of `ls` share a byte.
pub open spec fn pairwise_disjoint(ls: Seq<Seq<Block>>) -> bool {
    forall|i1: int, k1: int, i2: int, k2: int|
        0 <= i1 < ls.len() && 0 <= k1 < ls[i1].len() && 0 <= i2 < ls.len() && 0 <= k2
            < ls[i2].len() && (i1 != i2 || k1 != k2) ==> disjoint(
            #[trigger] ls[i1][k1],
            #[trigger] ls[i2][k2],
        )
}

/// `b` shares no byte with any block of `ls`.
pub open spec fn apart(ls: Seq<Seq<Block>>, b: Block) -> bool {
    forall|i: int, k: int| 0 <= i < ls.len() && 0 <= k < ls[i].len() ==> disjoint(#[trigger] ls[i][k], b)
}

/// Every block of `ls` lies in a chunk numbered below `n`.
pub open spec fn below_arena(ls: Seq<Seq<Block>>, n: nat) -> bool {
    forall|i: int, k: int| 0 <= i < ls.len() && 0 <= k < ls[i].len() ==> (#[trigger] ls[i][k]).arena < n
}

/// Taking a block out keeps the rest pairwise disjoint, and apart from it.
pub proof fn lemma_take(ls: Seq<Seq<Block>>, i: int, k: int)
    requires
        pairwise_disjoint(ls),
        0 <= i < ls.len(),
        0 <= k < ls[i].len(),
    ensures
        pairwise_disjoint(ls.update(i, ls[i].remove(k))),
        apart(ls.update(i, ls[i].remove(k)), ls[i][k]),
{
    let r = ls.update(i, ls[i].remove(k));
    assert forall|i1: int, k1: int, i2: int, k2: int|
        0 <= i1 < r.len() && 0 <= k1 < r[i1].len() && 0 <= i2 < r.len() && 0 <= k2 < r[i2].len()
            && (i1 != i2 || k1 != k2) implies disjoint(#[trigger] r[i1][k1], #[trigger] r[i2][k2]) by {
        let c1 = if i1 == i && k1 >= k {
            k1 + 1
        } else {
            k1
        };
        let c2 = if i2 == i && k2 >= k {
            k2 + 1
        } else {
            k2
        };
        assert(r[i1][k1] == ls[i1][c1]);
        assert(r[i2][k2] == ls[i2][c2]);
    }
    assert forall|i1: int, k1: int| 0 <= i1 < r.len() && 0 <= k1 < r[i1].len() implies disjoint(
        #[trigger] r[i1][k1],
        ls[i][k],
    ) by {
        let c1 = if i1 == i && k1 >= k {
            k1 + 1
        } else {
            k1
        };
        assert(r[i1][k1] == ls[i1][c1]);
    }
}

/// Adding a block apart from all others keeps the blocks pairwise disjoint.
pub proof fn lemma_put(ls: Seq<Seq<Block>>, i: int, b: Block)
    requires
        pairwise_disjoint(ls),
        apart(ls, b),
        0 <= i < ls.len(),
    ensures
        pairwise_disjoint(ls.update(i, ls[i].push(b))),
{
    let r = ls.update(i, ls[i].push(b));
    assert forall|i1: int, k1: int, i2: int, k2: int|
        0 <= i1 < r.len() && 0 <= k1 < r[i1].len() && 0 <= i2 < r.len() && 0 <= k2 < r[i2].len()
            && (i1 != i2 || k1 != k2) implies disjoint(#[trigger] r[i1][k1], #[trigger] r[i2][k2]) by {
        if i1 != i || k1 < ls[i].len() {
            assert(r[i1][k1] == ls[i1][k1]);
        }
        if i2 != i || k2 < ls[i].len() {
            assert(r[i2][k2] == ls[i2][k2]);
        }
    }
}

/// Taking a block out keeps another block apart from the rest.
pub proof fn lemma_apart_take(ls: Seq<Seq<Block>>, i: int, k: int, b: Block)
    requires
        apart(ls, b),
        0 <= i < ls.len(),
        0 <= k < ls[i].len(),
    ensures
        apart(ls.update(i, ls[i].remove(k)), b),
{
    let r = ls.update(i, ls[i].remove(k));
    assert forall|i1: int, k1: int| 0 <= i1 < r.len() && 0 <= k1 < r[i1].len() implies disjoint(
        #[trigger] r[i1][k1],
        b,
    ) by {
        let c1 = if i1 == i && k1 >= k {
            k1 + 1
        } else {
            k1
        };
        assert(r[i1][k1] == ls[i1][c1]);
    }
}

/// Adding a block disjoint from `b` keeps `b` apart.
pub proof fn lemma_apart_put(ls: Seq<Seq<Block>>, i: int, c: Block, b: Block)
    requires
        apart(ls, b),
        disjoint(c, b),
        0 <= i < ls.len(),
    ensures
        apart(ls.update(i, ls[i].push(c)), b),
{
    let r = ls.update(i, ls[i].push(c));
    assert forall|i1: int, k1: int| 0 <= i1 < r.len() && 0 <= k1 < r[i1].len() implies disjoint(
        #[trigger] r[i1][k1],
        b,
    ) by {
        if i1 != i || k1 < ls[i].len() {
            assert(r[i1][k1] == ls[i1][k1]);
        }
    }
}

/// What is apart from a block is apart from every part of it.
pub proof fn lemma_apart_inside(ls: Seq<Seq<Block>>, big: Block, small: Block)
    requires
        apart(ls, big),
        inside(small, big),
    ensures
        apart(ls, small),
{
    assert forall|i: int, k: int| 0 <= i < ls.len() && 0 <= k < ls[i].len() implies disjoint(
        #[trigger] ls[i][k],
        small,
    ) by {
        assert(disjoint(ls[i][k], big));
    }
}

/// What is apart from two adjacent blocks is apart from the two joined.
pub proof fn lemma_apart_join(ls: Seq<Seq<Block>>, p: Block, q: Block)
    requires
        apart(ls, p),
        apart(ls, q),
        p.arena == q.arena,
        p.offset + p.len == q.offset,
        p.len + q.len <= usize::MAX,
    ensures
        apart(ls, Block { arena: p.arena, offset: p.offset, len: (p.len + q.len) as usize }),
{
    let j = Block { arena: p.arena, offset: p.offset, len: (p.len + q.len) as usize };
    assert forall|i: int, k: int| 0 <= i < ls.len() && 0 <= k < ls[i].len() implies disjoint(
        #[trigger] ls[i][k],
        j,
    ) by {
        assert(disjoint(ls[i][k], p));
        assert(disjoint(ls[i][k], q));
    }
}

/// A block of a chunk numbered at or above `n` is apart from blocks below it.
pub proof fn lemma_apart_fresh(ls: Seq<Seq<Block>>, n: nat, b: Block)
    requires
        below_arena(ls, n),
        b.arena >= n,
    ensures
        apart(ls, b),
{
    assert forall|i: int, k: int| 0 <= i < ls.len() && 0 <= k < ls[i].len() implies disjoint(
        #[trigger] ls[i][k],
        b,
    ) by {
        assert(ls[i][k].arena < n);
    }
}

/// Taking block `k` out of free list `i`: the rest stays pairwise disjoint and
/// apart from it, and the free bytes drop by its length.
pub proof fn lemma_take_free(lists: Seq<Seq<Block>>, live: Seq<Block>, i: int, k: int)
    requires
        pairwise_disjoint(lists.push(live)),
        0 <= i < lists.len(),
        0 <= k < lists[i].len(),
    ensures
        pairwise_disjoint(lists.update(i, lists[i].remove(k)).push(live)),
        apart(lists.update(i, lists[i].remove(k)).push(live), lists[i][k]),
        lists_bytes(lists.update(i, lists[i].remove(k))) + lists[i][k].len == lists_bytes(lists),
{
    let s = lists.push(live);
    assert(lists.update(i, lists[i].remove(k)).push(live) =~= s.update(i, s[i].remove(k)));
    lemma_take(s, i, k);
    lemma_lists_bytes_remove(lists, i, k);
}

/// Adding a block apart from all others to free list `i`.
pub proof fn lemma_put_free(lists: Seq<Seq<Block>>, live: Seq<Block>, i: int, b: Block)
    requires
        pairwise_disjoint(lists.push(live)),
        apart(lists.push(live), b),
        0 <= i < lists.len(),
    ensures
        pairwise_disjoint(lists.update(i, lists[i].push(b)).push(live)),
        lists_bytes(lists.update(i, lists[i].push(b))) == lists_bytes(lists) + b.len,
{
    let s = lists.push(live);
    assert(lists.update(i, lists[i].push(b)).push(live) =~= s.update(i, s[i].push(b)));
    lemma_put(s, i, b);
    lemma_lists_bytes_push(lists, i, b);
}

/// Taking outstanding block `l` back: the rest stays pairwise disjoint and apart from it.
pub proof fn lemma_take_live(lists: Seq<Seq<Block>>, live: Seq<Block>, l: int)
    requires
        pairwise_disjoint(lists.push(live)),
        0 <= l < live.len(),
    ensures
        pairwise_disjoint(lists.push(live.remove(l))),
        apart(lists.push(live.remove(l)), live[l]),
        seq_bytes(live.remove(l)) + live[l].len == seq_bytes(live),
{
    let s = lists.push(live);
    let n = lists.len() as int;
    assert(lists.push(live.remove(l)) =~= s.update(n, s[n].remove(l)));
    lemma_take(s, n, l);
    lemma_seq_bytes_remove(live, l);
}

/// Handing out a block apart from all others.
pub proof fn lemma_put_live(lists: Seq<Seq<Block>>, live: Seq<Block>, b: Block)
    requires
        pairwise_disjoint(lists.push(live)),
        apart(lists.push(live), b),
    ensures
        pairwise_disjoint(lists.push(live.push(b))),
        seq_bytes(live.push(b)) == seq_bytes(live) + b.len,
{
    let s = lists.push(live);
    let n = lists.len() as int;
    assert(lists.push(live.push(b)) =~= s.update(n, s[n].push(b)));
    lemma_put(s, n, b);
    lemma_seq_bytes_push(live, b);
}

/// Taking a free block out keeps `b` apart from what is left.
pub proof fn lemma_apart_take_free(lists: Seq<Seq<Block>>, live: Seq<Block>, i: int, k: int, b: Block)
    requires
        apart(lists.push(live), b),
        0 <= i < lists.len(),
        0 <= k < lists[i].len(),
    ensures
        apart(lists.update(i, lists[i].remove(k)).push(live), b),
{
    let s = lists.push(live);
    assert(lists.update(i, lists[i].remove(k)).push(live) =~= s.update(i, s[i].remove(k)));
    lemma_apart_take(s, i, k, b);
}

/// Adding a free block disjoint from `b` keeps `b` apart.
pub proof fn lemma_apart_put_free(lists: Seq<Seq<Block>>, live: Seq<Block>, i: int, c: Block, b: Block)
    requires
        apart(lists.push(live), b),
        disjoint(c, b),
        0 <= i < lists.len(),
    ensures
        apart(lists.update(i, lists[i].push(c)).push(live), b),
{
    let s = lists.push(live);
    assert(lists.update(i, lists[i].push(c)).push(live) =~= s.update(i, s[i].push(c)));
    lemma_apart_put(s, i, c, b);
}

/// Filling an empty free list with pairwise disjoint blocks of a chunk that
/// no other block lies in.
pub proof fn lemma_fill_fresh(
    lists: Seq<Seq<Block>>,
    live: Seq<Block>,
    i: int,
    c: Seq<Block>,
    n: nat,
)
    requires
        pairwise_disjoint(lists.push(live)),
        below_arena(lists.push(live), n),
        0 <= i < lists.len(),
        lists[i].len() == 0,
        forall|k: int| 0 <= k < c.len() ==> (#[trigger] c[k]).arena == n,
        forall|k1: int, k2: int|
            0 <= k1 < c.len() && 0 <= k2 < c.len() && k1 != k2 ==> disjoint(
                #[trigger] c[k1],
                #[trigger] c[k2],
            ),
    ensures
        pairwise_disjoint(lists.update(i, c).push(live)),
{
    let s = lists.push(live);
    let r = lists.update(i, c).push(live);
    assert(r =~= s.update(i, c));
    assert forall|i1: int, k1: int, i2: int, k2: int|
        0 <= i1 < r.len() && 0 <= k1 < r[i1].len() && 0 <= i2 < r.len() && 0 <= k2 < r[i2].len()
            && (i1 != i2 || k1 != k2) implies disjoint(#[trigger] r[i1][k1], #[trigger] r[i2][k2]) by {
        if i1 != i {
            assert(r[i1][k1] == s[i1][k1]);
            assert(s[i1][k1].arena < n);
        }
        if i2 != i {
            assert(r[i2][k2] == s[i2][k2]);
            assert(s[i2][k2].arena < n);
        }
    }
}

} // verus!
