use vstd::prelude::*;

use crate::size_class::ARENA_SIZE;

verus! {

/// A byte range inside one arena chunk: `len` bytes starting `offset` bytes
/// after the start of chunk number `arena`.
#[derive(Clone, Copy, Debug, PartialEq, Eq, Structural)]
pub struct Block {
    pub arena: usize,
    pub offset: usize,
    pub len: usize,
}

/// The one recoverable failure: the request is larger than 512 bytes, or no
/// further arena chunk can be obtained.
#[derive(Clone, Copy, Debug, PartialEq, Eq, Structural)]
pub struct AllocError;

impl Block {
    /// The block lies inside one of the first `arenas` chunks.
    pub open spec fn within(self, arenas: nat) -> bool {
        self.arena < arenas && self.offset + self.len <= ARENA_SIZE
    }

    /// The block starts at `offset` of chunk `arena`.
    pub open spec fn starts_at(self, arena: usize, offset: usize) -> bool {
        self.arena == arena && self.offset == offset
    }
}

/// Total length of the blocks of `s`.
pub open spec fn seq_bytes(s: Seq<Block>) -> nat
    decreases s.len(),
{
    if s.len() == 0 {
        0
    } else {
        seq_bytes(s.drop_last()) + s.last().len as nat
    }
}

/// Total length of the blocks of all lists of `ls`.
pub open spec fn lists_bytes(ls: Seq<Seq<Block>>) -> nat
    decreases ls.len(),
{
    if ls.len() == 0 {
        0
    } else {
        lists_bytes(ls.drop_last()) + seq_bytes(ls.last())
    }
}

/// `k` is the first position of `s` holding a block that starts at `(arena, offset)`.
pub open spec fn is_first_at(s: Seq<Block>, k: int, arena: usize, offset: usize) -> bool {
    &&& 0 <= k < s.len()
    &&& s[k].starts_at(arena, offset)
    &&& forall|m: int| 0 <= m < k ==> !(#[trigger] s[m]).starts_at(arena, offset)
}

/// First position of `s` holding a block that starts at `(arena, offset)`, or -1.
pub open spec fn position_at(s: Seq<Block>, arena: usize, offset: usize) -> int {
    if exists|k: int| is_first_at(s, k, arena, offset) {
        choose|k: int| is_first_at(s, k, arena, offset)
    } else {
        -1
    }
}

/// `k` is the first position of `s` holding a block of at least `size` bytes.
pub open spec fn is_first_fit(s: Seq<Block>, k: int, size: usize) -> bool {
    &&& 0 <= k < s.len()
    &&& s[k].len >= size
    &&& forall|m: int| 0 <= m < k ==> (#[trigger] s[m]).len < size
}

/// First position of `s` holding a block of at least `size` bytes, or -1.
pub open spec fn position_fit(s: Seq<Block>, size: usize) -> int {
    if exists|k: int| is_first_fit(s, k, size) {
        choose|k: int| is_first_fit(s, k, size)
    } else {
        -1
    }
}

pub proof fn lemma_seq_bytes_push(s: Seq<Block>, b: Block)
    ensures
        seq_bytes(s.push(b)) == seq_bytes(s) + b.len,
{
    assert(s.push(b).drop_last() =~= s);
}

pub proof fn lemma_seq_bytes_remove(s: Seq<Block>, k: int)
    requires
        0 <= k < s.len(),
    ensures
        seq_bytes(s.remove(k)) + s[k].len == seq_bytes(s),
    decreases s.len(),
{
    if k == s.len() - 1 {
        assert(s.remove(k) =~= s.drop_last());
    } else {
        lemma_seq_bytes_remove(s.drop_last(), k);
        assert(s.remove(k) =~= s.drop_last().remove(k).push(s.last()));
        lemma_seq_bytes_push(s.drop_last().remove(k), s.last());
    }
}

pub proof fn lemma_lists_bytes_update(ls: Seq<Seq<Block>>, i: int, t: Seq<Block>)
    requires
        0 <= i < ls.len(),
    ensures
        lists_bytes(ls.update(i, t)) + seq_bytes(ls[i]) == lists_bytes(ls) + seq_bytes(t),
    decreases ls.len(),
{
    if i == ls.len() - 1 {
        assert(ls.update(i, t).drop_last() =~= ls.drop_last());
    } else {
        lemma_lists_bytes_update(ls.drop_last(), i, t);
        assert(ls.update(i, t).drop_last() =~= ls.drop_last().update(i, t));
    }
}

/// Adding `b` to list `i` adds its length to the free bytes.
pub proof fn lemma_lists_bytes_push(ls: Seq<Seq<Block>>, i: int, b: Block)
    requires
        0 <= i < ls.len(),
    ensures
        lists_bytes(ls.update(i, ls[i].push(b))) == lists_bytes(ls) + b.len,
{
    lemma_lists_bytes_update(ls, i, ls[i].push(b));
    lemma_seq_bytes_push(ls[i], b);
}

/// Taking the block at position `k` out of list `i` removes its length from the free bytes.
pub proof fn lemma_lists_bytes_remove(ls: Seq<Seq<Block>>, i: int, k: int)
    requires
        0 <= i < ls.len(),
        0 <= k < ls[i].len(),
    ensures
        lists_bytes(ls.update(i, ls[i].remove(k))) + ls[i][k].len == lists_bytes(ls),
{
    lemma_lists_bytes_update(ls, i, ls[i].remove(k));
    lemma_seq_bytes_remove(ls[i], k);
}

/// The position of the first block of `list` that starts at `(arena, offset)`.
pub fn find_at(list: &Vec<Block>, arena: usize, offset: usize) -> (r: Option<usize>)
    ensures
        match r {
            Some(k) => k == position_at(list@, arena, offset) && is_first_at(list@, k as int, arena, offset),
            None => position_at(list@, arena, offset) == -1 && forall|m: int|
                0 <= m < list@.len() ==> !(#[trigger] list@[m]).starts_at(arena, offset),
        },
{
    let mut k: usize = 0;
    while k < list.len()
        invariant
            k <= list@.len(),
            forall|m: int| 0 <= m < k ==> !(#[trigger] list@[m]).starts_at(arena, offset),
        decreases list@.len() - k,
    {
        if list[k].arena == arena && list[k].offset == offset {
            assert(is_first_at(list@, k as int, arena, offset));
            proof {
                let c = choose|c: int| is_first_at(list@, c, arena, offset);
                assert(!(c < k as int));
                assert(!((k as int) < c));
            }
            return Some(k);
        }
        k = k + 1;
    }
    assert forall|c: int| !is_first_at(list@, c, arena, offset) by {
        if 0 <= c < list@.len() {
            assert(!list@[c].starts_at(arena, offset));
        }
    }
    None
}

/// The position of the first block of `list` that holds at least `size` bytes.
pub fn find_fit(list: &Vec<Block>, size: usize) -> (r: Option<usize>)
    ensures
        match r {
            Some(k) => k == position_fit(list@, size) && is_first_fit(list@, k as int, size),
            None => position_fit(list@, size) == -1,
        },
{
    let mut k: usize = 0;
    while k < list.len()
        invariant
            k <= list@.len(),
            forall|m: int| 0 <= m < k ==> (#[trigger] list@[m]).len < size,
        decreases list@.len() - k,
    {
        if list[k].len >= size {
            assert(is_first_fit(list@, k as int, size));
            proof {
                let c = choose|c: int| is_first_fit(list@, c, size);
                assert(!(c < k as int));
                assert(!((k as int) < c));
            }
            return Some(k);
        }
        k = k + 1;
    }
    assert forall|c: int| !is_first_fit(list@, c, size) by {
        if 0 <= c < list@.len() {
            assert(list@[c].len < size);
        }
    }
    None
}

} // verus!
