use vstd::prelude::*;

use crate::block::{lists_bytes, seq_bytes, Block};

verus! {

/// What a vector of free lists holds, list by list.
pub open spec fn lists_view(v: Seq<Vec<Block>>) -> Seq<Seq<Block>> {
    Seq::new(v.len(), |i: int| v[i]@)
}

/// `n` empty lists.
pub open spec fn empty_view(n: nat) -> Seq<Seq<Block>> {
    Seq::new(n, |i: int| Seq::<Block>::empty())
}

pub proof fn lemma_empty_bytes(n: nat)
    ensures
        lists_bytes(empty_view(n)) == 0,
    decreases n,
{
    if n > 0 {
        assert(empty_view(n).drop_last() =~= empty_view((n - 1) as nat));
        lemma_empty_bytes((n - 1) as nat);
    }
}

/// A list whose blocks all have `len` bytes holds `len` bytes per block.
pub proof fn lemma_seq_bytes_uniform(s: Seq<Block>, len: nat)
    requires
        forall|k: int| 0 <= k < s.len() ==> (#[trigger] s[k]).len == len,
    ensures
        seq_bytes(s) == s.len() * len,
    decreases s.len(),
{
    if s.len() > 0 {
        lemma_seq_bytes_uniform(s.drop_last(), len);
        assert((s.len() - 1) * len + len == s.len() * len) by (nonlinear_arith);
    }
}

pub fn empty_lists(n: usize) -> (r: Vec<Vec<Block>>)
    ensures
        lists_view(r@) == empty_view(n as nat),
{
    let mut r: Vec<Vec<Block>> = Vec::new();
    let mut i: usize = 0;
    while i < n
        invariant
            i <= n,
            r@.len() == i,
            lists_view(r@) =~= empty_view(i as nat),
        decreases n - i,
    {
        let ghost prev = r@;
        let e: Vec<Block> = Vec::new();
        r.push(e);
        i = i + 1;
        assert forall|j: int| 0 <= j < i implies #[trigger] lists_view(r@)[j] == empty_view(
            i as nat,
        )[j] by {
            if j < i - 1 {
                assert(r@[j] == prev[j]);
                assert(lists_view(prev)[j] == empty_view((i - 1) as nat)[j]);
            }
        }
        assert(lists_view(r@) =~= empty_view(i as nat));
    }
    r
}

/// Appends `b` to the back of list `i`.
pub fn push_back(lists: &mut Vec<Vec<Block>>, i: usize, b: Block)
    requires
        i < old(lists)@.len(),
    ensures
        lists_view(final(lists)@) == lists_view(old(lists)@).update(
            i as int,
            lists_view(old(lists)@)[i as int].push(b),
        ),
{
    lists[i].push(b);
    assert(lists_view(lists@) =~= lists_view(old(lists)@).update(
        i as int,
        lists_view(old(lists)@)[i as int].push(b),
    ));
}

/// Takes the block at position `k` out of list `i`.
pub fn take_at(lists: &mut Vec<Vec<Block>>, i: usize, k: usize) -> (r: Block)
    requires
        i < old(lists)@.len(),
        k < old(lists)@[i as int]@.len(),
    ensures
        r == lists_view(old(lists)@)[i as int][k as int],
        lists_view(final(lists)@) == lists_view(old(lists)@).update(
            i as int,
            lists_view(old(lists)@)[i as int].remove(k as int),
        ),
{
    let r = lists[i].remove(k);
    assert(lists_view(lists@) =~= lists_view(old(lists)@).update(
        i as int,
        lists_view(old(lists)@)[i as int].remove(k as int),
    ));
    r
}

/// Replaces list `i` by `l`.
pub fn replace_list(lists: &mut Vec<Vec<Block>>, i: usize, l: Vec<Block>)
    requires
        i < old(lists)@.len(),
    ensures
        lists_view(final(lists)@) == lists_view(old(lists)@).update(i as int, l@),
{
    lists[i] = l;
    assert(lists_view(lists@) =~= lists_view(old(lists)@).update(i as int, l@));
}

} // verus!
