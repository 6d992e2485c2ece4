use vstd::prelude::*;

use crate::block::{
    find_at, find_fit, lists_bytes, position_at, position_fit, seq_bytes, AllocError, Block,
};
use crate::free_lists::{empty_lists, empty_view, lemma_empty_bytes, lists_view, push_back, take_at};
use crate::size_class::{sfl_class, sfl_index, ARENA_SIZE, MAX_REQUEST};
use crate::region::{
    apart, disjoint, lemma_apart_fresh, lemma_apart_inside, lemma_apart_join, lemma_apart_put_free,
    lemma_apart_take_free, lemma_put_free, lemma_put_live, lemma_take_free, lemma_take_live,
    pairwise_disjoint,
};
use crate::stats::{MemStats, PoolView, Usage};

verus! {

/// Number of free lists: (0,32], (32,64], (64,128], (128,256], above 256.
pub const SFL_CLASSES: usize = 5;

/// The state of a segregated free list: five lists, each block filed by its
/// length and lying inside a chunk held, and every byte of every chunk either
/// free or counted as allocated.
pub open spec fn sfl_inv(v: PoolView) -> bool {
    &&& v.lists.len() == SFL_CLASSES
    &&& v.usage.wf()
    &&& v.owned_ok()
    &&& forall|i: int, k: int|
        0 <= i < SFL_CLASSES && 0 <= k < v.lists[i].len() ==> {
            &&& sfl_class((#[trigger] v.lists[i][k]).len as nat) == i
            &&& v.lists[i][k].within(v.usage.arenas as nat)
        }
}

/// First list at or after `i` that holds a block of at least `size` bytes; 5 when none does.
pub open spec fn first_fit_list(lists: Seq<Seq<Block>>, i: nat, size: usize) -> nat
    decreases 5 - i,
{
    if i >= 5 {
        5
    } else if position_fit(lists[i as int], size) >= 0 {
        i
    } else {
        first_fit_list(lists, i + 1, size)
    }
}

/// First list at or after `i` that holds a block starting at `(arena, offset)`; 5 when none does.
pub open spec fn first_at_list(lists: Seq<Seq<Block>>, i: nat, arena: usize, offset: usize) -> nat
    decreases 5 - i,
{
    if i >= 5 {
        5
    } else if position_at(lists[i as int], arena, offset) >= 0 {
        i
    } else {
        first_at_list(lists, i + 1, arena, offset)
    }
}

/// The lists after `size` bytes are cut from the front of `found`: the rest,
/// if any, is filed by its length.
pub open spec fn file_rest(lists: Seq<Seq<Block>>, found: Block, size: usize) -> Seq<Seq<Block>> {
    if found.len > size {
        let rest = Block {
            arena: found.arena,
            offset: (found.offset + size) as usize,
            len: (found.len - size) as usize,
        };
        let c = sfl_class(rest.len as nat) as int;
        lists.update(c, lists[c].push(rest))
    } else {
        lists
    }
}

/// First-fit allocator over five free lists of variable-sized blocks that
/// merges a freed block with the free block right after it.
pub struct SegregatedFreeList {
    lists: Vec<Vec<Block>>,
    live: Ghost<Seq<Block>>,
    usage: Usage,
}

impl View for SegregatedFreeList {
    type V = PoolView;

    closed spec fn view(&self) -> PoolView {
        PoolView { lists: lists_view(self.lists@), live: self.live@, usage: self.usage }
    }
}

impl SegregatedFreeList {
    /// What a newly made engine shows: five empty lists and zero counters.
    pub open spec fn fresh_view() -> PoolView {
        PoolView { lists: empty_view(SFL_CLASSES as nat), live: Seq::empty(), usage: Usage::zero() }
    }

    pub open spec fn wf(&self) -> bool {
        sfl_inv(self@)
    }

    pub fn new() -> (r: Self)
        ensures
            r@ == Self::fresh_view(),
            r.wf(),
    {
        proof {
            lemma_empty_bytes(SFL_CLASSES as nat);
        }
        SegregatedFreeList { lists: empty_lists(SFL_CLASSES), live: Ghost(Seq::empty()), usage: Usage::new() }
    }

    /// List and position of the first block of at least `size` bytes, from list `i` on.
    fn first_fit_from(&self, i: usize, size: usize) -> (r: Option<(usize, usize)>)
        requires
            i <= 4,
            self.wf(),
        ensures
            match r {
                Some((j, k)) => {
                    &&& j == first_fit_list(self@.lists, i as nat, size)
                    &&& j < 5
                    &&& k == position_fit(self@.lists[j as int], size)
                    &&& k < self@.lists[j as int].len()
                    &&& self@.lists[j as int][k as int].len >= size
                },
                None => first_fit_list(self@.lists, i as nat, size) == 5,
            },
    {
        let mut j: usize = i;
        while j < SFL_CLASSES
            invariant
                i <= j <= 5,
                self.wf(),
                first_fit_list(self@.lists, j as nat, size) == first_fit_list(
                    self@.lists,
                    i as nat,
                    size,
                ),
            decreases 5 - j,
        {
            assert(self.lists@[j as int]@ == self@.lists[j as int]);
            match find_fit(&self.lists[j], size) {
                Some(k) => {
                    return Some((j, k));
                },
                None => {
                    j = j + 1;
                },
            }
        }
        None
    }

    /// List and position of the first free block that starts at `(arena, offset)`.
    fn first_at_from(&self, arena: usize, offset: usize) -> (r: Option<(usize, usize)>)
        requires
            self@.lists.len() == SFL_CLASSES,
        ensures
            match r {
                Some((j, k)) => {
                    &&& j == first_at_list(self@.lists, 0, arena, offset)
                    &&& j < 5
                    &&& k == position_at(self@.lists[j as int], arena, offset)
                    &&& k < self@.lists[j as int].len()
                    &&& self@.lists[j as int][k as int].starts_at(arena, offset)
                },
                None => first_at_list(self@.lists, 0, arena, offset) == 5,
            },
    {
        let mut j: usize = 0;
        while j < SFL_CLASSES
            invariant
                j <= 5,
                self@.lists.len() == SFL_CLASSES,
                first_at_list(self@.lists, j as nat, arena, offset) == first_at_list(
                    self@.lists,
                    0,
                    arena,
                    offset,
                ),
            decreases 5 - j,
        {
            assert(self.lists@[j as int]@ == self@.lists[j as int]);
            match find_at(&self.lists[j], arena, offset) {
                Some(k) => {
                    return Some((j, k));
                },
                None => {
                    j = j + 1;
                },
            }
        }
        None
    }

    /// Cuts `size` bytes off the front of `found`, files the rest and hands
    /// the front out.
    fn hand_out(&mut self, found: Block, size: usize) -> (r: Block)
        requires
            old(self)@.lists.len() == SFL_CLASSES,
            old(self)@.usage.wf(),
            lists_bytes(old(self)@.lists) + found.len + seq_bytes(old(self)@.live)
                == old(self)@.usage.total_size,
            seq_bytes(old(self)@.live) == old(self)@.usage.current_allocated_size,
            pairwise_disjoint(old(self)@.slots()),
            apart(old(self)@.slots(), found),
            found.within(old(self)@.usage.arenas as nat),
            found.len >= size,
            forall|l: int|
                0 <= l < old(self)@.live.len() ==> (#[trigger] old(self)@.live[l]).within(
                    old(self)@.usage.arenas as nat,
                ),
            forall|i: int, k: int|
                0 <= i < SFL_CLASSES && 0 <= k < old(self)@.lists[i].len() ==> {
                    &&& sfl_class((#[trigger] old(self)@.lists[i][k]).len as nat) == i
                    &&& old(self)@.lists[i][k].within(old(self)@.usage.arenas as nat)
                },
        ensures
            final(self).wf(),
            r == (Block { arena: found.arena, offset: found.offset, len: size }),
            final(self)@.lists == file_rest(old(self)@.lists, found, size),
            final(self)@.live == old(self)@.live.push(r),
            final(self)@.usage == old(self)@.usage.charged(size as nat),
    {
        let ghost cur = self@.lists;
        let ghost live = self@.live;
        let front = Block { arena: found.arena, offset: found.offset, len: size };
        proof {
            lemma_apart_inside(self@.slots(), found, front);
        }
        if found.len > size {
            let rest = Block { arena: found.arena, offset: found.offset + size, len: found.len - size };
            let c = sfl_index(rest.len);
            proof {
                lemma_apart_inside(self@.slots(), found, rest);
                lemma_put_free(cur, live, c as int, rest);
                lemma_apart_put_free(cur, live, c as int, rest, front);
            }
            push_back(&mut self.lists, c, rest);
            proof {
                let v = self@;
                assert forall|i: int, k: int| 0 <= i < SFL_CLASSES && 0 <= k < v.lists[i].len() implies {
                    &&& sfl_class((#[trigger] v.lists[i][k]).len as nat) == i
                    &&& v.lists[i][k].within(v.usage.arenas as nat)
                } by {
                    if i != c || k < cur[i].len() {
                        assert(v.lists[i][k] == cur[i][k]);
                    }
                }
            }
        }
        proof {
            lemma_put_live(self@.lists, live, front);
        }
        self.live = Ghost(self.live@.push(front));
        self.usage.charge(size);
        front
    }

    /// Hands out exactly `size` bytes: the front of the first block, scanning
    /// the lists from the request's class on, that is large enough (or of a new
    /// chunk); the rest of that block is filed by its length.
    pub fn allocate(&mut self, size: usize) -> (r: Result<Block, AllocError>)
        requires
            old(self).wf(),
        ensures
            final(self).wf(),
            size > MAX_REQUEST ==> r is Err && final(self)@ == old(self)@,
            r matches Ok(b) ==> b.len == size,
            r matches Ok(b) ==> final(self)@.live == old(self)@.live.push(b),
            ({
                let v = old(self)@;
                let j = first_fit_list(v.lists, sfl_class(size as nat), size);
                if size > MAX_REQUEST {
                    r == Err::<Block, AllocError>(AllocError) && final(self)@ == v
                } else if j < 5 {
                    let k = position_fit(v.lists[j as int], size);
                    let found = v.lists[j as int][k];
                    &&& r == Ok::<Block, AllocError>(
                        Block { arena: found.arena, offset: found.offset, len: size },
                    )
                    &&& final(self)@.lists == file_rest(
                        v.lists.update(j as int, v.lists[j as int].remove(k)),
                        found,
                        size,
                    )
                    &&& final(self)@.usage == v.usage.charged(size as nat)
                } else if !v.usage.can_grow() {
                    r == Err::<Block, AllocError>(AllocError) && final(self)@ == v
                } else {
                    &&& r == Ok::<Block, AllocError>(
                        Block { arena: v.usage.arenas, offset: 0, len: size },
                    )
                    &&& final(self)@.lists == file_rest(
                        v.lists,
                        Block { arena: v.usage.arenas, offset: 0, len: ARENA_SIZE },
                        size,
                    )
                    &&& final(self)@.usage == v.usage.grown().charged(size as nat)
                }
            }),
    {
        if size > MAX_REQUEST {
            return Err(AllocError);
        }
        let start = sfl_index(size);
        let ghost v0 = self@;
        match self.first_fit_from(start, size) {
            Some((j, k)) => {
                proof {
                    lemma_take_free(v0.lists, v0.live, j as int, k as int);
                }
                let found = take_at(&mut self.lists, j, k);
                proof {
                    let v = self@;
                    assert forall|i: int, m: int| 0 <= i < SFL_CLASSES && 0 <= m < v.lists[i].len() implies {
                        &&& sfl_class((#[trigger] v.lists[i][m]).len as nat) == i
                        &&& v.lists[i][m].within(v.usage.arenas as nat)
                    } by {
                        if i == j && m >= k {
                            assert(v.lists[i][m] == v0.lists[i][m + 1]);
                        } else {
                            assert(v.lists[i][m] == v0.lists[i][m]);
                        }
                    }
                }
                Ok(self.hand_out(found, size))
            },
            None => {
                if !self.usage.room_to_grow() {
                    return Err(AllocError);
                }
                let found = Block { arena: self.usage.arenas, offset: 0, len: ARENA_SIZE };
                proof {
                    let sl = v0.slots();
                    assert forall|i: int, k: int| 0 <= i < sl.len() && 0 <= k < sl[i].len() implies (
                    #[trigger] sl[i][k]).arena < found.arena by {
                        if i < SFL_CLASSES {
                            assert(sl[i][k] == v0.lists[i][k]);
                        } else {
                            assert(sl[i][k] == v0.live[k]);
                        }
                    }
                    lemma_apart_fresh(sl, found.arena as nat, found);
                }
                self.usage.grow();
                Ok(self.hand_out(found, size))
            },
        }
    }

    /// The `size`-byte block at `(arena, offset)` was handed out by this
    /// engine and not given back yet.
    pub open spec fn returnable(&self, arena: usize, offset: usize, size: usize) -> bool {
        self@.live.contains(Block { arena, offset, len: size })
    }

    /// Gives back the `size`-byte block at `(arena, offset)`. If a free block
    /// starts right where it ends, the two merge; the result is filed by its length.
    pub fn deallocate(&mut self, arena: usize, offset: usize, size: usize)
        requires
            old(self).wf(),
            old(self).returnable(arena, offset, size),
        ensures
            final(self).wf(),
            ({
                let v = old(self)@;
                let end = (offset + size) as usize;
                let j = first_at_list(v.lists, 0, arena, end);
                if j < 5 {
                    let k = position_at(v.lists[j as int], arena, end);
                    let next = v.lists[j as int][k];
                    let merged = Block { arena, offset, len: (size + next.len) as usize };
                    let rest = v.lists.update(j as int, v.lists[j as int].remove(k));
                    let c = sfl_class(merged.len as nat) as int;
                    final(self)@.lists == rest.update(c, rest[c].push(merged))
                } else {
                    let merged = Block { arena, offset, len: size };
                    let c = sfl_class(size as nat) as int;
                    final(self)@.lists == v.lists.update(c, v.lists[c].push(merged))
                }
            }),
            ({
                let b = Block { arena, offset, len: size };
                final(self)@.live == old(self)@.live.remove(old(self)@.live.index_of(b))
            }),
            final(self)@.usage == old(self)@.usage.refunded(size as nat),
    {
        let ghost v0 = self@;
        let given = Block { arena, offset, len: size };
        let ghost l = v0.live.index_of(given);
        proof {
            lemma_take_live(v0.lists, v0.live, l);
        }
        self.live = Ghost(self.live@.remove(l));
        let ghost live1 = self.live@;
        proof {
            assert forall|m: int| 0 <= m < live1.len() implies (#[trigger] live1[m]).within(
                v0.usage.arenas as nat,
            ) by {
                let c = if m < l {
                    m
                } else {
                    m + 1
                };
                assert(live1[m] == v0.live[c]);
            }
        }
        let end = offset + size;
        let merged = match self.first_at_from(arena, end) {
            Some((j, k)) => {
                proof {
                    let next = v0.lists[j as int][k as int];
                    lemma_take_free(v0.lists, live1, j as int, k as int);
                    lemma_apart_take_free(v0.lists, live1, j as int, k as int, given);
                    lemma_apart_join(
                        v0.lists.update(j as int, v0.lists[j as int].remove(k as int)).push(live1),
                        given,
                        next,
                    );
                }
                let next = take_at(&mut self.lists, j, k);
                proof {
                    let v = self@;
                    assert forall|i: int, m: int| 0 <= i < SFL_CLASSES && 0 <= m < v.lists[i].len() implies {
                        &&& sfl_class((#[trigger] v.lists[i][m]).len as nat) == i
                        &&& v.lists[i][m].within(v.usage.arenas as nat)
                    } by {
                        if i == j && m >= k {
                            assert(v.lists[i][m] == v0.lists[i][m + 1]);
                        } else {
                            assert(v.lists[i][m] == v0.lists[i][m]);
                        }
                    }
                }
                Block { arena, offset, len: size + next.len }
            },
            None => given,
        };
        let ghost cur = self@.lists;
        let c = sfl_index(merged.len);
        proof {
            lemma_put_free(cur, live1, c as int, merged);
        }
        push_back(&mut self.lists, c, merged);
        proof {
            let v = self@;
            assert forall|i: int, k: int| 0 <= i < SFL_CLASSES && 0 <= k < v.lists[i].len() implies {
                &&& sfl_class((#[trigger] v.lists[i][k]).len as nat) == i
                &&& v.lists[i][k].within(v.usage.arenas as nat)
            } by {
                if i != c || k < cur[i].len() {
                    assert(v.lists[i][k] == cur[i][k]);
                }
            }
        }
        self.usage.refund(size);
    }

    /// Number of free blocks in list `i`.
    pub fn free_list_len(&self, i: usize) -> (r: usize)
        requires
            i < SFL_CLASSES,
            self.wf(),
        ensures
            r == self@.lists[i as int].len(),
    {
        self.lists[i].len()
    }

    /// The free block at position `k` of list `i`.
    pub fn free_block(&self, i: usize, k: usize) -> (r: Block)
        requires
            i < SFL_CLASSES,
            self.wf(),
            k < self@.lists[i as int].len(),
        ensures
            r == self@.lists[i as int][k as int],
    {
        self.lists[i][k]
    }

    pub fn total_size(&self) -> (r: usize)
        ensures
            r == self@.usage.total_size,
    {
        self.usage.total_size
    }

    pub fn peak_allocated_size(&self) -> (r: usize)
        ensures
            r == self@.usage.peak_allocated_size,
    {
        self.usage.peak_allocated_size
    }

    pub fn current_allocated_size(&self) -> (r: usize)
        ensures
            r == self@.usage.current_allocated_size,
    {
        self.usage.current_allocated_size
    }
}

impl MemStats for SegregatedFreeList {
    open spec fn stats_wf(&self) -> bool {
        self.wf()
    }

    open spec fn peak_spec(&self) -> nat {
        self@.usage.peak_allocated_size as nat
    }

    open spec fn total_spec(&self) -> nat {
        self@.usage.total_size as nat
    }

    open spec fn is_fresh(&self) -> bool {
        self@ == Self::fresh_view()
    }

    fn calculate_allocation_ratio(&self) -> (r: (usize, usize)) {
        (self.usage.peak_allocated_size, self.usage.total_size)
    }

    fn reset(&mut self) {
        proof {
            lemma_empty_bytes(SFL_CLASSES as nat);
        }
        self.lists = empty_lists(SFL_CLASSES);
        self.live = Ghost(Seq::empty());
        self.usage = Usage::new();
    }
}

impl SegregatedFreeList {
    /// Blocks handed out and not yet given back never share a byte with each
    /// other, nor with any free block.
    pub proof fn lemma_outstanding_disjoint(&self, l1: int, l2: int)
        requires
            self.wf(),
            0 <= l1 < self@.live.len(),
            0 <= l2 < self@.live.len(),
            l1 != l2,
        ensures
            disjoint(self@.live[l1], self@.live[l2]),
            forall|i: int, k: int|
                0 <= i < self@.lists.len() && 0 <= k < self@.lists[i].len() ==> disjoint(
                    #[trigger] self@.lists[i][k],
                    self@.live[l1],
                ),
    {
        self@.lemma_live_apart(l2);
        self@.lemma_live_apart(l1);
    }

    /// The counters stay ordered: allocated at most peak, peak at most total.
    pub proof fn lemma_counters_ordered(&self)
        requires
            self.wf(),
        ensures
            0 <= self@.usage.current_allocated_size <= self@.usage.peak_allocated_size
                <= self@.usage.total_size,
    {
    }
}

} // verus!
