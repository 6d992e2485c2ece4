use vstd::prelude::*;

use crate::block::{lemma_lists_bytes_update, seq_bytes, AllocError, Block};
use crate::free_lists::{
    empty_lists, empty_view, lemma_empty_bytes, lemma_seq_bytes_uniform, lists_view, push_back,
    replace_list, take_at,
};
use crate::size_class::{
    class_of, is_class_size, lemma_class_size, next_pow2, pow2, size_class, ARENA_SIZE,
    MAX_REQUEST,
};
use crate::region::{
    disjoint, lemma_fill_fresh, lemma_put_free, lemma_put_live, lemma_take_free, lemma_take_live,
};
use crate::stats::{MemStats, PoolView, Usage};

verus! {

/// Number of size classes: blocks of 1, 2, 4, ..., 512 bytes.
pub const SSS_CLASSES: usize = 10;

/// The blocks of `s` bytes that chunk `arena` is cut into, in address order.
pub open spec fn carve(arena: usize, s: nat) -> Seq<Block> {
    Seq::new(512nat / s, |k: int| Block { arena, offset: (k * s) as usize, len: s as usize })
}

/// The state every engine of this kind keeps: ten lists, list `i` holding
/// blocks of exactly `2^i` bytes inside the chunks held, and every byte of
/// every chunk either free or counted as allocated.
pub open spec fn sss_inv(v: PoolView) -> bool {
    &&& v.lists.len() == SSS_CLASSES
    &&& v.usage.wf()
    &&& v.owned_ok()
    &&& forall|i: int, k: int|
        0 <= i < SSS_CLASSES && 0 <= k < v.lists[i].len() ==> {
            &&& (#[trigger] v.lists[i][k]).len == pow2(i as nat)
            &&& v.lists[i][k].within(v.usage.arenas as nat)
        }
}

/// Allocator that hands out power-of-two blocks, each class carved from
/// chunks of its own, with no splitting or merging.
pub struct SimpleSegregatedStorage {
    lists: Vec<Vec<Block>>,
    live: Ghost<Seq<Block>>,
    usage: Usage,
}

impl View for SimpleSegregatedStorage {
    type V = PoolView;

    closed spec fn view(&self) -> PoolView {
        PoolView { lists: lists_view(self.lists@), live: self.live@, usage: self.usage }
    }
}

/// Cuts chunk `arena` into blocks of `s` bytes.
fn carve_chunk(arena: usize, s: usize, i: usize) -> (r: Vec<Block>)
    requires
        i <= 9,
        s == pow2(i as nat),
    ensures
        r@ == carve(arena, s as nat),
        seq_bytes(r@) == ARENA_SIZE,
        r@.len() >= 1,
        forall|k1: int, k2: int|
            0 <= k1 < r@.len() && 0 <= k2 < r@.len() && k1 != k2 ==> disjoint(
                #[trigger] r@[k1],
                #[trigger] r@[k2],
            ),
{
    proof {
        lemma_class_size(i as nat);
    }
    let n: usize = ARENA_SIZE / s;
    assert(n * s == 512);
    let mut r: Vec<Block> = Vec::new();
    let mut k: usize = 0;
    let mut off: usize = 0;
    while k < n
        invariant
            k <= n,
            n == 512int / (s as int),
            n * s == 512,
            1 <= s <= 512,
            off == k * s,
            r@ =~= Seq::new(
                k as nat,
                |j: int| Block { arena, offset: (j * s) as usize, len: s as usize },
            ),
        decreases n - k,
    {
        assert((k + 1) * s <= n * s) by (nonlinear_arith)
            requires
                k + 1 <= n,
                s >= 1,
        ;
        assert((k + 1) * s == k * s + s) by (nonlinear_arith);
        r.push(Block { arena, offset: off, len: s });
        k = k + 1;
        off = off + s;
    }
    proof {
        lemma_seq_bytes_uniform(r@, s as nat);
        assert forall|k1: int, k2: int|
            0 <= k1 < r@.len() && 0 <= k2 < r@.len() && k1 != k2 implies disjoint(
            #[trigger] r@[k1],
            #[trigger] r@[k2],
        ) by {
            if k1 < k2 {
                assert((k1 + 1) * s <= k2 * s) by (nonlinear_arith)
                    requires
                        k1 + 1 <= k2,
                        s >= 1,
                ;
                assert((k1 + 1) * s == k1 * s + s) by (nonlinear_arith);
            } else {
                assert((k2 + 1) * s <= k1 * s) by (nonlinear_arith)
                    requires
                        k2 + 1 <= k1,
                        s >= 1,
                ;
                assert((k2 + 1) * s == k2 * s + s) by (nonlinear_arith);
            }
        }
    }
    r
}

impl SimpleSegregatedStorage {
    /// What a newly made engine shows: ten empty lists and zero counters.
    pub open spec fn fresh_view() -> PoolView {
        PoolView { lists: empty_view(SSS_CLASSES as nat), live: Seq::empty(), usage: Usage::zero() }
    }

    pub open spec fn wf(&self) -> bool {
        sss_inv(self@)
    }

    pub fn new() -> (r: Self)
        ensures
            r@ == Self::fresh_view(),
            r.wf(),
    {
        proof {
            lemma_empty_bytes(SSS_CLASSES as nat);
        }
        SimpleSegregatedStorage {
            lists: empty_lists(SSS_CLASSES),
            live: Ghost(Seq::empty()),
            usage: Usage::new(),
        }
    }

    /// Hands out a block of `next_pow2(size)` bytes: the front of the list of
    /// its class, which is first filled from a new chunk when empty.
    pub fn allocate(&mut self, size: usize) -> (r: Result<Block, AllocError>)
        requires
            old(self).wf(),
        ensures
            final(self).wf(),
            size > MAX_REQUEST ==> r is Err && final(self)@ == old(self)@,
            r matches Ok(b) ==> b.len == next_pow2(size as nat),
            r matches Ok(b) ==> final(self)@.live == old(self)@.live.push(b),
            ({
                let v = old(self)@;
                let i = class_of(size as nat) as int;
                let s = next_pow2(size as nat);
                if size > MAX_REQUEST {
                    r == Err::<Block, AllocError>(AllocError) && final(self)@ == v
                } else if v.lists[i].len() > 0 {
                    &&& r == Ok::<Block, AllocError>(v.lists[i][0])
                    &&& final(self)@.lists == v.lists.update(i, v.lists[i].drop_first())
                    &&& final(self)@.usage == v.usage.charged(s)
                } else if !v.usage.can_grow() {
                    r == Err::<Block, AllocError>(AllocError) && final(self)@ == v
                } else {
                    &&& r == Ok::<Block, AllocError>(
                        Block { arena: v.usage.arenas, offset: 0, len: s as usize },
                    )
                    &&& final(self)@.lists == v.lists.update(
                        i,
                        carve(v.usage.arenas, s).drop_first(),
                    )
                    &&& final(self)@.usage == v.usage.grown().charged(s)
                }
            }),
    {
        if size > MAX_REQUEST {
            return Err(AllocError);
        }
        let (rounded, index) = size_class(size);
        assert(self.lists@[index as int]@ == self@.lists[index as int]);
        if self.lists[index].len() == 0 {
            if !self.usage.room_to_grow() {
                return Err(AllocError);
            }
            let arena = self.usage.arenas;
            let chunk = carve_chunk(arena, rounded, index);
            proof {
                let v = self@;
                lemma_lists_bytes_update(v.lists, index as int, chunk@);
                lemma_class_size(index as nat);
                assert forall|k: int| 0 <= k < chunk@.len() implies (#[trigger] chunk@[k]).within(
                    arena as nat + 1,
                ) by {
                    assert((k + 1) * rounded <= 512) by (nonlinear_arith)
                        requires
                            k < 512int / (rounded as int),
                            is_class_size(rounded as nat),
                    ;
                    assert((k + 1) * rounded == k * rounded + rounded) by (nonlinear_arith);
                    assert(k * rounded >= 0) by (nonlinear_arith)
                        requires
                            k >= 0,
                    ;
                }
                let sl = v.slots();
                assert forall|i: int, k: int| 0 <= i < sl.len() && 0 <= k < sl[i].len() implies (
                #[trigger] sl[i][k]).arena < arena by {
                    if i < SSS_CLASSES {
                        assert(sl[i][k] == v.lists[i][k]);
                    } else {
                        assert(sl[i][k] == v.live[k]);
                    }
                }
                lemma_fill_fresh(v.lists, v.live, index as int, chunk@, arena as nat);
            }
            replace_list(&mut self.lists, index, chunk);
            self.usage.grow();
        }
        assert(self.lists@[index as int]@ == self@.lists[index as int]);
        let ghost mid = self@;
        let b = take_at(&mut self.lists, index, 0);
        proof {
            lemma_take_free(mid.lists, mid.live, index as int, 0);
            lemma_put_live(self@.lists, mid.live, b);
        }
        self.live = Ghost(self.live@.push(b));
        self.usage.charge(rounded);
        proof {
            let v = final(self)@;
            assert forall|i: int, k: int|
                0 <= i < SSS_CLASSES && 0 <= k < v.lists[i].len() implies {
                &&& (#[trigger] v.lists[i][k]).len == pow2(i as nat)
                &&& v.lists[i][k].within(v.usage.arenas as nat)
            } by {
                if i == index {
                    assert(v.lists[i][k] == mid.lists[i][k + 1]);
                } else {
                    assert(v.lists[i][k] == mid.lists[i][k]);
                }
            }
            assert(mid.lists[index as int].remove(0) =~= mid.lists[index as int].drop_first());
        }
        Ok(b)
    }

    /// The block at `(arena, offset)` of a request of `size` bytes was handed
    /// out by this engine and not given back yet.
    pub open spec fn returnable(&self, arena: usize, offset: usize, size: usize) -> bool {
        size <= MAX_REQUEST ==> self@.live.contains(
            Block { arena, offset, len: next_pow2(size as nat) as usize },
        )
    }

    /// Gives back the block at `(arena, offset)` handed out for a request of
    /// `size` bytes: it goes to the back of its class's list, with the class's
    /// length. A size above 512 cannot have come from here and is ignored.
    pub fn deallocate(&mut self, arena: usize, offset: usize, size: usize)
        requires
            old(self).wf(),
            old(self).returnable(arena, offset, size),
        ensures
            final(self).wf(),
            ({
                let v = old(self)@;
                let i = class_of(size as nat) as int;
                let s = next_pow2(size as nat);
                let b = Block { arena, offset, len: s as usize };
                if size > MAX_REQUEST {
                    final(self)@ == v
                } else {
                    &&& final(self)@.lists == v.lists.update(i, v.lists[i].push(b))
                    &&& final(self)@.live == v.live.remove(v.live.index_of(b))
                    &&& final(self)@.usage == v.usage.refunded(s)
                }
            }),
    {
        if size > MAX_REQUEST {
            return;
        }
        let (rounded, index) = size_class(size);
        let ghost mid = self@;
        let b = Block { arena, offset, len: rounded };
        let ghost l = mid.live.index_of(b);
        proof {
            lemma_take_live(mid.lists, mid.live, l);
            lemma_put_free(mid.lists, mid.live.remove(l), index as int, b);
        }
        push_back(&mut self.lists, index, b);
        self.live = Ghost(self.live@.remove(l));
        self.usage.refund(rounded);
        proof {
            let v = final(self)@;
            assert forall|i: int, k: int|
                0 <= i < SSS_CLASSES && 0 <= k < v.lists[i].len() implies {
                &&& (#[trigger] v.lists[i][k]).len == pow2(i as nat)
                &&& v.lists[i][k].within(v.usage.arenas as nat)
            } by {
                if i == index && k == mid.lists[i].len() {
                } else {
                    assert(v.lists[i][k] == mid.lists[i][k]);
                }
            }
            assert forall|m: int| 0 <= m < v.live.len() implies (#[trigger] v.live[m]).within(
                v.usage.arenas as nat,
            ) by {
                let c = if m < l {
                    m
                } else {
                    m + 1
                };
                assert(v.live[m] == mid.live[c]);
            }
        }
    }

    /// Number of free blocks in list `i`.
    pub fn free_list_len(&self, i: usize) -> (r: usize)
        requires
            i < SSS_CLASSES,
            self.wf(),
        ensures
            r == self@.lists[i as int].len(),
    {
        self.lists[i].len()
    }

    /// The free block at position `k` of list `i`.
    pub fn free_block(&self, i: usize, k: usize) -> (r: Block)
        requires
            i < SSS_CLASSES,
            self.wf(),
            k < self@.lists[i as int].len(),
        ensures
            r == self@.lists[i as int][k as int],
    {
        self.lists[i][k]
    }

    pub fn total_size(&self) -> (r: usize)
        ensures
            r == self@.usage.total_size,
    {
        self.usage.total_size
    }

    pub fn peak_allocated_size(&self) -> (r: usize)
        ensures
            r == self@.usage.peak_allocated_size,
    {
        self.usage.peak_allocated_size
    }

    pub fn current_allocated_size(&self) -> (r: usize)
        ensures
            r == self@.usage.current_allocated_size,
    {
        self.usage.current_allocated_size
    }
}

impl MemStats for SimpleSegregatedStorage {
    open spec fn stats_wf(&self) -> bool {
        self.wf()
    }

    open spec fn peak_spec(&self) -> nat {
        self@.usage.peak_allocated_size as nat
    }

    open spec fn total_spec(&self) -> nat {
        self@.usage.total_size as nat
    }

    open spec fn is_fresh(&self) -> bool {
        self@ == Self::fresh_view()
    }

    fn calculate_allocation_ratio(&self) -> (r: (usize, usize)) {
        (self.usage.peak_allocated_size, self.usage.total_size)
    }

    fn reset(&mut self) {
        proof {
            lemma_empty_bytes(SSS_CLASSES as nat);
        }
        self.lists = empty_lists(SSS_CLASSES);
        self.live = Ghost(Seq::empty());
        self.usage = Usage::new();
    }
}

impl SimpleSegregatedStorage {
    /// Blocks handed out and not yet given back never share a byte with each
    /// other, nor with any free block.
    pub proof fn lemma_outstanding_disjoint(&self, l1: int, l2: int)
        requires
            self.wf(),
            0 <= l1 < self@.live.len(),
            0 <= l2 < self@.live.len(),
            l1 != l2,
        ensures
            disjoint(self@.live[l1], self@.live[l2]),
            forall|i: int, k: int|
                0 <= i < self@.lists.len() && 0 <= k < self@.lists[i].len() ==> disjoint(
                    #[trigger] self@.lists[i][k],
                    self@.live[l1],
                ),
    {
        self@.lemma_live_apart(l2);
        self@.lemma_live_apart(l1);
    }

    /// The counters stay ordered: allocated at most peak, peak at most total.
    pub proof fn lemma_counters_ordered(&self)
        requires
            self.wf(),
        ensures
            0 <= self@.usage.current_allocated_size <= self@.usage.peak_allocated_size
                <= self@.usage.total_size,
    {
    }

    /// Every block of list `i` has exactly `2^i` bytes.
    pub proof fn lemma_class_lengths(&self, i: int, k: int)
        requires
            self.wf(),
            0 <= i < SSS_CLASSES,
            0 <= k < self@.lists[i].len(),
        ensures
            self@.lists[i][k].len == pow2(i as nat),
    {
    }
}

} // verus!
