use vstd::prelude::*;

use crate::block::{find_at, lists_bytes, position_at, seq_bytes, AllocError, Block};
use crate::free_lists::{
    empty_lists, empty_view, lemma_empty_bytes, lists_view, push_back, take_at,
};
use crate::size_class::{
    class_of, is_class_size, lemma_class_size, lemma_pow2_mono, lemma_pow2_values, next_pow2,
    pow2, size_class, ARENA_SIZE, MAX_REQUEST,
};
use crate::region::{
    apart, disjoint, lemma_apart_fresh, lemma_apart_inside, lemma_apart_join, lemma_apart_put_free,
    lemma_apart_take_free, lemma_put_free, lemma_put_live, lemma_take_free, lemma_take_live,
    pairwise_disjoint,
};
use crate::stats::{MemStats, PoolView, Usage};
use vstd::arithmetic::div_mod::{
    lemma_div_by_multiple, lemma_fundamental_div_mod, lemma_mod_multiples_basic,
};

verus! {

/// Number of size classes: blocks of 1, 2, 4, ..., 512 bytes.
pub const BUDDY_CLASSES: usize = 10;

/// Offset of the buddy of the `s`-byte block at `offset` of its chunk: the
/// other half of the `2s`-byte block the two were split from (`offset XOR s`).
pub open spec fn buddy_offset(offset: usize, s: usize) -> usize {
    if (offset / s) % 2 == 0 {
        (offset + s) as usize
    } else {
        (offset - s) as usize
    }
}

/// `y` is the buddy of `x`.
pub open spec fn are_buddies(x: Block, y: Block) -> bool {
    &&& x.arena == y.arena
    &&& x.len == y.len
    &&& y.offset == buddy_offset(x.offset, x.len)
}

/// No list holds two blocks that are buddies of each other.
pub open spec fn no_free_buddies(lists: Seq<Seq<Block>>) -> bool {
    forall|i: int, k1: int, k2: int|
        0 <= i < lists.len() && 0 <= k1 < lists[i].len() && 0 <= k2 < lists[i].len()
            ==> !are_buddies(#[trigger] lists[i][k1], #[trigger] lists[i][k2])
}

/// The block of list `i` has `2^i` bytes, starts at a multiple of `2^i` of its
/// chunk, and lies in one of the first `arenas` chunks.
pub open spec fn buddy_block_ok(b: Block, i: int, arenas: nat) -> bool {
    &&& b.len == pow2(i as nat)
    &&& b.offset % b.len == 0
    &&& b.within(arenas)
}

pub open spec fn buddy_lists_ok(lists: Seq<Seq<Block>>, arenas: nat) -> bool {
    &&& lists.len() == BUDDY_CLASSES
    &&& forall|i: int, k: int|
        0 <= i < BUDDY_CLASSES && 0 <= k < lists[i].len() ==> buddy_block_ok(
            #[trigger] lists[i][k],
            i,
            arenas,
        )
}

/// The state of a buddy engine: ten lists of aligned power-of-two blocks,
/// no two free buddies, and every byte of every chunk either free or counted
/// as allocated.
pub open spec fn buddy_inv(v: PoolView) -> bool {
    &&& buddy_lists_ok(v.lists, v.usage.arenas as nat)
    &&& no_free_buddies(v.lists)
    &&& v.owned_ok()
    &&& forall|l: int|
        0 <= l < v.live.len() ==> {
            &&& is_class_size((#[trigger] v.live[l]).len as nat)
            &&& v.live[l].offset % v.live[l].len == 0
        }
}

/// First class at or above `i` whose list is not empty; 10 when all are.
pub open spec fn first_nonempty(lists: Seq<Seq<Block>>, i: nat) -> nat
    decreases 10 - i,
{
    if i >= 10 {
        10
    } else if lists[i as int].len() > 0 {
        i
    } else {
        first_nonempty(lists, i + 1)
    }
}

/// The lists after a block at `(arena, offset)` of class `j` is split down to
/// class `i`: each class `k` in `i..j` gets the upper half cut off at that level.
pub open spec fn split_lists(
    lists: Seq<Seq<Block>>,
    arena: usize,
    offset: usize,
    i: nat,
    j: nat,
) -> Seq<Seq<Block>> {
    Seq::new(
        lists.len(),
        |k: int|
            if i <= k < j {
                lists[k].push(
                    Block {
                        arena,
                        offset: (offset + pow2(k as nat)) as usize,
                        len: pow2(k as nat) as usize,
                    },
                )
            } else {
                lists[k]
            },
    )
}

/// The lists after the block of class `i` at `(arena, offset)` is freed:
/// while its buddy is free the two merge one class up, and the result is
/// appended to the list of its class.
pub open spec fn coalesce(lists: Seq<Seq<Block>>, arena: usize, offset: usize, i: nat) -> Seq<
    Seq<Block>,
>
    decreases 9 - i,
{
    if i >= 9 {
        lists.update(9, lists[9].push(Block { arena, offset, len: 512 }))
    } else {
        let s = pow2(i) as usize;
        let b = buddy_offset(offset, s);
        let k = position_at(lists[i as int], arena, b);
        if k < 0 {
            lists.update(i as int, lists[i as int].push(Block { arena, offset, len: s }))
        } else {
            coalesce(
                lists.update(i as int, lists[i as int].remove(k)),
                arena,
                if b < offset {
                    b
                } else {
                    offset
                },
                i + 1,
            )
        }
    }
}

pub proof fn lemma_first_nonempty(lists: Seq<Seq<Block>>, i: nat)
    requires
        i <= 10,
        lists.len() == 10,
    ensures
        i <= first_nonempty(lists, i) <= 10,
        first_nonempty(lists, i) < 10 ==> lists[first_nonempty(lists, i) as int].len() > 0,
        forall|k: int| i <= k < first_nonempty(lists, i) ==> (#[trigger] lists[k]).len() == 0,
    decreases 10 - i,
{
    if i < 10 && lists[i as int].len() == 0 {
        lemma_first_nonempty(lists, i + 1);
    }
}

/// Halving an aligned block keeps both halves aligned.
pub proof fn lemma_half_aligned(o: int, h: nat)
    requires
        is_class_size(h),
        o % (2 * h as int) == 0,
    ensures
        o % (h as int) == 0,
        (o + h) % (h as int) == 0,
{
    let d = 2 * h as int;
    lemma_fundamental_div_mod(o, d);
    let q = o / d;
    assert(o == (2 * q) * h) by (nonlinear_arith)
        requires
            o == d * q,
            d == 2 * h,
    ;
    assert(o + h == (2 * q + 1) * h) by (nonlinear_arith)
        requires
            o == (2 * q) * h,
    ;
    lemma_mod_multiples_basic(2 * q, h as int);
    lemma_mod_multiples_basic(2 * q + 1, h as int);
}

/// Alignment to `2^t` gives alignment to every smaller power of two.
pub proof fn lemma_aligned_down(o: int, i: nat, t: nat)
    requires
        i <= t <= 9,
        o % (pow2(t) as int) == 0,
    ensures
        o % (pow2(i) as int) == 0,
    decreases t,
{
    if i < t {
        lemma_class_size((t - 1) as nat);
        lemma_half_aligned(o, pow2((t - 1) as nat));
        lemma_aligned_down(o, i, (t - 1) as nat);
    }
}

/// Facts about the buddy of an aligned block below 512 bytes: it is aligned,
/// lies in the same chunk, differs from the block, has the block as its own
/// buddy, and the two together form an aligned block of twice the size.
pub proof fn lemma_buddy(o: usize, s: usize)
    requires
        is_class_size(s as nat),
        s <= 256,
        o % s == 0,
        o + s <= 512,
    ensures
        buddy_offset(o, s) % s == 0,
        buddy_offset(o, s) + s <= 512,
        buddy_offset(o, s) != o,
        buddy_offset(buddy_offset(o, s), s) == o,
        ({
            let b = buddy_offset(o, s);
            let m = if b < o {
                b
            } else {
                o
            };
            &&& (m as int) % (2 * s as int) == 0
            &&& m + 2 * s <= 512
            &&& (b < o ==> o == b + s)
            &&& (o < b ==> b == o + s)
        }),
{
    let q = o as int / s as int;
    lemma_fundamental_div_mod(o as int, s as int);
    assert(o == s * q);
    let n = 512int / (s as int);
    assert(s * n == 512 && n % 2 == 0 && n >= 2) by {
        if s == 1 {
        } else if s == 2 {
        } else if s == 4 {
        } else if s == 8 {
        } else if s == 16 {
        } else if s == 32 {
        } else if s == 64 {
        } else if s == 128 {
        } else {
        }
    }
    assert(q + 1 <= n) by (nonlinear_arith)
        requires
            o == s * q,
            o + s <= 512,
            s * n == 512,
            s >= 1,
    ;
    assert(q >= 0) by (nonlinear_arith)
        requires
            o == s * q,
            s >= 1,
            o >= 0,
    ;
    if q % 2 == 0 {
        let p = q / 2;
        assert(q + 2 <= n);
        assert((o + s) as int == s * (q + 1)) by (nonlinear_arith)
            requires
                o == s * q,
        ;
        lemma_div_by_multiple(q + 1, s as int);
        lemma_mod_multiples_basic(q + 1, s as int);
        assert(o as int == p * (2 * s)) by (nonlinear_arith)
            requires
                o == s * q,
                q == 2 * p,
        ;
        lemma_mod_multiples_basic(p, 2 * s as int);
        assert(s * (q + 2) <= s * n) by (nonlinear_arith)
            requires
                q + 2 <= n,
                s >= 1,
        ;
        assert(s * (q + 2) == o + 2 * s) by (nonlinear_arith)
            requires
                o == s * q,
        ;
    } else {
        let p = q / 2;
        assert(q >= 1);
        assert((o - s) as int == s * (q - 1)) by (nonlinear_arith)
            requires
                o == s * q,
        ;
        lemma_div_by_multiple(q - 1, s as int);
        lemma_mod_multiples_basic(q - 1, s as int);
        assert((o - s) as int == p * (2 * s)) by (nonlinear_arith)
            requires
                o == s * q,
                q == 2 * p + 1,
        ;
        lemma_mod_multiples_basic(p, 2 * s as int);
        assert(s * (q + 1) <= s * n) by (nonlinear_arith)
            requires
                q + 1 <= n,
                s >= 1,
        ;
        assert(s * (q + 1) == o + s) by (nonlinear_arith)
            requires
                o == s * q,
        ;
    }
}

/// Allocator that splits power-of-two blocks in halves on demand and merges
/// free buddies back together.
pub struct Buddy {
    lists: Vec<Vec<Block>>,
    live: Ghost<Seq<Block>>,
    usage: Usage,
}

impl View for Buddy {
    type V = PoolView;

    closed spec fn view(&self) -> PoolView {
        PoolView { lists: lists_view(self.lists@), live: self.live@, usage: self.usage }
    }
}

impl Buddy {
    /// What a newly made engine shows: ten empty lists and zero counters.
    pub open spec fn fresh_view() -> PoolView {
        PoolView { lists: empty_view(BUDDY_CLASSES as nat), live: Seq::empty(), usage: Usage::zero() }
    }

    pub open spec fn wf(&self) -> bool {
        buddy_inv(self@)
    }

    pub fn new() -> (r: Self)
        ensures
            r@ == Self::fresh_view(),
            r.wf(),
    {
        proof {
            lemma_empty_bytes(BUDDY_CLASSES as nat);
        }
        Buddy { lists: empty_lists(BUDDY_CLASSES), live: Ghost(Seq::empty()), usage: Usage::new() }
    }

    fn first_nonempty_from(&self, i: usize) -> (r: usize)
        requires
            i <= 9,
            self.wf(),
        ensures
            r == first_nonempty(self@.lists, i as nat),
    {
        let mut j: usize = i;
        while j < BUDDY_CLASSES
            invariant
                i <= j <= 10,
                self.wf(),
                first_nonempty(self@.lists, j as nat) == first_nonempty(self@.lists, i as nat),
            decreases 10 - j,
        {
            assert(self.lists@[j as int]@ == self@.lists[j as int]);
            if self.lists[j].len() > 0 {
                return j;
            }
            j = j + 1;
        }
        j
    }

    /// Hands out a block of `next_pow2(size)` bytes, taken from the first
    /// non-empty class at or above the request's class (or from a new chunk)
    /// and split down, each upper half going to the list of its class.
    pub fn allocate(&mut self, size: usize) -> (r: Result<Block, AllocError>)
        requires
            old(self).wf(),
        ensures
            final(self).wf(),
            size > MAX_REQUEST ==> r is Err && final(self)@ == old(self)@,
            r matches Ok(b) ==> b.len == next_pow2(size as nat),
            r matches Ok(b) ==> final(self)@.live == old(self)@.live.push(b),
            ({
                let v = old(self)@;
                let i = class_of(size as nat);
                let s = next_pow2(size as nat);
                let j = first_nonempty(v.lists, i);
                if size > MAX_REQUEST {
                    r == Err::<Block, AllocError>(AllocError) && final(self)@ == v
                } else if j < 10 {
                    let src = v.lists[j as int][0];
                    &&& r == Ok::<Block, AllocError>(
                        Block { arena: src.arena, offset: src.offset, len: s as usize },
                    )
                    &&& final(self)@.lists == split_lists(
                        v.lists.update(j as int, v.lists[j as int].drop_first()),
                        src.arena,
                        src.offset,
                        i,
                        j,
                    )
                    &&& final(self)@.usage == v.usage.charged(s)
                } else if !v.usage.can_grow() {
                    r == Err::<Block, AllocError>(AllocError) && final(self)@ == v
                } else {
                    &&& r == Ok::<Block, AllocError>(
                        Block { arena: v.usage.arenas, offset: 0, len: s as usize },
                    )
                    &&& final(self)@.lists == split_lists(v.lists, v.usage.arenas, 0, i, 9)
                    &&& final(self)@.usage == v.usage.grown().charged(s)
                }
            }),
    {
        if size > MAX_REQUEST {
            return Err(AllocError);
        }
        let (rounded, index) = size_class(size);
        let found = self.first_nonempty_from(index);
        proof {
            lemma_first_nonempty(self@.lists, index as nat);
            lemma_pow2_values();
        }
        let ghost v0 = self@;
        let top: usize;
        let block: Block;
        if found == BUDDY_CLASSES {
            if !self.usage.room_to_grow() {
                return Err(AllocError);
            }
            block = Block { arena: self.usage.arenas, offset: 0, len: ARENA_SIZE };
            proof {
                let sl = v0.slots();
                assert forall|i: int, k: int| 0 <= i < sl.len() && 0 <= k < sl[i].len() implies (
                #[trigger] sl[i][k]).arena < block.arena by {
                    if i < BUDDY_CLASSES {
                        assert(sl[i][k] == v0.lists[i][k]);
                    } else {
                        assert(sl[i][k] == v0.live[k]);
                    }
                }
                lemma_apart_fresh(sl, block.arena as nat, block);
            }
            self.usage.grow();
            top = 9;
        } else {
            assert(self.lists@[found as int]@ == self@.lists[found as int]);
            block = take_at(&mut self.lists, found, 0);
            proof {
                lemma_take_free(v0.lists, v0.live, found as int, 0);
                assert(v0.lists[found as int].remove(0) =~= v0.lists[found as int].drop_first());
            }
            top = found;
        }
        let ghost lists0 = self@.lists;
        let ghost u0 = self.usage;
        assert(buddy_block_ok(block, top as int, u0.arenas as nat));
        let mut level: usize = top;
        let mut b = block;
        while level > index
            invariant
                index <= level <= top <= 9,
                b == (Block { arena: block.arena, offset: block.offset, len: pow2(level as nat) as usize }),
                buddy_block_ok(block, top as int, u0.arenas as nat),
                (block.offset as int) % (pow2(level as nat) as int) == 0,
                self.usage == u0,
                self.lists@.len() == 10,
                lists0.len() == 10,
                lists_view(self.lists@) == split_lists(lists0, block.arena, block.offset, level as nat, top as nat),
                lists_bytes(self@.lists) + b.len == lists_bytes(lists0) + block.len,
                self.live == old(self).live,
                pairwise_disjoint(self@.slots()),
                apart(self@.slots(), b),
            decreases level,
        {
            let ghost cur = self@.lists;
            level = level - 1;
            let half = b.len / 2;
            proof {
                lemma_class_size(level as nat);
                lemma_half_aligned(block.offset as int, pow2(level as nat));
                lemma_pow2_mono(level as nat + 1, top as nat);
            }
            let upper = Block { arena: b.arena, offset: b.offset + half, len: half };
            let lower = Block { arena: b.arena, offset: b.offset, len: half };
            proof {
                lemma_apart_inside(self@.slots(), b, upper);
                lemma_apart_inside(self@.slots(), b, lower);
                lemma_put_free(cur, self@.live, level as int, upper);
                lemma_apart_put_free(cur, self@.live, level as int, upper, lower);
            }
            push_back(&mut self.lists, level, upper);
            proof {
                assert(lists_view(self.lists@) =~= split_lists(lists0, block.arena, block.offset, level as nat, top as nat));
            }
            b = lower;
        }
        proof {
            lemma_pow2_mono(class_of(size as nat), top as nat);
            lemma_put_live(self@.lists, self@.live, b);
            lemma_class_size(index as nat);
        }
        self.live = Ghost(self.live@.push(b));
        self.usage.charge(rounded);
        proof {
            let v = final(self)@;
            assert forall|i: int, k: int|
                0 <= i < BUDDY_CLASSES && 0 <= k < v.lists[i].len() implies buddy_block_ok(
                #[trigger] v.lists[i][k],
                i,
                v.usage.arenas as nat,
            ) by {
                if index <= i < top {
                    assert(lists0[i].len() == 0);
                    assert(k == 0);
                    lemma_class_size(i as nat);
                    lemma_aligned_down(block.offset as int, (i + 1) as nat, top as nat);
                    lemma_half_aligned(block.offset as int, pow2(i as nat));
                    lemma_pow2_mono((i + 1) as nat, top as nat);
                } else {
                    assert(v.lists[i][k] == lists0[i][k]);
                    if i == top && top == found {
                        assert(lists0[i][k] == v0.lists[i][k + 1]);
                    } else {
                        assert(lists0[i][k] == v0.lists[i][k]);
                    }
                }
            }
            assert forall|i: int, k1: int, k2: int|
                0 <= i < v.lists.len() && 0 <= k1 < v.lists[i].len() && 0 <= k2 < v.lists[i].len()
                    implies !are_buddies(#[trigger] v.lists[i][k1], #[trigger] v.lists[i][k2]) by {
                if index <= i < top {
                    assert(lists0[i].len() == 0);
                    assert(k1 == 0 && k2 == 0);
                    lemma_class_size(i as nat);
                    if i < 9 {
                        lemma_buddy(v.lists[i][0].offset, v.lists[i][0].len);
                    }
                } else if i == top && top == found {
                    assert(v.lists[i][k1] == v0.lists[i][k1 + 1]);
                    assert(v.lists[i][k2] == v0.lists[i][k2 + 1]);
                } else {
                    assert(v.lists[i][k1] == v0.lists[i][k1]);
                    assert(v.lists[i][k2] == v0.lists[i][k2]);
                }
            }
        }
        Ok(b)
    }

    /// The block at `(arena, offset)` of a request of `size` bytes was handed
    /// out by this engine and not given back yet.
    pub open spec fn returnable(&self, arena: usize, offset: usize, size: usize) -> bool {
        &&& size <= MAX_REQUEST
        &&& self@.live.contains(Block { arena, offset, len: next_pow2(size as nat) as usize })
    }

    /// Gives back the block at `(arena, offset)` handed out for a request of
    /// `size` bytes, merging it with its free buddy, level by level, for as
    /// long as there is one.
    pub fn deallocate(&mut self, arena: usize, offset: usize, size: usize)
        requires
            old(self).wf(),
            old(self).returnable(arena, offset, size),
        ensures
            final(self).wf(),
            final(self)@.lists == coalesce(old(self)@.lists, arena, offset, class_of(size as nat)),
            ({
                let b = Block { arena, offset, len: next_pow2(size as nat) as usize };
                final(self)@.live == old(self)@.live.remove(old(self)@.live.index_of(b))
            }),
            final(self)@.usage == old(self)@.usage.refunded(next_pow2(size as nat)),
    {
        let (rounded, index) = size_class(size);
        let ghost v0 = self@;
        let ghost given = Block { arena, offset, len: rounded };
        let ghost l = v0.live.index_of(given);
        proof {
            lemma_take_live(v0.lists, v0.live, l);
        }
        self.live = Ghost(self.live@.remove(l));
        self.usage.refund(rounded);
        let ghost u1 = self.usage;
        let ghost live1 = self.live@;
        proof {
            assert forall|m: int| 0 <= m < live1.len() implies {
                &&& is_class_size((#[trigger] live1[m]).len as nat)
                &&& live1[m].offset % live1[m].len == 0
                &&& live1[m].within(u1.arenas as nat)
            } by {
                let c = if m < l {
                    m
                } else {
                    m + 1
                };
                assert(live1[m] == v0.live[c]);
            }
        }
        let mut level: usize = index;
        let mut off: usize = offset;
        let mut len: usize = rounded;
        loop
            invariant
                v0 == old(self)@,
                index == class_of(size as nat),
                rounded == next_pow2(size as nat),
                level <= 9,
                len == pow2(level as nat),
                off % len == 0,
                off + len <= 512,
                arena < u1.arenas,
                u1 == v0.usage.refunded(rounded as nat),
                u1.wf(),
                self.usage == u1,
                self@.live == live1,
                live1 == v0.live.remove(l),
                l == v0.live.index_of(Block { arena, offset, len: rounded }),
                seq_bytes(live1) == u1.current_allocated_size,
                forall|m: int|
                    0 <= m < live1.len() ==> {
                        &&& is_class_size((#[trigger] live1[m]).len as nat)
                        &&& live1[m].offset % live1[m].len == 0
                        &&& live1[m].within(u1.arenas as nat)
                    },
                buddy_lists_ok(self@.lists, u1.arenas as nat),
                no_free_buddies(self@.lists),
                pairwise_disjoint(self@.slots()),
                apart(self@.slots(), Block { arena, offset: off, len }),
                lists_bytes(self@.lists) + len + seq_bytes(live1) == u1.total_size,
                coalesce(self@.lists, arena, off, level as nat) == coalesce(
                    v0.lists,
                    arena,
                    offset,
                    index as nat,
                ),
            decreases 9 - level,
        {
            let ghost cur = self@.lists;
            proof {
                lemma_pow2_values();
                lemma_class_size(level as nat);
            }
            if level == 9 {
                let top = Block { arena, offset: off, len: ARENA_SIZE };
                proof {
                    lemma_put_free(cur, live1, 9, top);
                }
                push_back(&mut self.lists, 9, top);
                proof {
                    self.lemma_pushed_ok(cur, 9, top);
                    assert(coalesce(cur, arena, off, 9) == cur.update(9, cur[9].push(top)));
                }
                return;
            }
            let buddy = if (off / len) % 2 == 0 {
                off + len
            } else {
                off - len
            };
            proof {
                lemma_buddy(off, len);
            }
            assert(self.lists@[level as int]@ == cur[level as int]);
            match find_at(&self.lists[level], arena, buddy) {
                None => {
                    let b = Block { arena, offset: off, len };
                    proof {
                        lemma_put_free(cur, live1, level as int, b);
                    }
                    push_back(&mut self.lists, level, b);
                    proof {
                        self.lemma_pushed_ok(cur, level as int, b);
                        assert(buddy == buddy_offset(off, pow2(level as nat) as usize));
                        assert(coalesce(cur, arena, off, level as nat) == cur.update(
                            level as int,
                            cur[level as int].push(b),
                        ));
                    }
                    return;
                },
                Some(k) => {
                    let ghost pending = Block { arena, offset: off, len };
                    let ghost bud = cur[level as int][k as int];
                    proof {
                        lemma_take_free(cur, live1, level as int, k as int);
                        lemma_apart_take_free(cur, live1, level as int, k as int, pending);
                        let rest = cur.update(level as int, cur[level as int].remove(k as int)).push(live1);
                        if buddy < off {
                            lemma_apart_join(rest, bud, pending);
                        } else {
                            lemma_apart_join(rest, pending, bud);
                        }
                        lemma_pow2_mono(level as nat + 1, 9);
                    }
                    let _ = take_at(&mut self.lists, level, k);
                    proof {
                        let v = self@.lists;
                        assert forall|i: int, j: int|
                            0 <= i < BUDDY_CLASSES && 0 <= j < v[i].len() implies buddy_block_ok(
                            #[trigger] v[i][j],
                            i,
                            u1.arenas as nat,
                        ) by {
                            if i == level && j >= k {
                                assert(v[i][j] == cur[i][j + 1]);
                            } else {
                                assert(v[i][j] == cur[i][j]);
                            }
                        }
                        assert forall|i: int, k1: int, k2: int|
                            0 <= i < v.len() && 0 <= k1 < v[i].len() && 0 <= k2 < v[i].len()
                                implies !are_buddies(
                                #[trigger] v[i][k1],
                                #[trigger] v[i][k2],
                            ) by {
                            let c1 = if i == level && k1 >= k {
                                k1 + 1
                            } else {
                                k1
                            };
                            let c2 = if i == level && k2 >= k {
                                k2 + 1
                            } else {
                                k2
                            };
                            assert(v[i][k1] == cur[i][c1]);
                            assert(v[i][k2] == cur[i][c2]);
                        }
                    }
                    if buddy < off {
                        off = buddy;
                    }
                    len = len * 2;
                    level = level + 1;
                },
            }
        }
    }

    /// Appending `b` to list `i` where its buddy is not free keeps the lists
    /// in shape and free of buddy pairs.
    proof fn lemma_pushed_ok(&self, cur: Seq<Seq<Block>>, i: int, b: Block)
        requires
            0 <= i < BUDDY_CLASSES,
            buddy_lists_ok(cur, self.usage.arenas as nat),
            no_free_buddies(cur),
            buddy_block_ok(b, i, self.usage.arenas as nat),
            i < 9 ==> forall|m: int|
                0 <= m < cur[i].len() ==> !(#[trigger] cur[i][m]).starts_at(
                    b.arena,
                    buddy_offset(b.offset, b.len),
                ),
            self@.lists == cur.update(i, cur[i].push(b)),
        ensures
            buddy_lists_ok(self@.lists, self.usage.arenas as nat),
            no_free_buddies(self@.lists),
    {
        lemma_pow2_values();
        lemma_class_size(i as nat);
        let v = self@.lists;
        assert forall|j: int, k: int|
            0 <= j < BUDDY_CLASSES && 0 <= k < v[j].len() implies buddy_block_ok(
            #[trigger] v[j][k],
            j,
            self.usage.arenas as nat,
        ) by {
            if j != i || k < cur[i].len() {
                assert(v[j][k] == cur[j][k]);
            }
        }
        assert forall|j: int, k1: int, k2: int|
            0 <= j < v.len() && 0 <= k1 < v[j].len() && 0 <= k2 < v[j].len() implies !are_buddies(
            #[trigger] v[j][k1],
            #[trigger] v[j][k2],
        ) by {
            if j == i {
                let n = cur[i].len();
                if i < 9 {
                    lemma_buddy(b.offset, b.len);
                }
                if k1 < n {
                    assert(v[j][k1] == cur[j][k1]);
                    if i < 9 {
                        lemma_buddy(v[j][k1].offset, v[j][k1].len);
                    }
                }
                if k2 < n {
                    assert(v[j][k2] == cur[j][k2]);
                }
            } else {
                assert(v[j][k1] == cur[j][k1]);
                assert(v[j][k2] == cur[j][k2]);
            }
        }
    }

    /// Number of free blocks in list `i`.
    pub fn free_list_len(&self, i: usize) -> (r: usize)
        requires
            i < BUDDY_CLASSES,
            self.wf(),
        ensures
            r == self@.lists[i as int].len(),
    {
        self.lists[i].len()
    }

    /// The free block at position `k` of list `i`.
    pub fn free_block(&self, i: usize, k: usize) -> (r: Block)
        requires
            i < BUDDY_CLASSES,
            self.wf(),
            k < self@.lists[i as int].len(),
        ensures
            r == self@.lists[i as int][k as int],
    {
        self.lists[i][k]
    }

    pub fn total_size(&self) -> (r: usize)
        ensures
            r == self@.usage.total_size,
    {
        self.usage.total_size
    }

    pub fn peak_allocated_size(&self) -> (r: usize)
        ensures
            r == self@.usage.peak_allocated_size,
    {
        self.usage.peak_allocated_size
    }

    pub fn current_allocated_size(&self) -> (r: usize)
        ensures
            r == self@.usage.current_allocated_size,
    {
        self.usage.current_allocated_size
    }
}

impl MemStats for Buddy {
    open spec fn stats_wf(&self) -> bool {
        self.wf()
    }

    open spec fn peak_spec(&self) -> nat {
        self@.usage.peak_allocated_size as nat
    }

    open spec fn total_spec(&self) -> nat {
        self@.usage.total_size as nat
    }

    open spec fn is_fresh(&self) -> bool {
        self@ == Self::fresh_view()
    }

    fn calculate_allocation_ratio(&self) -> (r: (usize, usize)) {
        (self.usage.peak_allocated_size, self.usage.total_size)
    }

    fn reset(&mut self) {
        proof {
            lemma_empty_bytes(BUDDY_CLASSES as nat);
        }
        self.lists = empty_lists(BUDDY_CLASSES);
        self.live = Ghost(Seq::empty());
        self.usage = Usage::new();
    }
}

impl Buddy {
    /// Blocks handed out and not yet given back never share a byte with each
    /// other, nor with any free block.
    pub proof fn lemma_outstanding_disjoint(&self, l1: int, l2: int)
        requires
            self.wf(),
            0 <= l1 < self@.live.len(),
            0 <= l2 < self@.live.len(),
            l1 != l2,
        ensures
            disjoint(self@.live[l1], self@.live[l2]),
            forall|i: int, k: int|
                0 <= i < self@.lists.len() && 0 <= k < self@.lists[i].len() ==> disjoint(
                    #[trigger] self@.lists[i][k],
                    self@.live[l1],
                ),
    {
        self@.lemma_live_apart(l2);
        self@.lemma_live_apart(l1);
    }

    /// The counters stay ordered: allocated at most peak, peak at most total.
    pub proof fn lemma_counters_ordered(&self)
        requires
            self.wf(),
        ensures
            0 <= self@.usage.current_allocated_size <= self@.usage.peak_allocated_size
                <= self@.usage.total_size,
    {
    }

    /// No free list holds a block together with its buddy.
    pub proof fn lemma_no_free_buddies(&self, i: int, k1: int, k2: int)
        requires
            self.wf(),
            0 <= i < BUDDY_CLASSES,
            0 <= k1 < self@.lists[i].len(),
            0 <= k2 < self@.lists[i].len(),
        ensures
            !are_buddies(self@.lists[i][k1], self@.lists[i][k2]),
    {
    }

    /// Every block of list `i` has exactly `2^i` bytes and starts at a multiple
    /// of `2^i` of its chunk.
    pub proof fn lemma_class_lengths(&self, i: int, k: int)
        requires
            self.wf(),
            0 <= i < BUDDY_CLASSES,
            0 <= k < self@.lists[i].len(),
        ensures
            self@.lists[i][k].len == pow2(i as nat),
            self@.lists[i][k].offset % self@.lists[i][k].len == 0,
    {
    }
}

} // verus!
