use vstd::prelude::*;

use crate::block::{lists_bytes, seq_bytes, Block};
use crate::region::{disjoint, pairwise_disjoint};
use crate::size_class::ARENA_SIZE;

verus! {

/// Byte counters of an engine, in the engine's own rounding units.
#[derive(Clone, Copy, Debug, PartialEq, Eq, Structural)]
pub struct Usage {
    /// Bytes of all arena chunks held (512 for each).
    pub total_size: usize,
    /// Largest value `current_allocated_size` has reached.
    pub peak_allocated_size: usize,
    /// Bytes handed out and not yet returned.
    pub current_allocated_size: usize,
    /// Number of arena chunks held; chunks are numbered from 0.
    pub arenas: usize,
}

/// What an engine shows: its free lists, front first, the blocks handed out
/// and not yet given back, in the order they were handed out, and its counters.
pub ghost struct PoolView {
    pub lists: Seq<Seq<Block>>,
    pub live: Seq<Block>,
    pub usage: Usage,
}

impl PoolView {
    /// Every block the engine accounts for: the free lists, then the
    /// outstanding blocks as one more list.
    pub open spec fn slots(self) -> Seq<Seq<Block>> {
        self.lists.push(self.live)
    }

    /// What all engines keep: no two blocks share a byte, every block lies in a
    /// chunk held, and every byte of every chunk is either free or outstanding,
    /// the outstanding ones being what is counted as allocated.
    pub open spec fn owned_ok(self) -> bool {
        &&& pairwise_disjoint(self.slots())
        &&& forall|l: int| 0 <= l < self.live.len() ==> (#[trigger] self.live[l]).within(self.usage.arenas as nat)
        &&& lists_bytes(self.lists) + seq_bytes(self.live) == self.usage.total_size
        &&& seq_bytes(self.live) == self.usage.current_allocated_size
        &&& self.usage.wf()
    }

    /// An outstanding block shares no byte with any other outstanding block,
    /// nor with any free block.
    pub proof fn lemma_live_apart(self, l: int)
        requires
            self.owned_ok(),
            0 <= l < self.live.len(),
        ensures
            forall|m: int| 0 <= m < self.live.len() && m != l ==> disjoint(#[trigger] self.live[m], self.live[l]),
            forall|i: int, k: int|
                0 <= i < self.lists.len() && 0 <= k < self.lists[i].len() ==> disjoint(
                    #[trigger] self.lists[i][k],
                    self.live[l],
                ),
    {
        let s = self.slots();
        let n = self.lists.len() as int;
        assert(s[n] == self.live);
        assert forall|m: int| 0 <= m < self.live.len() && m != l implies disjoint(
            #[trigger] self.live[m],
            self.live[l],
        ) by {
            assert(s[n][m] == self.live[m]);
            assert(s[n][l] == self.live[l]);
        }
        assert forall|i: int, k: int|
            0 <= i < self.lists.len() && 0 <= k < self.lists[i].len() implies disjoint(
            #[trigger] self.lists[i][k],
            self.live[l],
        ) by {
            assert(s[i] == self.lists[i]);
            assert(s[n][l] == self.live[l]);
        }
    }
}

impl Usage {
    pub open spec fn wf(self) -> bool {
        &&& self.current_allocated_size <= self.peak_allocated_size
        &&& self.peak_allocated_size <= self.total_size
        &&& self.total_size == ARENA_SIZE * self.arenas
    }

    /// The counters of an engine that holds nothing.
    pub open spec fn zero() -> Usage {
        Usage { total_size: 0, peak_allocated_size: 0, current_allocated_size: 0, arenas: 0 }
    }

    /// Counters after `n` more bytes are handed out.
    pub open spec fn charged(self, n: nat) -> Usage {
        let cur = (self.current_allocated_size + n) as usize;
        Usage {
            current_allocated_size: cur,
            peak_allocated_size: if cur > self.peak_allocated_size {
                cur
            } else {
                self.peak_allocated_size
            },
            ..self
        }
    }

    /// Counters after `n` bytes come back.
    pub open spec fn refunded(self, n: nat) -> Usage {
        Usage { current_allocated_size: (self.current_allocated_size - n) as usize, ..self }
    }

    /// Counters after one more arena chunk is obtained.
    pub open spec fn grown(self) -> Usage {
        Usage {
            total_size: (self.total_size + ARENA_SIZE) as usize,
            arenas: (self.arenas + 1) as usize,
            ..self
        }
    }

    /// Whether one more arena chunk can be counted without overflow.
    pub open spec fn can_grow(self) -> bool {
        self.total_size + ARENA_SIZE <= usize::MAX
    }

    pub fn new() -> (r: Usage)
        ensures
            r == Usage::zero(),
            r.wf(),
    {
        Usage { total_size: 0, peak_allocated_size: 0, current_allocated_size: 0, arenas: 0 }
    }

    pub fn room_to_grow(&self) -> (r: bool)
        ensures
            r == self.can_grow(),
    {
        self.total_size <= usize::MAX - ARENA_SIZE
    }

    pub fn grow(&mut self)
        requires
            old(self).wf(),
            old(self).can_grow(),
        ensures
            *final(self) == old(self).grown(),
            final(self).wf(),
    {
        self.total_size = self.total_size + ARENA_SIZE;
        self.arenas = self.arenas + 1;
    }

    pub fn charge(&mut self, n: usize)
        requires
            old(self).wf(),
            old(self).current_allocated_size + n <= old(self).total_size,
        ensures
            *final(self) == old(self).charged(n as nat),
            final(self).wf(),
    {
        self.current_allocated_size = self.current_allocated_size + n;
        if self.current_allocated_size > self.peak_allocated_size {
            self.peak_allocated_size = self.current_allocated_size;
        }
    }

    pub fn refund(&mut self, n: usize)
        requires
            old(self).wf(),
            n <= old(self).current_allocated_size,
        ensures
            *final(self) == old(self).refunded(n as nat),
            final(self).wf(),
    {
        self.current_allocated_size = self.current_allocated_size - n;
    }
}

/// Utilisation statistics of an engine, and a way to start it over.
pub trait MemStats {
    spec fn stats_wf(&self) -> bool;

    /// Peak bytes handed out at once.
    spec fn peak_spec(&self) -> nat;

    /// Bytes of arena chunks held.
    spec fn total_spec(&self) -> nat;

    /// The engine shows exactly what a newly made one shows.
    spec fn is_fresh(&self) -> bool;

    /// The peak allocated size and the total size: the numerator and the
    /// denominator of the utilisation ratio.
    fn calculate_allocation_ratio(&self) -> (r: (usize, usize))
        requires
            self.stats_wf(),
        ensures
            r.0 == self.peak_spec(),
            r.1 == self.total_spec(),
            r.0 <= r.1,
    ;

    /// Gives every arena chunk back, empties every free list and zeroes the counters.
    fn reset(&mut self)
        ensures
            final(self).stats_wf(),
            final(self).is_fresh(),
    ;
}

} // verus!
