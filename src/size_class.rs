use vstd::prelude::*;

verus! {

/// Size in bytes of one arena chunk obtained from the host.
pub const ARENA_SIZE: usize = 512;

/// Largest request any engine serves.
pub const MAX_REQUEST: usize = 512;

/// `2^i`.
pub open spec fn pow2(i: nat) -> nat
    decreases i,
{
    if i == 0 {
        1
    } else {
        2 * pow2((i - 1) as nat)
    }
}

/// Number of binary digits of `t` (0 for 0).
pub open spec fn bit_len(t: nat) -> nat
    decreases t,
{
    if t == 0 {
        0
    } else {
        1 + bit_len(t / 2)
    }
}

/// `ceil(log2(n))`: the index of the smallest power of two that is at least `n`
/// (0 for requests of 0 or 1 byte).
pub open spec fn class_of(n: nat) -> nat {
    if n == 0 {
        0
    } else {
        bit_len((n - 1) as nat)
    }
}

/// The smallest power of two that is at least `n` (1 for 0).
pub open spec fn next_pow2(n: nat) -> nat {
    pow2(class_of(n))
}

/// Segregated-free-list class of a block of `len` bytes: lists hold
/// (0,32], (32,64], (64,128], (128,256] and everything above 256.
pub open spec fn sfl_class(len: nat) -> nat {
    if class_of(len) <= 5 {
        0
    } else if class_of(len) >= 9 {
        4
    } else {
        (class_of(len) - 5) as nat
    }
}

pub proof fn lemma_pow2_pos(i: nat)
    ensures
        pow2(i) >= 1,
    decreases i,
{
    if i > 0 {
        lemma_pow2_pos((i - 1) as nat);
    }
}

pub proof fn lemma_pow2_mono(i: nat, j: nat)
    requires
        i <= j,
    ensures
        pow2(i) <= pow2(j),
    decreases j,
{
    if i < j {
        lemma_pow2_mono(i, (j - 1) as nat);
        lemma_pow2_pos((j - 1) as nat);
    }
}

pub proof fn lemma_pow2_values()
    ensures
        pow2(0) == 1,
        pow2(1) == 2,
        pow2(2) == 4,
        pow2(3) == 8,
        pow2(4) == 16,
        pow2(5) == 32,
        pow2(6) == 64,
        pow2(7) == 128,
        pow2(8) == 256,
        pow2(9) == 512,
{
    reveal_with_fuel(pow2, 10);
}

/// A number below `2^k` has at most `k` binary digits.
pub proof fn lemma_bit_len_bound(t: nat, k: nat)
    requires
        t < pow2(k),
    ensures
        bit_len(t) <= k,
    decreases t,
{
    if t > 0 {
        assert(k > 0);
        lemma_bit_len_bound(t / 2, (k - 1) as nat);
    }
}

/// A number is below two to the power of its number of digits.
pub proof fn lemma_bit_len_covers(t: nat)
    ensures
        t < pow2(bit_len(t)),
        t > 0 ==> pow2((bit_len(t) - 1) as nat) <= t,
    decreases t,
{
    if t > 0 {
        lemma_bit_len_covers(t / 2);
        lemma_pow2_pos(bit_len(t / 2));
    }
}

/// `next_pow2(n)` is the least power of two that is at least `n`.
pub proof fn lemma_next_pow2_least(n: nat)
    ensures
        n <= next_pow2(n),
        n > 1 ==> pow2((class_of(n) - 1) as nat) < n,
{
    if n > 0 {
        lemma_bit_len_covers((n - 1) as nat);
    } else {
        lemma_pow2_pos(0);
    }
}

/// Requests of at most 512 bytes fall in one of the ten classes.
pub proof fn lemma_class_bound(n: nat)
    requires
        n <= 512,
    ensures
        class_of(n) <= 9,
        next_pow2(n) <= 512,
        n <= next_pow2(n),
{
    lemma_pow2_values();
    if n > 0 {
        lemma_bit_len_bound((n - 1) as nat, 9);
    }
    lemma_pow2_mono(class_of(n), 9);
    lemma_next_pow2_least(n);
}

/// `s` is one of the ten class sizes.
pub open spec fn is_class_size(s: nat) -> bool {
    s == 1 || s == 2 || s == 4 || s == 8 || s == 16 || s == 32 || s == 64 || s == 128 || s
        == 256 || s == 512
}

pub proof fn lemma_class_size(i: nat)
    requires
        i <= 9,
    ensures
        is_class_size(pow2(i)),
{
    lemma_pow2_values();
    if i == 0 {
    } else if i == 1 {
    } else if i == 2 {
    } else if i == 3 {
    } else if i == 4 {
    } else if i == 5 {
    } else if i == 6 {
    } else if i == 7 {
    } else if i == 8 {
    } else {
    }
}

/// Rounds `size` up to a power of two; returns that power and its exponent.
pub fn size_class(size: usize) -> (r: (usize, usize))
    requires
        size <= MAX_REQUEST,
    ensures
        r.1 == class_of(size as nat),
        r.0 == next_pow2(size as nat),
        r.0 == pow2(r.1 as nat),
        r.1 <= 9,
        size <= r.0 <= 512,
        1 <= r.0,
{
    let mut rounded: usize = 1;
    let mut index: usize = 0;
    if size > 0 {
        let mut temp: usize = size - 1;
        proof {
            lemma_class_bound(size as nat);
        }
        while temp != 0
            invariant
                index + bit_len(temp as nat) == class_of(size as nat),
                rounded == pow2(index as nat),
                class_of(size as nat) <= 9,
            decreases temp,
        {
            proof {
                lemma_pow2_values();
                lemma_pow2_mono(index as nat + 1, 9);
            }
            temp = temp / 2;
            rounded = rounded * 2;
            index = index + 1;
        }
    }
    proof {
        lemma_class_bound(size as nat);
        lemma_pow2_values();
    }
    (rounded, index)
}

/// Free-list class of a block of `len` bytes in the segregated free list.
pub fn sfl_index(len: usize) -> (r: usize)
    ensures
        r == sfl_class(len as nat),
        r <= 4,
{
    if len > MAX_REQUEST {
        proof {
            lemma_pow2_values();
            lemma_next_pow2_least(len as nat);
            if class_of(len as nat) < 9 {
                lemma_pow2_mono(class_of(len as nat), 8);
                lemma_pow2_mono(class_of(len as nat), 9);
            }
        }
        return 4;
    }
    let (_, class) = size_class(len);
    if class <= 5 {
        0
    } else if class >= 9 {
        4
    } else {
        class - 5
    }
}

} // verus!
