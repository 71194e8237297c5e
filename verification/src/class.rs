//! Size classes: the power of two that a request is rounded up to.

use vstd::arithmetic::power2::{
    lemma2_to64, lemma_pow2_pos, lemma_pow2_strictly_increases, lemma_pow2_unfold, pow2,
};
use vstd::prelude::*;

verus! {

/// Bytes that the header in front of every allocation takes.
pub const HEADER_SIZE: usize = 8;

/// Smallest size that a request is padded to. Rounded up to a power of two it
/// gives the smallest object, which has just room for the two links of a
/// free-list node.
pub const OBJECT_MINIMUM_SIZE: usize = 12;

/// Number of size classes; class `k` holds objects of `2^k` bytes.
pub const CACHE_COUNT: usize = 32;

/// Size of the objects of the largest class.
pub const OBJECT_MAXIMUM_SIZE: usize = 0x8000_0000;

/// The size of a request once the header is added and the minimum applied.
pub open spec fn padded_size(size: nat) -> nat {
    if size + HEADER_SIZE < OBJECT_MINIMUM_SIZE {
        OBJECT_MINIMUM_SIZE as nat
    } else {
        size + HEADER_SIZE as nat
    }
}

/// The least `k` with `2^k >= n`.
pub open spec fn ceil_log2(n: nat) -> nat
    decreases n,
{
    if n <= 1 {
        0
    } else {
        1 + ceil_log2((n + 1) / 2)
    }
}

/// The size class that serves a request for `size` bytes.
pub open spec fn size_class(size: nat) -> nat {
    ceil_log2(padded_size(size))
}

/// The classes whose objects can hold a free-list node and a padded request:
/// those from the class of the minimum object size up to the last one.
pub open spec fn is_served_class(class: nat) -> bool {
    size_class(0) <= class < CACHE_COUNT
}

/// The bytes of an object of size class `class` that follow its header.
pub open spec fn capacity(class: nat) -> int {
    pow2(class) - HEADER_SIZE
}

/// Objects of a served class hold a free-list node, and are no larger than
/// the largest class allows.
pub proof fn lemma_served_class_size(class: nat)
    requires
        is_served_class(class),
    ensures
        16 <= pow2(class) <= OBJECT_MAXIMUM_SIZE,
{
    lemma_min_class();
    lemma2_to64();
    if class > 4 {
        lemma_pow2_strictly_increases(4, class);
    }
    if class < 31 {
        lemma_pow2_strictly_increases(class, 31);
    }
}

/// `ceil_log2(n)` is an exponent whose power reaches `n`, and the one below it
/// does not.
pub proof fn lemma_ceil_log2_bounds(n: nat)
    ensures
        n <= pow2(ceil_log2(n)),
        ceil_log2(n) > 0 ==> pow2((ceil_log2(n) - 1) as nat) < n,
    decreases n,
{
    lemma2_to64();
    if n <= 1 {
    } else {
        let half = (n + 1) / 2;
        lemma_ceil_log2_bounds(half);
        let k = ceil_log2(half);
        lemma_pow2_unfold(k + 1);
        if k > 0 {
            lemma_pow2_unfold(k);
        }
    }
}

/// An exponent whose power reaches `n` while the one below does not is
/// `ceil_log2(n)`.
pub proof fn lemma_ceil_log2_unique(n: nat, k: nat)
    requires
        n <= pow2(k),
        k > 0 ==> pow2((k - 1) as nat) < n,
    ensures
        k == ceil_log2(n),
{
    let c = ceil_log2(n);
    lemma_ceil_log2_bounds(n);
    if k < c {
        if k < c - 1 {
            lemma_pow2_strictly_increases(k, (c - 1) as nat);
        }
    } else if c < k {
        if c < k - 1 {
            lemma_pow2_strictly_increases(c, (k - 1) as nat);
        }
    }
}

/// A larger number does not have a smaller `ceil_log2`.
pub proof fn lemma_ceil_log2_monotonic(a: nat, b: nat)
    requires
        a <= b,
    ensures
        ceil_log2(a) <= ceil_log2(b),
    decreases b,
{
    if a > 1 {
        lemma_ceil_log2_monotonic((a + 1) / 2, (b + 1) / 2);
    }
}

/// The smallest class in use is class 4, of objects of 16 bytes.
pub proof fn lemma_min_class()
    ensures
        size_class(0) == 4,
{
    lemma2_to64();
    lemma_ceil_log2_unique(12, 4);
}

/// The chosen class is the tightest power of two for the padded size: its
/// objects hold the request with its header, and objects of half the size
/// would not hold the padded size. Half the size is never more than the
/// request with its header, and is less for every request but the empty one;
/// so it is wherever the minimum object size does not apply.
pub proof fn lemma_size_class_tight(size: nat)
    ensures
        size + HEADER_SIZE <= pow2(size_class(size)),
        size_class(size) > 0,
        pow2((size_class(size) - 1) as nat) < padded_size(size),
        pow2((size_class(size) - 1) as nat) <= size + HEADER_SIZE,
        pow2((size_class(size) - 1) as nat) < size + HEADER_SIZE <==> size > 0,
        size + HEADER_SIZE >= OBJECT_MINIMUM_SIZE ==> pow2((size_class(size) - 1) as nat) < size
            + HEADER_SIZE,
{
    lemma_ceil_log2_bounds(padded_size(size));
    lemma_ceil_log2_monotonic(padded_size(0), padded_size(size));
    lemma_min_class();
    lemma2_to64();
    if size_class(size) > 4 {
        lemma_pow2_strictly_increases(3, (size_class(size) - 1) as nat);
    }
}

/// Computes `2^class`.
pub fn object_size_of(class: usize) -> (size: usize)
    requires
        class < CACHE_COUNT,
    ensures
        size == pow2(class as nat),
        0 < size <= OBJECT_MAXIMUM_SIZE,
{
    let mut size: usize = 1;
    let mut k: usize = 0;
    proof {
        lemma2_to64();
    }
    while k < class
        invariant
            k <= class < CACHE_COUNT,
            size == pow2(k as nat),
            pow2(31) == 0x8000_0000,
        decreases class - k,
    {
        proof {
            lemma_pow2_unfold((k + 1) as nat);
            if k + 1 < 31 {
                lemma_pow2_strictly_increases((k + 1) as nat, 31);
            }
        }
        size = size * 2;
        k += 1;
    }
    proof {
        if class < 31 {
            lemma_pow2_strictly_increases(class as nat, 31);
        }
        lemma_pow2_pos(class as nat);
    }
    size
}

/// Finds the size class for a request of `size` bytes: adds the header,
/// applies the minimum object size and rounds up to a power of two. Returns
/// `None` where the result is more than the largest class holds.
pub fn class_for(size: usize) -> (class: Option<usize>)
    ensures
        class is Some <==> padded_size(size as nat) <= OBJECT_MAXIMUM_SIZE,
        class is Some ==> {
            &&& class->0 == size_class(size as nat)
            &&& is_served_class(class->0 as nat)
            &&& padded_size(size as nat) <= pow2(class->0 as nat)
            &&& pow2((class->0 - 1) as nat) < padded_size(size as nat)
            &&& pow2((class->0 - 1) as nat) <= size + HEADER_SIZE
        },
{
    if size > OBJECT_MAXIMUM_SIZE - HEADER_SIZE {
        return None;
    }
    proof {
        lemma_size_class_tight(size as nat);
    }
    // Add in room for the allocation header.
    let size = size + HEADER_SIZE;
    let size = if size < OBJECT_MINIMUM_SIZE {
        OBJECT_MINIMUM_SIZE
    } else {
        size
    };
    // Find the nearest power of two at or above.
    let mut pow: usize = 1;
    let mut lg2: usize = 0;
    proof {
        lemma2_to64();
    }
    while pow < size
        invariant
            size <= OBJECT_MAXIMUM_SIZE,
            pow == pow2(lg2 as nat),
            lg2 <= 31,
            lg2 > 0 ==> pow2((lg2 - 1) as nat) < size,
            pow2(31) == 0x8000_0000,
        decreases 31 - lg2,
    {
        proof {
            lemma_pow2_unfold((lg2 + 1) as nat);
            assert(lg2 < 31);
        }
        pow = pow * 2;
        lg2 += 1;
    }
    proof {
        lemma_ceil_log2_unique(size as nat, lg2 as nat);
        lemma_min_class();
        lemma_ceil_log2_monotonic(OBJECT_MINIMUM_SIZE as nat, size as nat);
    }
    Some(lg2)
}

} // verus!
