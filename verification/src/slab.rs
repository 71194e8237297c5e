//! The geometry of a slab: how large it is and where its objects stand.

use crate::class::CACHE_COUNT;
use vstd::arithmetic::div_mod::lemma_div_multiples_vanish;
use vstd::arithmetic::power2::{
    lemma2_to64, lemma_pow2_adds, lemma_pow2_pos, lemma_pow2_strictly_increases, pow2,
};
use vstd::prelude::*;

verus! {

/// Size of each slab in 4096-byte pages.
pub const SLAB_SIZE: usize = 1;

/// Minimum slab size in bytes.
pub const SLAB_MINIMUM_SIZE: usize = 4096 * SLAB_SIZE;

/// The slab that objects of `object_size` bytes are carved from is as large
/// as one object, and at least the minimum slab size.
pub open spec fn slab_size_of(object_size: nat) -> nat {
    if object_size >= SLAB_MINIMUM_SIZE {
        object_size
    } else {
        SLAB_MINIMUM_SIZE as nat
    }
}

/// The address of object number `index` of a slab that starts at `start`.
#[verifier::opaque]
pub open spec fn object_at(start: int, object_size: int, index: int) -> int {
    start + index * object_size
}

/// The objects of a slab that starts at `start`, but for the first: the
/// addresses `start + object_size`, `start + 2 * object_size` and so on, as
/// many as fit into `slab_size` bytes beside the first object.
pub open spec fn carved(start: int, object_size: int, slab_size: int) -> Seq<usize> {
    Seq::new(
        (slab_size / object_size - 1) as nat,
        |j: int| object_at(start, object_size, j + 1) as usize,
    )
}

/// Each object of a slab starts where the one before it ends; the first
/// starts where the slab does.
pub proof fn lemma_object_at_step(start: int, object_size: int, index: int)
    ensures
        object_at(start, object_size, 0) == start,
        object_at(start, object_size, 1) == start + object_size,
        object_at(start, object_size, index + 1) == object_at(start, object_size, index)
            + object_size,
{
    reveal(object_at);
    assert((index + 1) * object_size == index * object_size + object_size) by (nonlinear_arith);
}

/// A later object of a slab does not start before an earlier one.
pub proof fn lemma_object_at_rises(start: int, object_size: int, i: int, j: int)
    requires
        0 < object_size,
        i <= j,
    ensures
        object_at(start, object_size, i) <= object_at(start, object_size, j),
{
    reveal(object_at);
    assert(i * object_size <= j * object_size) by (nonlinear_arith)
        requires
            0 < object_size,
            i <= j,
    ;
}

/// A slab holds a whole number of objects: the returned count, which is the
/// slab size divided by the object size.
pub proof fn lemma_slab_count(class: nat) -> (count: int)
    requires
        class < CACHE_COUNT,
    ensures
        count >= 1,
        count * pow2(class) == slab_size_of(pow2(class)),
        count == slab_size_of(pow2(class)) as int / pow2(class) as int,
        pow2(class) >= SLAB_MINIMUM_SIZE ==> count == 1,
{
    lemma2_to64();
    let size = pow2(class) as int;
    lemma_pow2_pos(class);
    let count = if size >= SLAB_MINIMUM_SIZE {
        1int
    } else {
        if class > 12 {
            lemma_pow2_strictly_increases(12, class);
        }
        let rest = (12 - class) as nat;
        lemma_pow2_adds(class, rest);
        lemma_pow2_pos(rest);
        pow2(rest) as int
    };
    assert(count * size == slab_size_of(pow2(class)));
    assert((size * count) / size == count) by {
        lemma_div_multiples_vanish(count, size);
    }
    assert(size * count == count * size) by (nonlinear_arith);
    count
}

/// The carved objects stand behind the first object and inside the slab, in
/// rising order and without overlap.
pub proof fn lemma_carved(start: int, object_size: int, slab_size: int)
    requires
        0 <= start,
        0 < object_size <= slab_size,
        start + slab_size <= usize::MAX,
    ensures
        carved(start, object_size, slab_size).len() == slab_size / object_size - 1,
        forall|j: int|
            0 <= j < carved(start, object_size, slab_size).len() ==> {
                &&& (#[trigger] carved(start, object_size, slab_size)[j]) == object_at(
                    start,
                    object_size,
                    j + 1,
                )
                &&& start + object_size <= carved(start, object_size, slab_size)[j]
                &&& carved(start, object_size, slab_size)[j] + object_size <= start + slab_size
            },
        forall|i: int, j: int|
            0 <= i < j < carved(start, object_size, slab_size).len() ==> (#[trigger] carved(
                start,
                object_size,
                slab_size,
            )[i]) + object_size <= #[trigger] carved(start, object_size, slab_size)[j],
{
    let count = slab_size / object_size;
    assert(count >= 1 && count * object_size <= slab_size) by (nonlinear_arith)
        requires
            0 < object_size <= slab_size,
            count == slab_size / object_size,
    ;
    let c = carved(start, object_size, slab_size);
    reveal(object_at);
    assert forall|j: int| 0 <= j < c.len() implies {
        &&& (#[trigger] c[j]) == object_at(start, object_size, j + 1)
        &&& start + object_size <= c[j]
        &&& c[j] + object_size <= start + slab_size
    } by {
        assert(object_size <= (j + 1) * object_size && (j + 1) * object_size + object_size <= count
            * object_size) by (nonlinear_arith)
            requires
                0 <= j < count - 1,
                0 < object_size,
        ;
    }
    assert forall|i: int, j: int| 0 <= i < j < c.len() implies (#[trigger] c[i]) + object_size
        <= #[trigger] c[j] by {
        assert((i + 1) * object_size + object_size <= (j + 1) * object_size) by (nonlinear_arith)
            requires
                0 <= i < j,
                0 < object_size,
        ;
    }
}

/// A slab for objects of size class `class` is carved into one object less
/// than the slab holds, the first being handed out at once. Where one object
/// fills the slab, nothing is carved.
pub proof fn lemma_carved_count(start: int, class: nat)
    requires
        class < CACHE_COUNT,
    ensures
        carved(start, pow2(class) as int, slab_size_of(pow2(class)) as int).len() == slab_size_of(
            pow2(class),
        ) as int / pow2(class) as int - 1,
        pow2(class) >= SLAB_MINIMUM_SIZE ==> carved(
            start,
            pow2(class) as int,
            slab_size_of(pow2(class)) as int,
        ) == Seq::<usize>::empty(),
{
    let count = lemma_slab_count(class);
    if pow2(class) >= SLAB_MINIMUM_SIZE {
        assert(carved(start, pow2(class) as int, slab_size_of(pow2(class)) as int)
            =~= Seq::<usize>::empty());
    }
}

} // verus!
