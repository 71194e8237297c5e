//! The lower-level source of memory that slabs are requested from.

use vstd::prelude::*;

verus! {

/// The addresses `start, start + 1, ..., start + size - 1`.
pub open spec fn span(start: int, size: int) -> Set<int> {
    Set::new(|a: int| start <= a < start + size)
}

/// Every address of `[start, start + size)` is in `granted`.
pub open spec fn covers(granted: Set<int>, start: int, size: int) -> bool {
    forall|a: int| start <= a < start + size ==> #[trigger] granted.contains(a)
}

/// No address of `[start, start + size)` is in `granted`.
pub open spec fn fresh(granted: Set<int>, start: int, size: int) -> bool {
    forall|a: int| start <= a < start + size ==> !#[trigger] granted.contains(a)
}

/// The regions `[a, a + a_size)` and `[b, b + b_size)` share no address.
pub open spec fn disjoint(a: int, a_size: int, b: int, b_size: int) -> bool {
    a + a_size <= b || b + b_size <= a
}

/// A region inside what was granted and a region outside it do not overlap.
pub proof fn lemma_covered_fresh_disjoint(
    granted: Set<int>,
    a: int,
    a_size: int,
    b: int,
    b_size: int,
)
    requires
        covers(granted, a, a_size),
        fresh(granted, b, b_size),
        0 < a_size,
        0 < b_size,
    ensures
        disjoint(a, a_size, b, b_size),
{
    if !disjoint(a, a_size, b, b_size) {
        let c = if a <= b {
            b
        } else {
            a
        };
        assert(granted.contains(c));
    }
}

/// A source of contiguous regions of an address space.
///
/// An implementation describes itself by the set of addresses it has handed
/// out so far and by two functions of its state: the address that a request
/// would be answered with, and the state that follows an answered request.
pub trait Allocator: Sized {
    /// The state is one that the implementation can be in.
    spec fn wf(&self) -> bool;

    /// Every region handed out ends at or below this address.
    spec fn limit(&self) -> nat;

    /// The addresses handed out so far.
    spec fn granted(&self) -> Set<int>;

    /// The start of the region that a request for `size` bytes is answered
    /// with, or `None` where the request cannot be met.
    spec fn grant(&self, size: nat) -> Option<usize>;

    /// The state after a request for `size` bytes was met.
    spec fn after_grant(&self, size: nat) -> Self;

    /// A request that is met hands out a region below the limit, none of whose
    /// addresses was handed out before, and records it as handed out.
    proof fn lemma_grant(&self, size: nat)
        requires
            self.wf(),
            self.grant(size) is Some,
        ensures
            self.after_grant(size).wf(),
            self.after_grant(size).limit() == self.limit(),
            self.grant(size)->0 + size <= self.limit(),
            fresh(self.granted(), self.grant(size)->0 as int, size as int),
            self.after_grant(size).granted() == self.granted().union(
                span(self.grant(size)->0 as int, size as int),
            ),
    ;

    /// Requests `size` contiguous bytes. Returns the address of the first, or
    /// `None` and leaves the state as it was where the request cannot be met.
    fn allocate(&mut self, size: usize) -> (region: Option<usize>)
        requires
            old(self).wf(),
        ensures
            region == old(self).grant(size as nat),
            region is Some ==> *final(self) == old(self).after_grant(size as nat),
            region is None ==> *final(self) == *old(self),
    ;
}

/// Hands out the address space `[0, limit)` from the bottom up and never takes
/// anything back.
#[derive(Debug, PartialEq, Eq, Structural)]
pub struct LinearAllocator {
    /// The lowest address not yet handed out.
    pub offset: usize,
    /// One past the highest address that may be handed out.
    pub limit: usize,
}

impl LinearAllocator {
    /// An allocator over `[0, limit)` that has handed out nothing.
    pub fn new(limit: usize) -> (base: LinearAllocator)
        ensures
            base == (LinearAllocator { offset: 0, limit }),
            base.wf(),
    {
        LinearAllocator { offset: 0, limit }
    }
}

impl Allocator for LinearAllocator {
    open spec fn wf(&self) -> bool {
        self.offset <= self.limit
    }

    open spec fn limit(&self) -> nat {
        self.limit as nat
    }

    open spec fn granted(&self) -> Set<int> {
        span(0, self.offset as int)
    }

    open spec fn grant(&self, size: nat) -> Option<usize> {
        if self.offset + size <= self.limit {
            Some(self.offset)
        } else {
            None
        }
    }

    open spec fn after_grant(&self, size: nat) -> Self {
        LinearAllocator { offset: (self.offset + size) as usize, limit: self.limit }
    }

    proof fn lemma_grant(&self, size: nat) {
        assert(self.after_grant(size).granted() =~= self.granted().union(
            span(self.offset as int, size as int),
        ));
    }

    fn allocate(&mut self, size: usize) -> (region: Option<usize>) {
        if size <= self.limit - self.offset {
            let start = self.offset;
            self.offset = start + size;
            Some(start)
        } else {
            None
        }
    }
}

} // verus!
