//! A cache: the objects of one size class and the free lists that hold the
//! idle ones.

use crate::atomics::compare_and_swap;
use crate::class::{object_size_of, CACHE_COUNT, HEADER_SIZE};
use crate::heap::{covers, disjoint, lemma_covered_fresh_disjoint, span, Allocator};
use crate::list::{
    chained, first_link, lemma_chained_kept, lemma_linked_joined, lemma_linked_kept, linked,
    linked_to,
};
use crate::memory::{
    lemma_word_kept, lemma_word_same, same_outside, same_outside_two, same_within, Memory,
    WORD_SIZE,
};
use crate::node::{FreeNode, UsedNode, FREE_NODE_SIZE, NULL};
use crate::slab::{
    carved, lemma_object_at_rises, lemma_object_at_step, lemma_slab_count, object_at, slab_size_of,
    SLAB_MINIMUM_SIZE,
};
use vstd::arithmetic::power2::pow2;
use vstd::prelude::*;

verus! {

/// Number of processors. Every cache keeps one free list for each.
pub const MAX_CPUS: usize = 8;

/// A cache allocates objects of a constant size.
pub struct Cache {
    class: usize,
    object_size: usize,
    partial_lists: Vec<usize>,
    lists: Ghost<Seq<Seq<usize>>>,
}

// What a cache holds, and when it holds it well.
impl Cache {
    /// The size class of the cache, which it writes into the header of every
    /// object it hands out.
    pub closed spec fn class(&self) -> nat {
        self.class as nat
    }

    /// The size in bytes of each object of the cache.
    pub closed spec fn spec_object_size(&self) -> usize {
        self.object_size
    }

    /// The size in bytes of each object of the cache.
    #[verifier::when_used_as_spec(spec_object_size)]
    pub fn object_size(&self) -> (size: usize)
        ensures
            size == self.object_size(),
    {
        self.object_size
    }

    /// The head of the free list of processor `cpu`: what the cache holds in
    /// its array of list heads.
    pub closed spec fn head(&self, cpu: int) -> usize {
        self.partial_lists@[cpu]
    }

    /// The free list of processor `cpu`: the addresses of its nodes, first
    /// node first.
    pub closed spec fn list(&self, cpu: int) -> Seq<usize> {
        self.lists@[cpu]
    }

    /// `j` is a position of the free list of processor `cpu`.
    pub open spec fn has(&self, cpu: int, j: int) -> bool {
        0 <= cpu < MAX_CPUS && 0 <= j < self.list(cpu).len()
    }

    /// The cache has a list head and a list for every processor, and its
    /// object size is the power of two of its class.
    pub closed spec fn shaped(&self) -> bool {
        &&& self.class < CACHE_COUNT
        &&& self.object_size == pow2(self.class as nat)
        &&& self.partial_lists@.len() == MAX_CPUS
        &&& self.lists@.len() == MAX_CPUS
    }

    /// The object at `node` overlaps no node of any free list of the cache.
    pub open spec fn apart_from(&self, node: int) -> bool {
        forall|cpu: int, j: int|
            self.has(cpu, j) ==> disjoint(
                node,
                self.object_size() as int,
                #[trigger] self.list(cpu)[j] as int,
                self.object_size() as int,
            )
    }

    /// Every node of every free list lies inside what `granted` holds.
    pub open spec fn covered(&self, granted: Set<int>) -> bool {
        forall|cpu: int, j: int|
            self.has(cpu, j) ==> covers(
                granted,
                #[trigger] self.list(cpu)[j] as int,
                self.object_size() as int,
            )
    }

    /// No two nodes of the free lists overlap, be they on one list or on two.
    /// So no list holds a node twice, and no node is on two lists.
    #[verifier::opaque]
    pub open spec fn separated(&self) -> bool {
        forall|c1: int, j1: int, c2: int, j2: int|
            self.has(c1, j1) && self.has(c2, j2) && (c1 != c2 || j1 != j2) ==> disjoint(
                #[trigger] self.list(c1)[j1] as int,
                self.object_size() as int,
                #[trigger] self.list(c2)[j2] as int,
                self.object_size() as int,
            )
    }

    /// The free lists are held in `mem` as the cache describes them: each
    /// head is the first node of its list, each list is a chain, every node
    /// is an object inside the memory that is large enough for its links, and
    /// no two nodes overlap.
    pub open spec fn wf(&self, mem: Seq<u8>) -> bool {
        &&& self.shaped()
        &&& forall|cpu: int|
            0 <= cpu < MAX_CPUS ==> #[trigger] self.head(cpu) == first_link(self.list(cpu))
        &&& forall|cpu: int| 0 <= cpu < MAX_CPUS ==> linked(mem, #[trigger] self.list(cpu))
        &&& forall|cpu: int|
            0 <= cpu < MAX_CPUS && (#[trigger] self.list(cpu)).len() > 0 ==> FREE_NODE_SIZE
                <= self.object_size()
        &&& forall|cpu: int, j: int|
            self.has(cpu, j) ==> (#[trigger] self.list(cpu)[j]) + self.object_size() <= mem.len()
        &&& self.separated()
    }
}

// The operations.
impl Cache {
    /// A cache for objects of `2^class` bytes, all of whose free lists are
    /// empty.
    pub fn new(class: usize) -> (cache: Cache)
        requires
            class < CACHE_COUNT,
        ensures
            cache.class() == class,
            cache.object_size() == pow2(class as nat),
            forall|cpu: int|
                0 <= cpu < MAX_CPUS ==> #[trigger] cache.list(cpu) == Seq::<usize>::empty(),
            forall|mem: Seq<u8>| #[trigger] cache.wf(mem),
    {
        let mut partial_lists: Vec<usize> = Vec::new();
        let mut cpu: usize = 0;
        while cpu < MAX_CPUS
            invariant
                cpu <= MAX_CPUS,
                partial_lists@ == Seq::new(cpu as nat, |i: int| NULL),
            decreases MAX_CPUS - cpu,
        {
            partial_lists.push(NULL);
            cpu += 1;
            assert(partial_lists@ =~= Seq::new(cpu as nat, |i: int| NULL));
        }
        let cache = Cache {
            class,
            object_size: object_size_of(class),
            partial_lists,
            lists: Ghost(Seq::new(MAX_CPUS as nat, |i: int| Seq::<usize>::empty())),
        };
        proof {
            reveal(Cache::separated);
        }
        cache
    }

    /// The size of the slab that objects of `object_size` bytes are carved
    /// from.
    #[inline(always)]
    pub fn slab_size(&self, object_size: usize) -> (size: usize)
        ensures
            size == slab_size_of(object_size as nat),
    {
        if object_size >= SLAB_MINIMUM_SIZE {
            object_size
        } else {
            SLAB_MINIMUM_SIZE
        }
    }

    /// Puts the object at `node` at the front of the free list of processor
    /// `cpu_id`.
    ///
    /// Only the links of `node` and the backward link of the former head
    /// change in memory. Where the list was empty the former head is the
    /// null link, which is the address of no byte.
    pub fn free(&mut self, mem: &mut Memory, cpu_id: usize, node: usize)
        requires
            old(self).wf(old(mem)@),
            cpu_id < MAX_CPUS,
            FREE_NODE_SIZE <= old(self).object_size(),
            node + old(self).object_size() <= old(mem)@.len(),
            old(self).apart_from(node as int),
        ensures
            final(self).wf(final(mem)@),
            final(self).class() == old(self).class(),
            final(self).object_size() == old(self).object_size(),
            final(self).list(cpu_id as int) == seq![node] + old(self).list(cpu_id as int),
            forall|cpu: int|
                0 <= cpu < MAX_CPUS && cpu != cpu_id ==> #[trigger] final(self).list(cpu) == old(
                    self,
                ).list(cpu),
            FreeNode::at(final(mem)@, node as int) == (FreeNode {
                next: old(self).head(cpu_id as int),
                prev: NULL,
            }),
            same_outside_two(
                old(mem)@,
                final(mem)@,
                node as int,
                node + FREE_NODE_SIZE,
                old(self).head(cpu_id as int) + WORD_SIZE,
                old(self).head(cpu_id as int) + FREE_NODE_SIZE,
            ),
    {
        let ghost mem0 = mem@;
        let ghost head = self.head(cpu_id as int);
        let ghost list = self.list(cpu_id as int);
        proof {
            mem.lemma_len_bounded();
            assert(head == first_link(list));
            if list.len() > 0 {
                assert(self.has(cpu_id as int, 0));
                assert(head == self.list(cpu_id as int)[0]);
            }
        }
        FreeNode::set_prev(mem, node, NULL);

        // Put the freed node into the partial list. The exchange is retried
        // until it finds the head that was read; the cache is borrowed
        // exclusively here, so it does the first time.
        loop
            invariant_except_break
                *self == *old(self),
                same_outside(mem0, mem@, node as int, node + FREE_NODE_SIZE),
                FreeNode::at(mem@, node as int).prev == NULL,
            invariant
                old(self).wf(mem0),
                cpu_id < MAX_CPUS,
                head == old(self).head(cpu_id as int),
                head != NULL ==> head + old(self).object_size() <= mem0.len() && disjoint(
                    node as int,
                    old(self).object_size() as int,
                    head as int,
                    old(self).object_size() as int,
                ),
                FREE_NODE_SIZE <= old(self).object_size(),
                node + old(self).object_size() <= mem0.len(),
                mem0.len() <= usize::MAX,
                mem@.len() == mem0.len(),
            ensures
                self.class == old(self).class,
                self.object_size == old(self).object_size,
                self.lists == old(self).lists,
                self.partial_lists@ == old(self).partial_lists@.update(cpu_id as int, node),
                FreeNode::at(mem@, node as int) == (FreeNode { next: head, prev: NULL }),
                head != NULL ==> FreeNode::at(mem@, head as int) == (FreeNode {
                    next: FreeNode::at(mem0, head as int).next,
                    prev: node,
                }),
                same_outside_two(
                    mem0,
                    mem@,
                    node as int,
                    node + FREE_NODE_SIZE,
                    head + WORD_SIZE,
                    head + FREE_NODE_SIZE,
                ),
            decreases 0nat,
        {
            let partial_ptr = self.partial_lists[cpu_id];
            FreeNode::set_next(mem, node, partial_ptr);

            if compare_and_swap(&mut self.partial_lists[cpu_id], partial_ptr, node) == partial_ptr {
                if partial_ptr != NULL {
                    let ghost mem2 = mem@;
                    proof {
                        lemma_word_kept(
                            mem0,
                            mem2,
                            node as int,
                            node + FREE_NODE_SIZE,
                            0,
                            0,
                            head as int,
                        );
                    }
                    FreeNode::set_prev(mem, partial_ptr, node);
                    proof {
                        lemma_word_kept(
                            mem2,
                            mem@,
                            head + WORD_SIZE,
                            head + FREE_NODE_SIZE,
                            0,
                            0,
                            node as int,
                        );
                        lemma_word_kept(
                            mem2,
                            mem@,
                            head + WORD_SIZE,
                            head + FREE_NODE_SIZE,
                            0,
                            0,
                            node + WORD_SIZE,
                        );
                    }
                }
                break ;
            }
        }
        proof {
            self.lists@ = self.lists@.update(cpu_id as int, seq![node] + list);
            let chain = seq![node];
            assert(chain[0] == node && chain.last() == node);
            old(self).lemma_spliced(
                mem0,
                mem@,
                *self,
                cpu_id as int,
                chain,
                node as int,
                node + old(self).object_size(),
            );
        }
    }

    /// Slabs are never handed back to where they came from: this does
    /// nothing.
    pub fn free_slab(&self, _slab: usize) {
    }

    /// Takes an object from the free list of processor `cpu_id`, or, where
    /// that list is empty, carves a new slab and takes its first object.
    /// Writes the cache's class into the object's header and returns the
    /// object's address; returns `None`, with nothing changed, where the list
    /// is empty and `base` has no slab to give.
    ///
    /// `object_size` is the cache's own object size, handed in so that it can
    /// be a constant at the call.
    #[inline(always)]
    pub fn allocate<Base: Allocator>(
        &mut self,
        base: &mut Base,
        mem: &mut Memory,
        cpu_id: usize,
        object_size: usize,
    ) -> (node: Option<usize>)
        requires
            old(self).wf(old(mem)@),
            old(self).covered(old(base).granted()),
            old(base).wf(),
            old(base).limit() <= old(mem)@.len(),
            cpu_id < MAX_CPUS,
            object_size == old(self).object_size(),
            FREE_NODE_SIZE <= object_size,
        ensures
            final(self).wf(final(mem)@),
            final(self).covered(final(base).granted()),
            final(self).class() == old(self).class(),
            final(self).object_size() == old(self).object_size(),
            forall|cpu: int|
                0 <= cpu < MAX_CPUS && cpu != cpu_id ==> #[trigger] final(self).list(cpu) == old(
                    self,
                ).list(cpu),
            old(self).list(cpu_id as int).len() > 0 ==> {
                &&& node == Some(old(self).list(cpu_id as int)[0])
                &&& final(self).list(cpu_id as int) == old(self).list(cpu_id as int).drop_first()
                &&& *final(base) == *old(base)
                &&& same_outside(old(mem)@, final(mem)@, node->0 as int, node->0 + HEADER_SIZE)
            },
            old(self).list(cpu_id as int).len() == 0 ==> {
                &&& node == old(base).grant(slab_size_of(object_size as nat))
                &&& node is Some ==> {
                    &&& *final(base) == old(base).after_grant(slab_size_of(object_size as nat))
                    &&& final(self).list(cpu_id as int) == carved(
                        node->0 as int,
                        object_size as int,
                        slab_size_of(object_size as nat) as int,
                    )
                    &&& same_outside(
                        old(mem)@,
                        final(mem)@,
                        node->0 as int,
                        node->0 + slab_size_of(object_size as nat),
                    )
                    &&& final(self).list(cpu_id as int).len() > 0 ==> FreeNode::at(
                        final(mem)@,
                        final(self).list(cpu_id as int)[0] as int,
                    ).prev == NULL
                }
            },
            node is None ==> *final(self) == *old(self) && final(mem)@ == old(mem)@ && *final(base)
                == *old(base),
            node is Some ==> {
                &&& UsedNode::at(final(mem)@, node->0 as int).cache == old(self).class()
                &&& node->0 + object_size <= final(mem)@.len()
                &&& covers(final(base).granted(), node->0 as int, object_size as int)
                &&& final(self).apart_from(node->0 as int)
            },
    {
        let ghost mem0 = mem@;
        let ghost list = self.list(cpu_id as int);
        proof {
            mem.lemma_len_bounded();
            assert(self.head(cpu_id as int) == first_link(list));
            if list.len() > 0 {
                assert(self.has(cpu_id as int, 0));
                assert(list[0] == self.list(cpu_id as int)[0]);
            }
        }
        let mut node: usize;

        // Take a free node from the partial list. The exchange is retried
        // until it finds the head that was read; the cache is borrowed
        // exclusively here, so it does the first time.
        loop
            invariant_except_break
                *self == *old(self),
                *base == *old(base),
                mem@ == mem0,
            invariant
                mem0 == old(mem)@,
                old(self).wf(mem0),
                old(self).covered(old(base).granted()),
                old(base).wf(),
                old(base).limit() <= mem0.len() <= usize::MAX,
                cpu_id < MAX_CPUS,
                object_size == old(self).object_size(),
                FREE_NODE_SIZE <= object_size,
                list == old(self).list(cpu_id as int),
                old(self).head(cpu_id as int) == first_link(list),
                list.len() > 0 ==> old(self).has(cpu_id as int, 0) && list[0] + object_size
                    <= mem0.len(),
            ensures
                list.len() > 0 ==> {
                    &&& node == list[0]
                    &&& self.class == old(self).class
                    &&& self.object_size == old(self).object_size
                    &&& self.lists == old(self).lists
                    &&& self.partial_lists@ == old(self).partial_lists@.update(
                        cpu_id as int,
                        FreeNode::at(mem0, node as int).next,
                    )
                    &&& *base == *old(base)
                    &&& mem@ == mem0
                },
                list.len() == 0 ==> {
                    &&& Some(node) == old(base).grant(slab_size_of(object_size as nat))
                    &&& *base == old(base).after_grant(slab_size_of(object_size as nat))
                    &&& self.wf(mem@)
                    &&& self.covered(base.granted())
                    &&& self.class() == old(self).class()
                    &&& self.object_size() == old(self).object_size()
                    &&& forall|cpu: int|
                        0 <= cpu < MAX_CPUS && cpu != cpu_id ==> #[trigger] self.list(cpu) == old(
                            self,
                        ).list(cpu)
                    &&& self.list(cpu_id as int) == carved(
                        node as int,
                        object_size as int,
                        slab_size_of(object_size as nat) as int,
                    )
                    &&& same_outside(
                        mem0,
                        mem@,
                        node + object_size,
                        node + slab_size_of(object_size as nat),
                    )
                    &&& self.list(cpu_id as int).len() > 0 ==> FreeNode::at(
                        mem@,
                        self.list(cpu_id as int)[0] as int,
                    ).prev == NULL
                    &&& node + slab_size_of(object_size as nat) <= mem0.len()
                    &&& covers(
                        base.granted(),
                        node as int,
                        slab_size_of(object_size as nat) as int,
                    )
                    &&& self.apart_from(node as int)
                },
            decreases 0nat,
        {
            node = self.partial_lists[cpu_id];

            if node == NULL {
                node =
                match self.alloc_slab(base, mem, cpu_id, object_size) {
                    Some(slab) => slab,
                    None => {
                        return None;
                    },
                };
                proof {
                    assert(list =~= Seq::<usize>::empty());
                    let fresh_nodes = carved(
                        node as int,
                        object_size as int,
                        slab_size_of(object_size as nat) as int,
                    );
                    assert(fresh_nodes + list =~= fresh_nodes);
                    if self.list(cpu_id as int).len() > 0 {
                        assert(self.has(cpu_id as int, 0));
                        assert(self.head(cpu_id as int) == first_link(self.list(cpu_id as int)));
                        assert(self.head(cpu_id as int) == self.list(cpu_id as int)[0]);
                    }
                }
                break ;
            }
            let next = FreeNode::load(mem, node).next;
            if compare_and_swap(&mut self.partial_lists[cpu_id], node, next) == node {
                break ;
            }
        }
        proof {
            if list.len() > 0 {
                self.lists@ = self.lists@.update(cpu_id as int, list.drop_first());
                old(self).lemma_popped(mem0, *self, cpu_id as int);
                assert(old(self).has(cpu_id as int, 0));
            } else {
                assert(slab_size_of(object_size as nat) >= object_size);
            }
        }
        let ghost mem1 = mem@;

        UsedNode::store(mem, node, UsedNode { cache: self.class });
        proof {
            self.lemma_wf_kept(mem1, mem@, node as int, node + HEADER_SIZE, 0, 0);
            if self.list(cpu_id as int).len() > 0 {
                let head = self.list(cpu_id as int)[0];
                assert(self.has(cpu_id as int, 0));
                lemma_word_kept(
                    mem1,
                    mem@,
                    node as int,
                    node + HEADER_SIZE,
                    0,
                    0,
                    head + WORD_SIZE,
                );
            }
        }
        Some(node)
    }

    /// Requests a slab from `base` and carves it into objects. All objects
    /// but the first are linked together and put in front of the free list of
    /// processor `cpu_id`; the first is returned for immediate use. Returns
    /// `None`, with nothing changed, where `base` has no slab to give.
    ///
    /// Only the links of the new nodes and the backward link of the former
    /// head change in memory, and nothing does where the slab holds one
    /// object only. The first of the new nodes has no node before it.
    pub fn alloc_slab<Base: Allocator>(
        &mut self,
        base: &mut Base,
        mem: &mut Memory,
        cpu_id: usize,
        object_size: usize,
    ) -> (slab: Option<usize>)
        requires
            old(self).wf(old(mem)@),
            old(self).covered(old(base).granted()),
            old(base).wf(),
            old(base).limit() <= old(mem)@.len(),
            cpu_id < MAX_CPUS,
            object_size == old(self).object_size(),
            FREE_NODE_SIZE <= object_size,
        ensures
            final(self).wf(final(mem)@),
            final(self).covered(final(base).granted()),
            final(self).class() == old(self).class(),
            final(self).object_size() == old(self).object_size(),
            forall|cpu: int|
                0 <= cpu < MAX_CPUS && cpu != cpu_id ==> #[trigger] final(self).list(cpu) == old(
                    self,
                ).list(cpu),
            slab == old(base).grant(slab_size_of(object_size as nat)),
            slab is None ==> *final(self) == *old(self) && final(mem)@ == old(mem)@ && *final(base)
                == *old(base),
            slab is Some ==> {
                &&& *final(base) == old(base).after_grant(slab_size_of(object_size as nat))
                &&& final(self).list(cpu_id as int) == carved(
                    slab->0 as int,
                    object_size as int,
                    slab_size_of(object_size as nat) as int,
                ) + old(self).list(cpu_id as int)
                &&& same_outside_two(
                    old(mem)@,
                    final(mem)@,
                    slab->0 + object_size,
                    slab->0 + slab_size_of(object_size as nat),
                    old(self).head(cpu_id as int) + WORD_SIZE,
                    old(self).head(cpu_id as int) + FREE_NODE_SIZE,
                )
                &&& carved(
                    slab->0 as int,
                    object_size as int,
                    slab_size_of(object_size as nat) as int,
                ).len() == 0 ==> final(mem)@ == old(mem)@
                &&& final(self).head(cpu_id as int) != old(self).head(cpu_id as int)
                    ==> FreeNode::at(final(mem)@, final(self).head(cpu_id as int) as int).prev
                    == NULL
                &&& slab->0 + slab_size_of(object_size as nat) <= final(base).limit()
                &&& final(base).limit() == old(base).limit()
                &&& covers(
                    final(base).granted(),
                    slab->0 as int,
                    slab_size_of(object_size as nat) as int,
                )
                &&& final(self).apart_from(slab->0 as int)
            },
    {
        let slab_size = self.slab_size(object_size);

        let slab = match base.allocate(slab_size) {
            Some(slab) => slab,
            None => {
                return None;
            },
        };
        let ghost mem0 = mem@;
        let ghost head = self.head(cpu_id as int);
        let ghost list = self.list(cpu_id as int);
        let ghost count = lemma_slab_count(self.class());
        proof {
            mem.lemma_len_bounded();
            old(base).lemma_grant(slab_size as nat);
            assert(head == first_link(list));
            if list.len() > 0 {
                assert(self.has(cpu_id as int, 0));
                assert(head == self.list(cpu_id as int)[0]);
            }
            lemma_object_at_step(slab as int, object_size as int, count);
            assert(object_at(slab as int, object_size as int, count) == slab + slab_size) by {
                reveal(object_at);
            }
            assert forall|cpu: int, j: int| self.has(cpu, j) implies disjoint(
                #[trigger] self.list(cpu)[j] as int,
                object_size as int,
                slab as int,
                slab_size as int,
            ) by {
                lemma_covered_fresh_disjoint(
                    old(base).granted(),
                    self.list(cpu)[j] as int,
                    object_size as int,
                    slab as int,
                    slab_size as int,
                );
            }
        }

        // All objects in the slab are free: make a node of each (except the
        // first) and link them together.
        let mut first = NULL;
        let mut last = first;
        let ghost mut chain: Seq<usize> = Seq::empty();

        let slab_end = slab + slab_size;
        let mut p = slab + object_size;
        while p < slab_end
            invariant
                FREE_NODE_SIZE <= object_size,
                slab_end == slab + slab_size,
                slab_end <= mem0.len() <= usize::MAX,
                mem@.len() == mem0.len(),
                1 <= count,
                object_at(slab as int, object_size as int, count) == slab_end,
                chain.len() + 1 <= count,
                p == object_at(slab as int, object_size as int, chain.len() as int + 1),
                slab + object_size <= p <= slab_end,
                first == first_link(chain),
                last == (if chain.len() > 0 {
                    chain.last()
                } else {
                    NULL
                }),
                forall|j: int|
                    0 <= j < chain.len() ==> {
                        &&& (#[trigger] chain[j]) == object_at(
                            slab as int,
                            object_size as int,
                            j + 1,
                        )
                        &&& slab + object_size <= chain[j]
                        &&& chain[j] + object_size <= p
                    },
                forall|i: int, j: int|
                    0 <= i < j < chain.len() ==> (#[trigger] chain[i]) + object_size
                        <= #[trigger] chain[j],
                chained(mem@, chain),
                chain.len() > 0 ==> FreeNode::at(mem@, chain[0] as int).prev == NULL,
                same_outside(mem0, mem@, slab + object_size, p as int),
            decreases slab_end - p,
        {
            let node = p;
            let ghost n = chain.len() as int;
            let ghost mem1 = mem@;
            proof {
                lemma_object_at_step(slab as int, object_size as int, n + 1);
                lemma_object_at_rises(slab as int, object_size as int, n + 2, count);
            }

            if first == NULL {
                first = node;
            } else {
                FreeNode::set_next(mem, last, node);
            }
            let ghost mem2 = mem@;

            FreeNode::set_prev(mem, node, last);
            last = node;

            p += object_size;
            proof {
                let grown = chain.push(node);
                assert forall|i: int, j: int| 0 <= i && j == i + 1 && j < grown.len() implies {
                    &&& FreeNode::at(mem@, #[trigger] grown[i] as int).next == #[trigger] grown[j]
                    &&& FreeNode::at(mem@, grown[j] as int).prev == grown[i]
                } by {
                    let l = chain[n - 1];
                    if j < n {
                        let a = chain[i];
                        let b = chain[j];
                        assert(grown[i] == a && grown[j] == b);
                        lemma_word_kept(mem1, mem2, l as int, l + WORD_SIZE, 0, 0, a as int);
                        lemma_word_kept(
                            mem2,
                            mem@,
                            node + WORD_SIZE,
                            node + FREE_NODE_SIZE,
                            0,
                            0,
                            a as int,
                        );
                        lemma_word_kept(mem1, mem2, l as int, l + WORD_SIZE, 0, 0, b + WORD_SIZE);
                        lemma_word_kept(
                            mem2,
                            mem@,
                            node + WORD_SIZE,
                            node + FREE_NODE_SIZE,
                            0,
                            0,
                            b + WORD_SIZE,
                        );
                    } else {
                        assert(grown[i] == l && grown[j] == node);
                        lemma_word_kept(
                            mem2,
                            mem@,
                            node + WORD_SIZE,
                            node + FREE_NODE_SIZE,
                            0,
                            0,
                            l as int,
                        );
                    }
                }
                if n > 0 {
                    let l = chain[n - 1];
                    let a = chain[0];
                    assert(grown[0] == a);
                    lemma_word_kept(mem1, mem2, l as int, l + WORD_SIZE, 0, 0, a + WORD_SIZE);
                    lemma_word_kept(
                        mem2,
                        mem@,
                        node + WORD_SIZE,
                        node + FREE_NODE_SIZE,
                        0,
                        0,
                        a + WORD_SIZE,
                    );
                }
                chain = grown;
            }
        }

        // Link this slab in as the first in the partial list.
        if first != NULL {
            let ghost mem3 = mem@;
            FreeNode::set_next(mem, last, NULL);
            let ghost mem4 = mem@;

            // We now need to do two atomic updates. As in `free`, the
            // exchange finds the head that was read the first time.
            loop
                invariant_except_break
                    *self == *old(self),
                    same_outside(mem3, mem@, last as int, last + WORD_SIZE),
                invariant
                    cpu_id < MAX_CPUS,
                    old(self).wf(mem0),
                    head == old(self).head(cpu_id as int),
                    chain.len() > 0,
                    last == chain.last(),
                    first == chain[0],
                    last + FREE_NODE_SIZE <= slab_end <= mem0.len() <= usize::MAX,
                    slab + object_size <= last,
                    head != NULL ==> head + FREE_NODE_SIZE <= mem0.len() && disjoint(
                        head as int,
                        FREE_NODE_SIZE as int,
                        slab as int,
                        slab_size as int,
                    ),
                    slab_end == slab + slab_size,
                    mem@.len() == mem0.len(),
                    mem3.len() == mem0.len(),
                    same_outside(mem0, mem3, slab + object_size, slab_end as int),
                    FREE_NODE_SIZE <= object_size,
                    slab + object_size <= first,
                    first + object_size <= last || first == last,
                    FreeNode::at(mem3, first as int).prev == NULL,
                ensures
                    self.class == old(self).class,
                    self.object_size == old(self).object_size,
                    self.lists == old(self).lists,
                    self.partial_lists@ == old(self).partial_lists@.update(cpu_id as int, first),
                    FreeNode::at(mem@, first as int).prev == NULL,
                    FreeNode::at(mem@, last as int).next == head,
                    head != NULL ==> FreeNode::at(mem@, head as int) == (FreeNode {
                        next: FreeNode::at(mem0, head as int).next,
                        prev: last,
                    }),
                    same_outside_two(
                        mem3,
                        mem@,
                        last as int,
                        last + WORD_SIZE,
                        head + WORD_SIZE,
                        head + FREE_NODE_SIZE,
                    ),
                decreases 0nat,
            {
                let partial_ptr = self.partial_lists[cpu_id];
                FreeNode::set_next(mem, last, partial_ptr);
                if compare_and_swap(&mut self.partial_lists[cpu_id], partial_ptr, first)
                    == partial_ptr {
                    if partial_ptr != NULL {
                        let ghost mem5 = mem@;
                        proof {
                            lemma_word_kept(
                                mem0,
                                mem3,
                                slab + object_size,
                                slab_end as int,
                                0,
                                0,
                                head as int,
                            );
                            lemma_word_kept(
                                mem3,
                                mem5,
                                last as int,
                                last + WORD_SIZE,
                                0,
                                0,
                                head as int,
                            );
                        }
                        FreeNode::set_prev(mem, partial_ptr, last);
                        proof {
                            lemma_word_kept(
                                mem5,
                                mem@,
                                head + WORD_SIZE,
                                head + FREE_NODE_SIZE,
                                0,
                                0,
                                last as int,
                            );
                            lemma_word_kept(
                                mem5,
                                mem@,
                                head + WORD_SIZE,
                                head + FREE_NODE_SIZE,
                                0,
                                0,
                                first + WORD_SIZE,
                            );
                        }
                    }
                    proof {
                        lemma_word_kept(
                            mem3,
                            mem@,
                            last as int,
                            last + WORD_SIZE,
                            head + WORD_SIZE,
                            head + FREE_NODE_SIZE,
                            first + WORD_SIZE,
                        );
                    }
                    break ;
                }
            }
            proof {
                self.lists@ = self.lists@.update(cpu_id as int, chain + list);
                lemma_chained_kept(
                    mem3,
                    mem@,
                    chain,
                    last as int,
                    last + WORD_SIZE,
                    head + WORD_SIZE,
                    head + FREE_NODE_SIZE,
                );
                old(self).lemma_spliced(
                    mem0,
                    mem@,
                    *self,
                    cpu_id as int,
                    chain,
                    slab + object_size,
                    slab_end as int,
                );
            }
        }
        proof {
            if chain.len() == 0 {
                assert(mem@ =~= mem0);
            }
            let fresh_nodes = carved(slab as int, object_size as int, slab_size as int);
            if chain.len() + 1 < count {
                lemma_object_at_rises(
                    slab as int,
                    object_size as int,
                    chain.len() as int + 2,
                    count,
                );
                lemma_object_at_step(slab as int, object_size as int, chain.len() as int + 1);
            }
            assert(chain =~= fresh_nodes);
            if chain.len() == 0 {
                assert(fresh_nodes + list =~= list);
            }
            old(self).lemma_covered_after(
                *self,
                cpu_id as int,
                chain,
                old(base).granted(),
                base.granted(),
                slab as int,
                slab_size as int,
            );
        }
        Some(slab)
    }

    /// The nodes of the free list of processor `cpu_id`, first node first,
    /// as found by following the links in memory from the list's head.
    pub fn free_nodes(&self, mem: &Memory, cpu_id: usize) -> (nodes: Vec<usize>)
        requires
            self.wf(mem@),
            cpu_id < MAX_CPUS,
        ensures
            nodes@ == self.list(cpu_id as int),
    {
        let ghost list = self.list(cpu_id as int);
        let mut nodes: Vec<usize> = Vec::new();
        let mut node = self.partial_lists[cpu_id];
        proof {
            mem.lemma_len_bounded();
            assert(self.head(cpu_id as int) == first_link(list));
        }
        while node != NULL
            invariant
                self.wf(mem@),
                cpu_id < MAX_CPUS,
                list == self.list(cpu_id as int),
                mem@.len() <= usize::MAX,
                nodes@.len() <= list.len(),
                nodes@ == list.take(nodes@.len() as int),
                node == (if nodes@.len() < list.len() {
                    list[nodes@.len() as int]
                } else {
                    NULL
                }),
            decreases list.len() - nodes@.len(),
        {
            let ghost k = nodes@.len() as int;
            proof {
                assert(self.has(cpu_id as int, k));
                assert(node == self.list(cpu_id as int)[k]);
                if k + 1 < list.len() {
                    assert(FreeNode::at(mem@, list[k] as int).next == list[k + 1]);
                } else {
                    assert(list.last() == list[k]);
                }
            }
            nodes.push(node);
            node = FreeNode::load(mem, node).next;
            proof {
                assert(nodes@ =~= list.take(k + 1));
            }
        }
        proof {
            if nodes@.len() < list.len() {
                let k = nodes@.len() as int;
                assert(self.has(cpu_id as int, k));
                assert(list[k] == self.list(cpu_id as int)[k]);
            }
            assert(list.take(list.len() as int) =~= list);
        }
        nodes
    }
}

// Why the operations keep the free lists well held.
impl Cache {
    /// The object size of a cache is the power of two of its class, and its
    /// class is one of the size classes.
    pub proof fn lemma_object_size(&self)
        requires
            self.shaped(),
        ensures
            self.class() < CACHE_COUNT,
            self.object_size() == pow2(self.class()),
    {
    }

    /// The free lists are held in any memory of the same size that agrees
    /// with this one on the bytes of every node.
    pub proof fn lemma_wf_same(&self, pre: Seq<u8>, post: Seq<u8>)
        requires
            self.wf(pre),
            post.len() == pre.len(),
            forall|cpu: int, j: int|
                self.has(cpu, j) ==> same_within(
                    pre,
                    post,
                    #[trigger] self.list(cpu)[j] as int,
                    self.list(cpu)[j] + self.object_size(),
                ),
        ensures
            self.wf(post),
    {
        assert forall|cpu: int| 0 <= cpu < MAX_CPUS implies linked(
            post,
            #[trigger] self.list(cpu),
        ) by {
            let list = self.list(cpu);
            assert(linked(pre, list));
            assert forall|j: int| 0 <= j < list.len() implies FreeNode::at(
                post,
                #[trigger] list[j] as int,
            ) == FreeNode::at(pre, list[j] as int) by {
                assert(self.has(cpu, j));
                let a = self.list(cpu)[j] as int;
                lemma_word_same(pre, post, a);
                lemma_word_same(pre, post, a + WORD_SIZE);
            }
            assert forall|i: int, j: int| 0 <= i && j == i + 1 && j < list.len() implies {
                &&& FreeNode::at(post, #[trigger] list[i] as int).next == #[trigger] list[j]
                &&& FreeNode::at(post, list[j] as int).prev == list[i]
            } by {
                assert(FreeNode::at(pre, list[i] as int).next == list[j]);
            }
        }
    }

    /// The free lists stay as they are where the bytes of their nodes are
    /// left alone.
    pub proof fn lemma_wf_kept(
        &self,
        pre: Seq<u8>,
        post: Seq<u8>,
        lo1: int,
        hi1: int,
        lo2: int,
        hi2: int,
    )
        requires
            self.wf(pre),
            same_outside_two(pre, post, lo1, hi1, lo2, hi2),
            forall|cpu: int, j: int|
                self.has(cpu, j) ==> {
                    &&& disjoint(
                        #[trigger] self.list(cpu)[j] as int,
                        self.object_size() as int,
                        lo1,
                        hi1 - lo1,
                    )
                    &&& disjoint(
                        self.list(cpu)[j] as int,
                        self.object_size() as int,
                        lo2,
                        hi2 - lo2,
                    )
                },
        ensures
            self.wf(post),
    {
        assert forall|cpu: int| 0 <= cpu < MAX_CPUS implies linked(
            post,
            #[trigger] self.list(cpu),
        ) by {
            let list = self.list(cpu);
            assert forall|j: int| 0 <= j < list.len() implies {
                &&& (#[trigger] list[j]) + FREE_NODE_SIZE <= pre.len()
                &&& disjoint(list[j] as int, FREE_NODE_SIZE as int, lo1, hi1 - lo1)
                &&& disjoint(list[j] as int, FREE_NODE_SIZE as int, lo2, hi2 - lo2)
            } by {
                assert(self.has(cpu, j));
                let a = self.list(cpu)[j];
            }
            lemma_linked_kept(pre, post, list, NULL, lo1, hi1, lo2, hi2);
        }
    }

    /// Taking the first node off a list leaves free lists that are held in
    /// memory and that the node taken does not overlap.
    proof fn lemma_popped(&self, mem: Seq<u8>, after: Cache, cpu_id: int)
        requires
            self.wf(mem),
            0 <= cpu_id < MAX_CPUS,
            self.list(cpu_id).len() > 0,
            after.class == self.class,
            after.object_size == self.object_size,
            after.partial_lists@ == self.partial_lists@.update(
                cpu_id,
                FreeNode::at(mem, self.list(cpu_id)[0] as int).next,
            ),
            after.lists@ == self.lists@.update(cpu_id, self.list(cpu_id).drop_first()),
        ensures
            after.wf(mem),
            after.apart_from(self.list(cpu_id)[0] as int),
            forall|granted: Set<int>| self.covered(granted) ==> #[trigger] after.covered(granted),
    {
        reveal(Cache::separated);
        let old_list = self.list(cpu_id);
        let new_list = after.list(cpu_id);
        assert(new_list == old_list.drop_first());
        assert forall|cpu: int| 0 <= cpu < MAX_CPUS implies #[trigger] after.head(cpu)
            == first_link(after.list(cpu)) by {
            assert(self.head(cpu) == first_link(self.list(cpu)));
            assert(linked(mem, self.list(cpu)));
            if cpu == cpu_id {
                if old_list.len() > 1 {
                    assert(FreeNode::at(mem, old_list[0] as int).next == old_list[1]);
                    assert(new_list[0] == old_list[1]);
                } else {
                    assert(old_list.last() == old_list[0]);
                }
            }
        }
        assert forall|cpu: int| 0 <= cpu < MAX_CPUS implies linked(
            mem,
            #[trigger] after.list(cpu),
        ) by {
            assert(linked(mem, self.list(cpu)));
            if cpu == cpu_id {
                assert forall|i: int, j: int|
                    0 <= i && j == i + 1 && j < new_list.len() implies {
                    &&& FreeNode::at(mem, #[trigger] new_list[i] as int).next
                        == #[trigger] new_list[j]
                    &&& FreeNode::at(mem, new_list[j] as int).prev == new_list[i]
                } by {
                    assert(new_list[i] == old_list[i + 1] && new_list[j] == old_list[j + 1]);
                }
                if new_list.len() > 0 {
                    assert(new_list.last() == old_list.last());
                }
            }
        }
        assert forall|cpu: int, j: int| after.has(cpu, j) implies (#[trigger] after.list(cpu)[j])
            + after.object_size() <= mem.len() by {
            if cpu == cpu_id {
                assert(self.has(cpu_id, j + 1));
                assert(after.list(cpu)[j] == self.list(cpu_id)[j + 1]);
            } else {
                assert(self.has(cpu, j));
            }
        }
        assert forall|cpu: int|
            0 <= cpu < MAX_CPUS && (#[trigger] after.list(cpu)).len() > 0 implies FREE_NODE_SIZE
            <= after.object_size() by {
            assert(self.list(cpu).len() > 0);
        }
        assert forall|c1: int, j1: int, c2: int, j2: int|
            after.has(c1, j1) && after.has(c2, j2) && (c1 != c2 || j1 != j2) implies disjoint(
            #[trigger] after.list(c1)[j1] as int,
            self.object_size() as int,
            #[trigger] after.list(c2)[j2] as int,
            self.object_size() as int,
        ) by {
            let k1 = if c1 == cpu_id {
                j1 + 1
            } else {
                j1
            };
            let k2 = if c2 == cpu_id {
                j2 + 1
            } else {
                j2
            };
            assert(self.has(c1, k1) && self.has(c2, k2));
            assert(after.list(c1)[j1] == self.list(c1)[k1]);
            assert(after.list(c2)[j2] == self.list(c2)[k2]);
        }
        assert forall|cpu: int, j: int| after.has(cpu, j) implies disjoint(
            self.list(cpu_id)[0] as int,
            after.object_size() as int,
            #[trigger] after.list(cpu)[j] as int,
            after.object_size() as int,
        ) by {
            let k = if cpu == cpu_id {
                j + 1
            } else {
                j
            };
            assert(self.has(cpu, k) && self.has(cpu_id, 0));
            assert(after.list(cpu)[j] == self.list(cpu)[k]);
        }
        assert forall|granted: Set<int>| self.covered(granted) implies #[trigger] after.covered(
            granted,
        ) by {
            assert forall|cpu: int, j: int| after.has(cpu, j) implies covers(
                granted,
                #[trigger] after.list(cpu)[j] as int,
                after.object_size() as int,
            ) by {
                let k = if cpu == cpu_id {
                    j + 1
                } else {
                    j
                };
                assert(self.has(cpu, k));
                assert(after.list(cpu)[j] == self.list(cpu)[k]);
            }
        }
    }

    /// Putting a chain of new nodes that overlap none of the cache in front
    /// of one of its lists, with the links written as the splice writes them,
    /// gives free lists that are held in memory again.
    proof fn lemma_spliced(
        &self,
        pre: Seq<u8>,
        post: Seq<u8>,
        after: Cache,
        cpu_id: int,
        chain: Seq<usize>,
        lo: int,
        hi: int,
    )
        requires
            self.wf(pre),
            0 <= cpu_id < MAX_CPUS,
            FREE_NODE_SIZE <= self.object_size(),
            pre.len() <= usize::MAX,
            chain.len() > 0,
            0 <= lo,
            hi <= pre.len(),
            forall|j: int|
                0 <= j < chain.len() ==> lo <= #[trigger] chain[j] && chain[j]
                    + self.object_size() <= hi,
            forall|i: int, j: int|
                0 <= i < j < chain.len() ==> (#[trigger] chain[i]) + self.object_size()
                    <= #[trigger] chain[j],
            forall|cpu: int, j: int|
                self.has(cpu, j) ==> disjoint(
                    #[trigger] self.list(cpu)[j] as int,
                    self.object_size() as int,
                    lo,
                    hi - lo,
                ),
            after.class == self.class,
            after.object_size == self.object_size,
            after.partial_lists@ == self.partial_lists@.update(cpu_id, chain[0]),
            after.lists@ == self.lists@.update(cpu_id, chain + self.list(cpu_id)),
            linked_to(post, chain, self.head(cpu_id)),
            self.head(cpu_id) != NULL ==> FreeNode::at(post, self.head(cpu_id) as int)
                == (FreeNode {
                next: FreeNode::at(pre, self.head(cpu_id) as int).next,
                prev: chain.last(),
            }),
            same_outside_two(
                pre,
                post,
                lo,
                hi,
                self.head(cpu_id) as int,
                self.head(cpu_id) + FREE_NODE_SIZE,
            ),
        ensures
            after.wf(post),
    {
        reveal(Cache::separated);
        let head = self.head(cpu_id);
        let old_list = self.list(cpu_id);
        let new_list = after.list(cpu_id);
        let n = chain.len() as int;
        assert(new_list == chain + old_list);
        assert(head == first_link(old_list));
        if old_list.len() > 0 {
            assert(self.has(cpu_id, 0));
            assert(head == self.list(cpu_id)[0]);
        }
        assert forall|cpu: int| 0 <= cpu < MAX_CPUS implies #[trigger] after.head(cpu)
            == first_link(after.list(cpu)) by {
            assert(self.head(cpu) == first_link(self.list(cpu)));
        }
        assert forall|cpu: int| 0 <= cpu < MAX_CPUS implies linked(
            post,
            #[trigger] after.list(cpu),
        ) by {
            let other = self.list(cpu);
            assert(linked(pre, other));
            if cpu == cpu_id {
                // The old list is a chain still: only the backward link of
                // its first node was written.
                assert forall|i: int, j: int|
                    0 <= i && j == i + 1 && j < old_list.len() implies {
                    &&& FreeNode::at(post, #[trigger] old_list[i] as int).next
                        == #[trigger] old_list[j]
                    &&& FreeNode::at(post, old_list[j] as int).prev == old_list[i]
                } by {
                    let a = old_list[i];
                    let b = old_list[j];
                    assert(self.has(cpu_id, i) && self.has(cpu_id, j));
                    assert(a == self.list(cpu_id)[i] && b == self.list(cpu_id)[j]);
                    assert(FreeNode::at(pre, a as int).next == b);
                    if i > 0 {
                        lemma_word_kept(
                            pre,
                            post,
                            lo,
                            hi,
                            head as int,
                            head + FREE_NODE_SIZE,
                            a as int,
                        );
                    }
                    lemma_word_kept(
                        pre,
                        post,
                        lo,
                        hi,
                        head as int,
                        head + FREE_NODE_SIZE,
                        b + WORD_SIZE,
                    );
                }
                if old_list.len() > 0 {
                    let z = old_list.last();
                    let k = old_list.len() - 1;
                    assert(self.has(cpu_id, k));
                    assert(z == self.list(cpu_id)[k]);
                    if k > 0 {
                        lemma_word_kept(
                            pre,
                            post,
                            lo,
                            hi,
                            head as int,
                            head + FREE_NODE_SIZE,
                            z as int,
                        );
                    }
                }
                lemma_linked_joined(post, chain, old_list);
            } else {
                assert(after.list(cpu) == other);
                assert forall|j: int| 0 <= j < other.len() implies {
                    &&& (#[trigger] other[j]) + FREE_NODE_SIZE <= pre.len()
                    &&& disjoint(other[j] as int, FREE_NODE_SIZE as int, lo, hi - lo)
                    &&& disjoint(
                        other[j] as int,
                        FREE_NODE_SIZE as int,
                        head as int,
                        FREE_NODE_SIZE as int,
                    )
                } by {
                    assert(self.has(cpu, j));
                    assert(other[j] == self.list(cpu)[j]);
                }
                lemma_linked_kept(
                    pre,
                    post,
                    other,
                    NULL,
                    lo,
                    hi,
                    head as int,
                    head + FREE_NODE_SIZE,
                );
            }
        }
        assert forall|cpu: int, j: int| after.has(cpu, j) implies (#[trigger] after.list(cpu)[j])
            + after.object_size() <= post.len() by {
            if cpu == cpu_id && j >= n {
                assert(self.has(cpu_id, j - n));
                assert(after.list(cpu)[j] == self.list(cpu_id)[j - n]);
            } else if cpu == cpu_id {
                assert(after.list(cpu)[j] == chain[j]);
            } else {
                assert(self.has(cpu, j));
            }
        }
        assert forall|c1: int, j1: int, c2: int, j2: int|
            after.has(c1, j1) && after.has(c2, j2) && (c1 != c2 || j1 != j2) implies disjoint(
            #[trigger] after.list(c1)[j1] as int,
            self.object_size() as int,
            #[trigger] after.list(c2)[j2] as int,
            self.object_size() as int,
        ) by {
            let k1 = if c1 == cpu_id {
                j1 - n
            } else {
                j1
            };
            let k2 = if c2 == cpu_id {
                j2 - n
            } else {
                j2
            };
            if k1 >= 0 {
                assert(self.has(c1, k1));
                assert(after.list(c1)[j1] == self.list(c1)[k1]);
            } else {
                assert(after.list(c1)[j1] == chain[j1]);
            }
            if k2 >= 0 {
                assert(self.has(c2, k2));
                assert(after.list(c2)[j2] == self.list(c2)[k2]);
            } else {
                assert(after.list(c2)[j2] == chain[j2]);
            }
        }
    }

    /// New nodes inside a region that was just granted are covered by what is
    /// granted now, as the nodes that were there before still are. The first
    /// object of the region overlaps none of them.
    proof fn lemma_covered_after(
        &self,
        after: Cache,
        cpu_id: int,
        chain: Seq<usize>,
        before: Set<int>,
        granted: Set<int>,
        start: int,
        size: int,
    )
        requires
            self.covered(before),
            0 <= cpu_id < MAX_CPUS,
            self.shaped(),
            granted == before.union(span(start, size)),
            forall|j: int|
                0 <= j < chain.len() ==> start + self.object_size() <= #[trigger] chain[j]
                    && chain[j] + self.object_size() <= start + size,
            forall|cpu: int, j: int|
                self.has(cpu, j) ==> disjoint(
                    #[trigger] self.list(cpu)[j] as int,
                    self.object_size() as int,
                    start,
                    size,
                ),
            0 < self.object_size() <= size,
            after.object_size == self.object_size,
            after.lists@ == (if chain.len() > 0 {
                self.lists@.update(cpu_id, chain + self.list(cpu_id))
            } else {
                self.lists@
            }),
        ensures
            after.covered(granted),
            after.apart_from(start),
            covers(granted, start, size),
    {
        let n = chain.len() as int;
        assert forall|cpu: int, j: int| after.has(cpu, j) implies {
            &&& covers(granted, #[trigger] after.list(cpu)[j] as int, after.object_size() as int)
            &&& disjoint(
                start,
                after.object_size() as int,
                after.list(cpu)[j] as int,
                after.object_size() as int,
            )
        } by {
            if cpu == cpu_id && n > 0 {
                if j < n {
                    assert(after.list(cpu)[j] == chain[j]);
                } else {
                    assert(self.has(cpu, j - n));
                    assert(after.list(cpu)[j] == self.list(cpu)[j - n]);
                }
            } else {
                assert(self.has(cpu, j));
                assert(after.list(cpu)[j] == self.list(cpu)[j]);
            }
        }
    }
}

} // verus!
