//! The allocator: one cache for every size class, over one memory and one
//! source of slabs.

use crate::cache::{Cache, MAX_CPUS};
use crate::class::{
    capacity, class_for, is_served_class, lemma_ceil_log2_bounds, lemma_served_class_size,
    lemma_size_class_tight, object_size_of, padded_size, size_class, CACHE_COUNT, HEADER_SIZE,
    OBJECT_MAXIMUM_SIZE, OBJECT_MINIMUM_SIZE,
};
use crate::heap::{covers, disjoint, fresh, lemma_covered_fresh_disjoint, Allocator};
use crate::list::{first_link, linked};
use crate::memory::{
    lemma_bytes_written, lemma_word_same, same_outside, same_outside_two, same_within, Memory,
};
use crate::node::{FreeNode, UsedNode, FREE_NODE_SIZE, NULL};
use crate::slab::{carved, lemma_carved, lemma_carved_count, slab_size_of, SLAB_MINIMUM_SIZE};
use vstd::arithmetic::power2::{
    lemma2_to64, lemma_pow2_strictly_increases, lemma_pow2_unfold, pow2,
};
use vstd::prelude::*;

verus! {

/// Why an allocation was not made.
#[derive(Clone, Copy, Debug, PartialEq, Eq, Structural)]
pub enum AllocError {
    /// The request, with its header, is larger than the objects of the
    /// largest size class.
    UnsupportedSize,
    /// The free list was empty and the base allocator had no slab to give.
    OutOfMemory,
}

/// The address of the header of the allocation whose data starts at `ptr`.
pub open spec fn node_of(ptr: usize) -> usize {
    (ptr - HEADER_SIZE) as usize
}

/// The address of the data of the object that starts at `node`.
pub open spec fn data_of(node: usize) -> usize {
    (node + HEADER_SIZE) as usize
}

/// An allocator of objects of any size up to the largest size class, made of
/// one cache for each class.
pub struct SlamAllocator<Base> {
    caches: Vec<Cache>,
    base: Base,
    memory: Memory,
    /// Every object carved out of a slab so far, with its size class.
    objects: Ghost<Map<usize, nat>>,
    /// The allocations handed out and not yet freed, with their size classes.
    live: Ghost<Map<usize, nat>>,
}

// What can be observed of an allocator, and what makes it consistent.
impl<Base: Allocator> SlamAllocator<Base> {
    /// The base allocator, as it stands.
    pub closed spec fn base(&self) -> Base {
        self.base
    }

    /// The allocations handed out and not yet freed: the address of each
    /// one's data, with the size class of its object.
    pub closed spec fn live(&self) -> Map<usize, nat> {
        self.live@
    }

    /// The free list of size class `class` and processor `cpu`: the
    /// addresses of its nodes, first node first.
    pub closed spec fn free_list(&self, class: int, cpu: int) -> Seq<usize> {
        self.caches@[class].list(cpu)
    }

    /// The two links that the object at `node` holds while it is on a free
    /// list.
    pub closed spec fn links(&self, node: usize) -> FreeNode {
        FreeNode::at(self.memory@, node as int)
    }

    /// The bytes of the live allocation at `ptr`: all that its object holds
    /// behind the header.
    pub closed spec fn contents(&self, ptr: usize) -> Seq<u8> {
        self.memory@.subrange(ptr as int, ptr + capacity(self.live@[ptr]))
    }

    /// Every object is of a served class, lies inside the memory and inside
    /// what the base allocator has granted.
    spec fn objects_sound(&self) -> bool {
        forall|a: usize| #[trigger]
            self.objects@.contains_key(a) ==> {
                &&& is_served_class(self.objects@[a])
                &&& a + pow2(self.objects@[a]) <= self.memory@.len()
                &&& covers(self.base.granted(), a as int, pow2(self.objects@[a]) as int)
            }
    }

    /// Every node of a free list is an object of the list's class, and is
    /// not live.
    spec fn lists_sound(&self) -> bool {
        forall|k: int, cpu: int, j: int|
            0 <= k < CACHE_COUNT && self.caches@[k].has(cpu, j) ==> {
                &&& self.objects@.contains_key(#[trigger] self.caches@[k].list(cpu)[j])
                &&& self.objects@[self.caches@[k].list(cpu)[j]] == k
                &&& !self.live@.contains_key(data_of(self.caches@[k].list(cpu)[j]))
            }
    }

    /// Every live allocation follows the header of an object of its class,
    /// and that header names the class.
    spec fn live_sound(&self) -> bool {
        forall|p: usize| #[trigger]
            self.live@.contains_key(p) ==> {
                &&& p >= HEADER_SIZE
                &&& self.objects@.contains_key(node_of(p))
                &&& self.objects@[node_of(p)] == self.live@[p]
                &&& UsedNode::at(self.memory@, node_of(p) as int).cache == self.live@[p]
            }
    }

    /// Every cache holds its free lists in the memory, and is the cache of
    /// the class that is its place among the caches.
    spec fn caches_sound(&self) -> bool {
        &&& self.caches@.len() == CACHE_COUNT
        &&& forall|k: int|
            0 <= k < CACHE_COUNT ==> (#[trigger] self.caches@[k]).wf(self.memory@)
                && self.caches@[k].class() == k
    }

    /// The allocator is consistent: the free lists are held in memory as
    /// chains without cycles, no object is on two lists or both live and on
    /// a list, no two objects overlap, every object lies in a slab that the
    /// base allocator granted, and every live allocation is preceded by a
    /// header that names its size class.
    pub closed spec fn inv(&self) -> bool {
        &&& self.caches_sound()
        &&& self.base.wf()
        &&& self.base.limit() <= self.memory@.len()
        &&& self.objects_sound()
        &&& objects_apart(self.objects@)
        &&& self.lists_sound()
        &&& self.live_sound()
    }
}

// What each operation does, as a relation between the state before and the state after.
impl<Base: Allocator> SlamAllocator<Base> {
    /// Every allocation that is live in both states holds the same bytes in
    /// both.
    pub open spec fn keeps_contents(pre: Self, post: Self) -> bool {
        forall|p: usize|
            pre.live().contains_key(p) && post.live().contains_key(p) ==> #[trigger] post.contents(
                p,
            ) == pre.contents(p)
    }

    /// Every free list but that of `class` and `cpu` is the same in both
    /// states.
    pub open spec fn keeps_lists_except(pre: Self, post: Self, class: int, cpu: int) -> bool {
        forall|k: int, c: int|
            0 <= k < CACHE_COUNT && 0 <= c < MAX_CPUS && (k != class || c != cpu)
                ==> #[trigger] post.free_list(k, c) == pre.free_list(k, c)
    }

    /// Nothing that can be observed differs between the two states.
    pub open spec fn unchanged(pre: Self, post: Self) -> bool {
        &&& forall|k: int, c: int|
            0 <= k < CACHE_COUNT && 0 <= c < MAX_CPUS ==> #[trigger] post.free_list(k, c)
                == pre.free_list(k, c)
        &&& post.live() == pre.live()
        &&& post.base() == pre.base()
        &&& Self::keeps_contents(pre, post)
    }

    /// What handing out `ptr` as an allocation of size class `class` does
    /// beside the change to the free list it came from: `ptr` was not live
    /// and now is, and nothing else changes.
    pub open spec fn taken(pre: Self, cpu: int, class: int, post: Self, ptr: usize) -> bool {
        &&& Self::keeps_lists_except(pre, post, class, cpu)
        &&& !pre.live().contains_key(ptr)
        &&& post.live() == pre.live().insert(ptr, class as nat)
        &&& Self::keeps_contents(pre, post)
    }

    /// What a request for an object of size class `class` on processor `cpu`
    /// does. Where the processor's free list for the class is not empty, its
    /// first node is taken. Where it is empty, a slab is requested from the
    /// base allocator: its first object is taken and the rest become the
    /// free list, whose first node has no node before it. Where the base
    /// allocator has no slab, the request fails and nothing changes.
    pub open spec fn allocated_from(
        pre: Self,
        cpu: int,
        class: int,
        post: Self,
        result: Result<usize, AllocError>,
    ) -> bool {
        let list = pre.free_list(class, cpu);
        let slab_size = slab_size_of(pow2(class as nat));
        if list.len() > 0 {
            &&& result == Ok::<usize, AllocError>(data_of(list[0]))
            &&& post.free_list(class, cpu) == list.drop_first()
            &&& post.base() == pre.base()
            &&& Self::taken(pre, cpu, class, post, data_of(list[0]))
        } else if pre.base().grant(slab_size) is Some {
            let slab = pre.base().grant(slab_size)->0;
            &&& result == Ok::<usize, AllocError>(data_of(slab))
            &&& post.free_list(class, cpu) == carved(
                slab as int,
                pow2(class as nat) as int,
                slab_size as int,
            )
            &&& post.free_list(class, cpu).len() > 0 ==> post.links(
                post.free_list(class, cpu)[0],
            ).prev == NULL
            &&& post.base() == pre.base().after_grant(slab_size)
            &&& Self::taken(pre, cpu, class, post, data_of(slab))
        } else {
            &&& result == Err::<usize, AllocError>(AllocError::OutOfMemory)
            &&& Self::unchanged(pre, post)
        }
    }

    /// What a request for `size` bytes on processor `cpu` does. A request
    /// that, with its header, is larger than the objects of the largest size
    /// class fails and changes nothing. Any other is a request for an object
    /// of its size class.
    pub open spec fn allocated(
        pre: Self,
        cpu: int,
        size: nat,
        post: Self,
        result: Result<usize, AllocError>,
    ) -> bool {
        if padded_size(size) > OBJECT_MAXIMUM_SIZE {
            &&& result == Err::<usize, AllocError>(AllocError::UnsupportedSize)
            &&& Self::unchanged(pre, post)
        } else {
            Self::allocated_from(pre, cpu, size_class(size) as int, post, result)
        }
    }

    /// What freeing the live allocation at `ptr` on processor `cpu` does:
    /// the object becomes the first node of the processor's free list for
    /// its class. It links forward to the former first node and has no node
    /// before it. Nothing else changes.
    pub open spec fn freed(pre: Self, cpu: int, ptr: usize, post: Self) -> bool {
        let class = pre.live()[ptr] as int;
        &&& post.free_list(class, cpu) == seq![node_of(ptr)] + pre.free_list(class, cpu)
        &&& post.links(node_of(ptr)) == (FreeNode {
            next: first_link(pre.free_list(class, cpu)),
            prev: NULL,
        })
        &&& Self::keeps_lists_except(pre, post, class, cpu)
        &&& post.live() == pre.live().remove(ptr)
        &&& post.base() == pre.base()
        &&& Self::keeps_contents(pre, post)
    }

    /// What writing `data` to the start of the live allocation at `ptr`
    /// does: the first bytes of the allocation become `data`, and the rest,
    /// like everything else, stays as it was.
    pub open spec fn written(pre: Self, ptr: usize, data: Seq<u8>, post: Self) -> bool {
        &&& post.contents(ptr) == data + pre.contents(ptr).skip(data.len() as int)
        &&& forall|p: usize|
            pre.live().contains_key(p) && p != ptr ==> #[trigger] post.contents(p) == pre.contents(
                p,
            )
        &&& forall|k: int, c: int|
            0 <= k < CACHE_COUNT && 0 <= c < MAX_CPUS ==> #[trigger] post.free_list(k, c)
                == pre.free_list(k, c)
        &&& post.live() == pre.live()
        &&& post.base() == pre.base()
    }
}

// The operations.
impl<Base: Allocator> SlamAllocator<Base> {
    /// An allocator over `memory` that takes its slabs from `base`, with no
    /// allocation made and every free list empty.
    pub fn new(base: Base, memory: Memory) -> (allocator: Self)
        requires
            base.wf(),
            base.limit() <= memory@.len(),
        ensures
            allocator.inv(),
            allocator.base() == base,
            allocator.live() == Map::<usize, nat>::empty(),
            forall|k: int, c: int|
                0 <= k < CACHE_COUNT && 0 <= c < MAX_CPUS ==> #[trigger] allocator.free_list(k, c)
                    == Seq::<usize>::empty(),
    {
        let mut caches: Vec<Cache> = Vec::new();
        let mut class: usize = 0;
        while class < CACHE_COUNT
            invariant
                class <= CACHE_COUNT,
                caches@.len() == class,
                forall|k: int|
                    0 <= k < class ==> {
                        &&& (#[trigger] caches@[k]).class() == k
                        &&& forall|mem: Seq<u8>| #[trigger] caches@[k].wf(mem)
                        &&& forall|cpu: int|
                            0 <= cpu < MAX_CPUS ==> #[trigger] caches@[k].list(cpu) == Seq::<
                                usize,
                            >::empty()
                    },
            decreases CACHE_COUNT - class,
        {
            caches.push(Cache::new(class));
            class += 1;
        }
        let allocator = SlamAllocator {
            caches,
            base,
            memory,
            objects: Ghost(Map::empty()),
            live: Ghost(Map::empty()),
        };
        proof {
            reveal(objects_apart);
            assert forall|k: int, cpu: int, j: int|
                0 <= k < CACHE_COUNT && allocator.caches@[k].has(cpu, j) implies false by {
                assert(allocator.caches@[k].list(cpu) == Seq::<usize>::empty());
            }
        }
        allocator
    }

    /// Allocates `size` bytes on processor `cpu_id` and returns the address
    /// of the first. The object that holds them is of the smallest size
    /// class that has room for the bytes and the header before them.
    #[inline(always)]
    pub fn allocate(&mut self, cpu_id: usize, size: usize) -> (result: Result<usize, AllocError>)
        requires
            old(self).inv(),
            cpu_id < MAX_CPUS,
        ensures
            final(self).inv(),
            Self::allocated(*old(self), cpu_id as int, size as nat, *final(self), result),
    {
        // Add in room for the allocation header and find the nearest power
        // of two.
        let lg2 = match class_for(size) {
            Some(lg2) => lg2,
            None => {
                return Err(AllocError::UnsupportedSize);
            },
        };

        self.cache_alloc(cpu_id, lg2)
    }

    /// Allocates an object of size class `lg2` on processor `cpu_id` and
    /// returns the address of its data. Fails where there is no such class.
    pub fn cache_alloc(&mut self, cpu_id: usize, lg2: usize) -> (result: Result<usize, AllocError>)
        requires
            old(self).inv(),
            cpu_id < MAX_CPUS,
            size_class(0) <= lg2,
        ensures
            final(self).inv(),
            lg2 >= CACHE_COUNT ==> result == Err::<usize, AllocError>(AllocError::UnsupportedSize)
                && Self::unchanged(*old(self), *final(self)),
            lg2 < CACHE_COUNT ==> Self::allocated_from(
                *old(self),
                cpu_id as int,
                lg2 as int,
                *final(self),
                result,
            ),
    {
        if lg2 < CACHE_COUNT {
            self.cache_alloc_(cpu_id, lg2)
        } else {
            Err(AllocError::UnsupportedSize)
        }
    }

    /// Allocates an object from the cache of size class `lg2` on processor
    /// `cpu_id` and returns the address of its data.
    #[inline(never)]
    pub fn cache_alloc_(&mut self, cpu_id: usize, lg2: usize) -> (result: Result<usize, AllocError>)
        requires
            old(self).inv(),
            cpu_id < MAX_CPUS,
            is_served_class(lg2 as nat),
        ensures
            final(self).inv(),
            Self::allocated_from(*old(self), cpu_id as int, lg2 as int, *final(self), result),
    {
        let object_size = object_size_of(lg2);
        proof {
            let cache = self.caches@[lg2 as int];
            assert(cache.wf(self.memory@));
            cache.lemma_object_size();
            lemma_served_class_size(lg2 as nat);
            assert forall|cpu: int, j: int| cache.has(cpu, j) implies covers(
                self.base.granted(),
                #[trigger] cache.list(cpu)[j] as int,
                cache.object_size() as int,
            ) by {
                let b = self.caches@[lg2 as int].list(cpu)[j];
                assert(self.objects@.contains_key(b));
            }
        }
        match self.caches[lg2].allocate(&mut self.base, &mut self.memory, cpu_id, object_size) {
            Some(node) => {
                proof {
                    self.memory.lemma_len_bounded();
                    self.live@ = self.live@.insert(data_of(node), lg2 as nat);
                    if old(self).free_list(lg2 as int, cpu_id as int).len() > 0 {
                        old(self).lemma_taken_popped(*self, cpu_id as int, lg2 as int);
                    } else {
                        self.objects@ = with_slab(self.objects@, node, lg2 as nat);
                        old(self).lemma_taken_carved(*self, cpu_id as int, lg2 as int);
                    }
                }
                Ok(UsedNode::get_data(node))
            },
            None => {
                proof {
                    assert(self.caches@ =~= old(self).caches@);
                }
                Err(AllocError::OutOfMemory)
            },
        }
    }

    /// Returns the allocation at `ptr` to the free list of processor
    /// `cpu_id` for its size class. The size class is read from the header
    /// that precedes `ptr`.
    pub fn free(&mut self, cpu_id: usize, ptr: usize)
        requires
            old(self).inv(),
            cpu_id < MAX_CPUS,
            old(self).live().contains_key(ptr),
        ensures
            final(self).inv(),
            Self::freed(*old(self), cpu_id as int, ptr, *final(self)),
    {
        let node = UsedNode::from_data(ptr);
        proof {
            assert(self.objects@.contains_key(node));
            lemma_served_class_size(self.objects@[node]);
        }
        let class = UsedNode::load(&self.memory, node).cache;
        proof {
            let cache = self.caches@[class as int];
            assert(cache.wf(self.memory@));
            cache.lemma_object_size();
            reveal(objects_apart);
            assert forall|cpu: int, j: int| cache.has(cpu, j) implies disjoint(
                node as int,
                cache.object_size() as int,
                #[trigger] cache.list(cpu)[j] as int,
                cache.object_size() as int,
            ) by {
                let b = self.caches@[class as int].list(cpu)[j];
                assert(self.objects@.contains_key(b));
            }
        }
        self.caches[class].free(&mut self.memory, cpu_id, node);
        proof {
            self.live@ = self.live@.remove(ptr);
            old(self).lemma_freed(*self, cpu_id as int, ptr);
        }
    }

    /// The least and the greatest request that the object of the live
    /// allocation at `ptr` is the right size for: the bytes that an object of
    /// half its size holds behind the header, and the bytes that it holds
    /// itself. A request above the first and up to the second is served by
    /// an object of this size.
    pub fn alloc_size_bounds(&self, ptr: usize) -> (bounds: (usize, usize))
        requires
            self.inv(),
            self.live().contains_key(ptr),
        ensures
            bounds.0 == pow2(self.live()[ptr]) / 2 - HEADER_SIZE,
            bounds.1 == capacity(self.live()[ptr]),
    {
        let node = UsedNode::from_data(ptr);
        proof {
            assert(self.objects@.contains_key(node));
            lemma_served_class_size(self.objects@[node]);
        }
        let class = UsedNode::load(&self.memory, node).cache;
        proof {
            assert(self.caches@[class as int].wf(self.memory@));
            self.caches@[class as int].lemma_object_size();
        }
        let size = self.caches[class].object_size();
        (size / 2 - HEADER_SIZE, size - HEADER_SIZE)
    }

    /// Copies `data` to the start of the live allocation at `ptr`.
    pub fn write(&mut self, ptr: usize, data: &[u8])
        requires
            old(self).inv(),
            old(self).live().contains_key(ptr),
            data@.len() <= capacity(old(self).live()[ptr]),
        ensures
            final(self).inv(),
            Self::written(*old(self), ptr, data@, *final(self)),
    {
        proof {
            assert(self.objects@.contains_key(node_of(ptr)));
            lemma_served_class_size(self.objects@[node_of(ptr)]);
        }
        self.memory.write(ptr, data);
        proof {
            lemma_bytes_written(old(self).memory@, ptr as int, data@);
            old(self).lemma_written(*self, ptr, data@);
        }
    }

    /// Returns the first `len` bytes of the live allocation at `ptr`.
    pub fn read(&self, ptr: usize, len: usize) -> (data: Vec<u8>)
        requires
            self.inv(),
            self.live().contains_key(ptr),
            len <= capacity(self.live()[ptr]),
        ensures
            data@ == self.contents(ptr).take(len as int),
    {
        proof {
            assert(self.objects@.contains_key(node_of(ptr)));
            lemma_served_class_size(self.objects@[node_of(ptr)]);
            assert(self.memory@.subrange(ptr as int, ptr + len) =~= self.contents(ptr).take(
                len as int,
            ));
        }
        self.memory.read(ptr, len)
    }

    /// The nodes of the free list of size class `class` and processor
    /// `cpu_id`, first node first, as found by following the links in memory.
    pub fn free_nodes(&self, class: usize, cpu_id: usize) -> (nodes: Vec<usize>)
        requires
            self.inv(),
            class < CACHE_COUNT,
            cpu_id < MAX_CPUS,
        ensures
            nodes@ == self.free_list(class as int, cpu_id as int),
    {
        proof {
            assert(self.caches@[class as int].wf(self.memory@));
        }
        self.caches[class].free_nodes(&self.memory, cpu_id)
    }
}

// What holds of every consistent allocator and of every run of the operations.
impl<Base: Allocator> SlamAllocator<Base> {
    /// A live allocation follows a header, its size class is one that is
    /// served, and its object, header and data, lies inside the address
    /// space and inside what the base allocator has granted.
    pub proof fn lemma_live_bounds(&self, p: usize)
        requires
            self.inv(),
            self.live().contains_key(p),
        ensures
            is_served_class(self.live()[p]),
            HEADER_SIZE <= p,
            p + capacity(self.live()[p]) <= usize::MAX,
            node_of(p) + pow2(self.live()[p]) <= usize::MAX,
            covers(self.base().granted(), node_of(p) as int, pow2(self.live()[p]) as int),
            self.contents(p).len() == capacity(self.live()[p]),
    {
        let a = node_of(p);
        assert(self.objects@.contains_key(a));
        lemma_served_class_size(self.objects@[a]);
        self.memory.lemma_len_bounded();
    }

    /// The data of two live allocations never overlap, and neither do their
    /// objects: the data with the headers before them.
    pub proof fn lemma_live_disjoint(&self, p: usize, q: usize)
        requires
            self.inv(),
            self.live().contains_key(p),
            self.live().contains_key(q),
            p != q,
        ensures
            disjoint(
                p as int,
                capacity(self.live()[p]),
                q as int,
                capacity(self.live()[q]),
            ),
            disjoint(
                node_of(p) as int,
                pow2(self.live()[p]) as int,
                node_of(q) as int,
                pow2(self.live()[q]) as int,
            ),
    {
        reveal(objects_apart);
        let a = node_of(p);
        let b = node_of(q);
        assert(self.objects@.contains_key(a) && self.objects@.contains_key(b));
        lemma_served_class_size(self.objects@[a]);
        lemma_served_class_size(self.objects@[b]);
    }

    /// A node of a free list is of a served class, and its object lies
    /// inside the address space and inside what the base allocator has
    /// granted. So the address of its data is that of a header, which is the
    /// node again.
    pub proof fn lemma_free_node_bounds(&self, k: int, c: int, j: int)
        requires
            self.inv(),
            0 <= k < CACHE_COUNT,
            0 <= c < MAX_CPUS,
            0 <= j < self.free_list(k, c).len(),
        ensures
            is_served_class(k as nat),
            self.free_list(k, c)[j] + pow2(k as nat) <= usize::MAX,
            covers(
                self.base().granted(),
                self.free_list(k, c)[j] as int,
                pow2(k as nat) as int,
            ),
            node_of(data_of(self.free_list(k, c)[j])) == self.free_list(k, c)[j],
    {
        let a = self.caches@[k].list(c)[j];
        assert(self.caches@[k].has(c, j));
        assert(self.objects@.contains_key(a));
        lemma_served_class_size(self.objects@[a]);
        self.memory.lemma_len_bounded();
    }

    /// Every free list is held as a chain: each node links forward to the
    /// node that follows it, the last to none, and each node but the first
    /// links back to the node before it.
    pub proof fn lemma_free_list_linked(&self, k: int, c: int, j: int)
        requires
            self.inv(),
            0 <= k < CACHE_COUNT,
            0 <= c < MAX_CPUS,
            0 <= j < self.free_list(k, c).len(),
        ensures
            self.links(self.free_list(k, c)[j]).next == (if j + 1 < self.free_list(k, c).len() {
                self.free_list(k, c)[j + 1]
            } else {
                NULL
            }),
            j > 0 ==> self.links(self.free_list(k, c)[j]).prev == self.free_list(k, c)[j - 1],
    {
        let cache = self.caches@[k];
        let list = cache.list(c);
        assert(cache.wf(self.memory@));
        assert(linked(self.memory@, cache.list(c)));
        if j + 1 < list.len() {
            assert(FreeNode::at(self.memory@, list[j] as int).next == list[j + 1]);
        } else {
            assert(list.last() == list[j]);
        }
        if j > 0 {
            assert(FreeNode::at(self.memory@, list[j - 1] as int).next == list[j]);
        }
    }

    /// The free lists have no cycles and share no node: two different
    /// positions, on one list or on two, hold two different nodes whose
    /// objects do not overlap.
    pub proof fn lemma_free_nodes_distinct(
        &self,
        k1: int,
        c1: int,
        j1: int,
        k2: int,
        c2: int,
        j2: int,
    )
        requires
            self.inv(),
            0 <= k1 < CACHE_COUNT,
            0 <= c1 < MAX_CPUS,
            0 <= j1 < self.free_list(k1, c1).len(),
            0 <= k2 < CACHE_COUNT,
            0 <= c2 < MAX_CPUS,
            0 <= j2 < self.free_list(k2, c2).len(),
            k1 != k2 || c1 != c2 || j1 != j2,
        ensures
            disjoint(
                self.free_list(k1, c1)[j1] as int,
                pow2(k1 as nat) as int,
                self.free_list(k2, c2)[j2] as int,
                pow2(k2 as nat) as int,
            ),
            self.free_list(k1, c1)[j1] != self.free_list(k2, c2)[j2],
    {
        reveal(objects_apart);
        reveal(Cache::separated);
        let a = self.caches@[k1].list(c1)[j1];
        let b = self.caches@[k2].list(c2)[j2];
        assert(self.caches@[k1].has(c1, j1) && self.caches@[k2].has(c2, j2));
        assert(self.objects@.contains_key(a) && self.objects@.contains_key(b));
        assert(self.caches@[k1].wf(self.memory@));
        self.caches@[k1].lemma_object_size();
        lemma_served_class_size(self.objects@[a]);
        lemma_served_class_size(self.objects@[b]);
    }

    /// No node of a free list is the object of a live allocation, and none
    /// overlaps the data of one.
    pub proof fn lemma_free_node_not_live(&self, k: int, c: int, j: int, p: usize)
        requires
            self.inv(),
            0 <= k < CACHE_COUNT,
            0 <= c < MAX_CPUS,
            0 <= j < self.free_list(k, c).len(),
            self.live().contains_key(p),
        ensures
            data_of(self.free_list(k, c)[j]) != p,
            disjoint(
                self.free_list(k, c)[j] as int,
                pow2(k as nat) as int,
                p as int,
                capacity(self.live()[p]),
            ),
    {
        reveal(objects_apart);
        let a = self.caches@[k].list(c)[j];
        let b = node_of(p);
        assert(self.caches@[k].has(c, j));
        assert(self.objects@.contains_key(a) && self.objects@.contains_key(b));
        lemma_served_class_size(self.objects@[a]);
        lemma_served_class_size(self.objects@[b]);
        self.memory.lemma_len_bounded();
    }

    /// An allocation is live once made, its size class is that of the
    /// request, and the bounds reported for it bracket the request: the
    /// request is no less than the lower bound and no more than the upper.
    /// It is more than the lower bound unless it is the empty request; so it
    /// is wherever the minimum object size does not apply.
    pub proof fn lemma_allocated_fits(pre: Self, cpu: int, size: nat, post: Self, ptr: usize)
        requires
            Self::allocated(pre, cpu, size, post, Ok(ptr)),
        ensures
            post.live().contains_key(ptr),
            post.live()[ptr] == size_class(size),
            pow2(post.live()[ptr]) / 2 - HEADER_SIZE <= size <= capacity(post.live()[ptr]),
            pow2(post.live()[ptr]) / 2 - HEADER_SIZE < size <==> size > 0,
            size + HEADER_SIZE >= OBJECT_MINIMUM_SIZE ==> pow2(post.live()[ptr]) / 2 - HEADER_SIZE
                < size,
    {
        lemma_size_class_tight(size);
        let k = size_class(size);
        lemma_pow2_unfold(k);
    }

    /// What was written to an allocation is what is read from it, for as
    /// long as it is live, whatever is allocated or freed beside it.
    pub proof fn lemma_written_kept(pre: Self, ptr: usize, data: Seq<u8>, post: Self)
        requires
            Self::written(pre, ptr, data, post),
        ensures
            post.contents(ptr).take(data.len() as int) == data,
    {
        assert(post.contents(ptr).take(data.len() as int) =~= data);
    }

    /// A request, met or not, leaves every live allocation live, of the same
    /// size class and with the same bytes.
    pub proof fn lemma_allocation_keeps_live(
        pre: Self,
        cpu: int,
        size: nat,
        post: Self,
        result: Result<usize, AllocError>,
        p: usize,
    )
        requires
            Self::allocated(pre, cpu, size, post, result),
            pre.live().contains_key(p),
        ensures
            post.live().contains_key(p),
            post.live()[p] == pre.live()[p],
            post.contents(p) == pre.contents(p),
            result != Ok::<usize, AllocError>(p),
    {
    }

    /// Freeing one allocation leaves every other live allocation live, of the
    /// same size class and with the same bytes.
    pub proof fn lemma_free_keeps_others(pre: Self, cpu: int, ptr: usize, post: Self, p: usize)
        requires
            Self::freed(pre, cpu, ptr, post),
            pre.live().contains_key(p),
            p != ptr,
        ensures
            post.live().contains_key(p),
            post.live()[p] == pre.live()[p],
            post.contents(p) == pre.contents(p),
            !post.live().contains_key(ptr),
    {
    }

    /// Freeing an allocation that was taken from a free list, on the same
    /// processor and before anything else is done, puts the free lists and
    /// the live allocations back as they were.
    pub proof fn lemma_free_undoes_pop(
        first: Self,
        made: Self,
        last: Self,
        cpu: int,
        size: nat,
        ptr: usize,
    )
        requires
            first.inv(),
            0 <= cpu < MAX_CPUS,
            Self::allocated(first, cpu, size, made, Ok(ptr)),
            first.free_list(size_class(size) as int, cpu).len() > 0,
            Self::freed(made, cpu, ptr, last),
        ensures
            forall|k: int, c: int|
                0 <= k < CACHE_COUNT && 0 <= c < MAX_CPUS ==> #[trigger] last.free_list(k, c)
                    == first.free_list(k, c),
            last.live() == first.live(),
            last.base() == first.base(),
            Self::keeps_contents(first, last),
    {
        let k = size_class(size) as int;
        let list = first.free_list(k, cpu);
        lemma_ceil_log2_bounds(padded_size(size));
        assert(k < CACHE_COUNT) by {
            lemma2_to64();
            if k > 31 {
                lemma_pow2_strictly_increases(31, (k - 1) as nat);
            }
        }
        first.lemma_free_node_bounds(k, cpu, 0);
        assert(made.live()[ptr] == k);
        assert(seq![node_of(ptr)] + list.drop_first() =~= list);
        assert(last.live() =~= first.live());
        assert forall|kk: int, c: int|
            0 <= kk < CACHE_COUNT && 0 <= c < MAX_CPUS implies #[trigger] last.free_list(kk, c)
            == first.free_list(kk, c) by {
            if kk != k || c != cpu {
                assert(made.free_list(kk, c) == first.free_list(kk, c));
            }
        }
        assert forall|p: usize|
            first.live().contains_key(p) && last.live().contains_key(p) implies
            #[trigger] last.contents(p) == first.contents(p) by {
            assert(made.live().contains_key(p));
            assert(made.contents(p) == first.contents(p));
        }
    }

    /// An allocation that is freed is the next one made on the same
    /// processor for the same size class.
    pub proof fn lemma_reuse(
        first: Self,
        made: Self,
        idle: Self,
        last: Self,
        cpu: int,
        size: nat,
        again: nat,
        ptr: usize,
        result: Result<usize, AllocError>,
    )
        requires
            made.inv(),
            Self::allocated(first, cpu, size, made, Ok(ptr)),
            Self::freed(made, cpu, ptr, idle),
            Self::allocated(idle, cpu, again, last, result),
            size_class(again) == size_class(size),
        ensures
            result == Ok::<usize, AllocError>(ptr),
    {
        let k = size_class(size);
        assert(made.live()[ptr] == k);
        made.lemma_live_bounds(ptr);
        lemma_ceil_log2_bounds(padded_size(again));
        lemma2_to64();
        if k < 31 {
            lemma_pow2_strictly_increases(k, 31);
        }
        let list = idle.free_list(k as int, cpu);
        assert(list == seq![node_of(ptr)] + made.free_list(k as int, cpu));
        assert(list[0] == node_of(ptr));
    }

    /// A request that finds its free list empty leaves on it one node less
    /// than the slab holds objects. Where one object fills the slab, the
    /// list stays empty.
    pub proof fn lemma_slab_boundary(pre: Self, cpu: int, class: int, post: Self, ptr: usize)
        requires
            0 <= class < CACHE_COUNT,
            pre.free_list(class, cpu).len() == 0,
            Self::allocated_from(pre, cpu, class, post, Ok(ptr)),
        ensures
            post.free_list(class, cpu).len() == slab_size_of(pow2(class as nat)) as int / pow2(
                class as nat,
            ) as int - 1,
            pow2(class as nat) >= SLAB_MINIMUM_SIZE ==> post.free_list(class, cpu)
                == pre.free_list(class, cpu),
    {
        let slab_size = slab_size_of(pow2(class as nat));
        let slab = pre.base().grant(slab_size)->0;
        lemma_carved_count(slab as int, class as nat);
        assert(pre.free_list(class, cpu) =~= Seq::<usize>::empty());
    }

    /// A request too large for the largest size class fails, whatever the
    /// state, and changes nothing.
    pub proof fn lemma_oversize_fails(
        pre: Self,
        cpu: int,
        size: nat,
        post: Self,
        result: Result<usize, AllocError>,
    )
        requires
            Self::allocated(pre, cpu, size, post, result),
            size + HEADER_SIZE > OBJECT_MAXIMUM_SIZE,
        ensures
            result == Err::<usize, AllocError>(AllocError::UnsupportedSize),
            Self::unchanged(pre, post),
    {
    }
}

/// No two of the objects overlap.
#[verifier::opaque]
spec fn objects_apart(objects: Map<usize, nat>) -> bool {
    forall|a: usize, b: usize|
        #![trigger objects.contains_key(a), objects.contains_key(b)]
        objects.contains_key(a) && objects.contains_key(b) && a != b ==> disjoint(
            a as int,
            pow2(objects[a]) as int,
            b as int,
            pow2(objects[b]) as int,
        )
}

/// The objects with those of a new slab for size class `class` added: the
/// first object of the slab, which starts where the slab does, and the
/// objects carved behind it.
spec fn with_slab(objects: Map<usize, nat>, slab: usize, class: nat) -> Map<usize, nat> {
    let nodes = carved(slab as int, pow2(class) as int, slab_size_of(pow2(class)) as int);
    Map::new(
        |a: usize| objects.contains_key(a) || a == slab || nodes.contains(a),
        |a: usize|
            if a == slab || nodes.contains(a) {
                class
            } else {
                objects[a]
            },
    )
}

/// The objects of a slab that was not granted before overlap neither each
/// other nor any object that lies in what was granted.
proof fn lemma_slab_added(objects: Map<usize, nat>, granted: Set<int>, slab: usize, class: nat)
    requires
        objects_apart(objects),
        forall|a: usize| #[trigger]
            objects.contains_key(a) ==> is_served_class(objects[a]) && covers(
                granted,
                a as int,
                pow2(objects[a]) as int,
            ),
        is_served_class(class),
        fresh(granted, slab as int, slab_size_of(pow2(class)) as int),
        slab + slab_size_of(pow2(class)) <= usize::MAX,
    ensures
        objects_apart(with_slab(objects, slab, class)),
        forall|a: usize| #[trigger]
            objects.contains_key(a) ==> with_slab(objects, slab, class)[a] == objects[a],
{
    reveal(objects_apart);
    let size = pow2(class);
    let slab_size = slab_size_of(size);
    let nodes = carved(slab as int, size as int, slab_size as int);
    let all = with_slab(objects, slab, class);
    lemma_served_class_size(class);
    lemma_carved(slab as int, size as int, slab_size as int);
    // An object of the slab lies in the slab; an old object does not.
    assert forall|a: usize| #[trigger] all.contains_key(a) implies {
        &&& a == slab || nodes.contains(a) ==> slab <= a && a + size <= slab + slab_size && all[a]
            == class
        &&& !(a == slab || nodes.contains(a)) ==> objects.contains_key(a) && all[a] == objects[a]
        &&& objects.contains_key(a) ==> 0 < pow2(objects[a]) && disjoint(
            a as int,
            pow2(objects[a]) as int,
            slab as int,
            slab_size as int,
        )
    } by {
        if nodes.contains(a) {
            let j = choose|j: int| 0 <= j < nodes.len() && nodes[j] == a;
            assert(nodes[j] == a);
        }
        if objects.contains_key(a) {
            lemma_served_class_size(objects[a]);
            lemma_covered_fresh_disjoint(
                granted,
                a as int,
                pow2(objects[a]) as int,
                slab as int,
                slab_size as int,
            );
        }
    }
    assert forall|a: usize| #[trigger] objects.contains_key(a) implies all[a] == objects[a] by {
        assert(all.contains_key(a));
    }
    assert forall|a: usize, b: usize|
        #![trigger all.contains_key(a), all.contains_key(b)]
        all.contains_key(a) && all.contains_key(b) && a != b implies disjoint(
        a as int,
        pow2(all[a]) as int,
        b as int,
        pow2(all[b]) as int,
    ) by {
        let a_new = a == slab || nodes.contains(a);
        let b_new = b == slab || nodes.contains(b);
        if a_new && b_new {
            if a != slab && b != slab {
                let i = choose|i: int| 0 <= i < nodes.len() && nodes[i] == a;
                let j = choose|j: int| 0 <= j < nodes.len() && nodes[j] == b;
                assert(nodes[i] == a && nodes[j] == b);
                if i < j {
                    assert(nodes[i] + size <= nodes[j]);
                } else {
                    assert(nodes[j] + size <= nodes[i]);
                }
            } else if a != slab {
                let i = choose|i: int| 0 <= i < nodes.len() && nodes[i] == a;
                assert(nodes[i] == a);
            } else {
                let j = choose|j: int| 0 <= j < nodes.len() && nodes[j] == b;
                assert(nodes[j] == b);
            }
        } else if !a_new && !b_new {
            assert(objects.contains_key(a) && objects.contains_key(b));
        }
    }
}

// Why the operations keep the allocator consistent.
impl<Base: Allocator> SlamAllocator<Base> {
    /// `post` is a memory of the same size in which every object but `x` and
    /// `y` holds the bytes it holds now.
    spec fn others_kept(&self, post: Seq<u8>, x: usize, y: usize) -> bool {
        &&& post.len() == self.memory@.len()
        &&& forall|a: usize| #[trigger]
            self.objects@.contains_key(a) && a != x && a != y ==> same_within(
                self.memory@,
                post,
                a as int,
                a + pow2(self.objects@[a]),
            )
    }

    /// Where only bytes inside two objects change, or inside one, the other
    /// being no object but the null link, every other object holds the bytes
    /// it held.
    proof fn lemma_others_kept(&self, post: Seq<u8>, x: usize, y: usize)
        requires
            self.inv(),
            self.objects@.contains_key(x),
            y == NULL || self.objects@.contains_key(y),
            same_outside_two(
                self.memory@,
                post,
                x as int,
                x + pow2(self.objects@[x]),
                y as int,
                y + FREE_NODE_SIZE,
            ),
        ensures
            self.others_kept(post, x, y),
    {
        reveal(objects_apart);
        self.memory.lemma_len_bounded();
        let pre = self.memory@;
        assert forall|a: usize| #[trigger]
            self.objects@.contains_key(a) && a != x && a != y implies same_within(
            pre,
            post,
            a as int,
            a + pow2(self.objects@[a]),
        ) by {
            lemma_served_class_size(self.objects@[a]);
            lemma_served_class_size(self.objects@[x]);
            if y != NULL {
                lemma_served_class_size(self.objects@[y]);
            }
        }
    }

    /// A cache none of whose nodes is `x` or `y` holds its free lists in
    /// `post` as it does in the memory.
    proof fn lemma_cache_kept(&self, post: Seq<u8>, x: usize, y: usize, k: int)
        requires
            self.inv(),
            self.others_kept(post, x, y),
            0 <= k < CACHE_COUNT,
            forall|cpu: int, j: int|
                self.caches@[k].has(cpu, j) ==> (#[trigger] self.caches@[k].list(cpu)[j]) != x
                    && self.caches@[k].list(cpu)[j] != y,
        ensures
            self.caches@[k].wf(post),
    {
        let cache = self.caches@[k];
        assert(cache.wf(self.memory@));
        cache.lemma_object_size();
        assert forall|cpu: int, j: int| cache.has(cpu, j) implies same_within(
            self.memory@,
            post,
            #[trigger] cache.list(cpu)[j] as int,
            cache.list(cpu)[j] + cache.object_size(),
        ) by {
            let a = self.caches@[k].list(cpu)[j];
            assert(self.objects@.contains_key(a));
        }
        cache.lemma_wf_same(self.memory@, post);
    }

    /// A live allocation whose object is neither `x` nor `y` has in `post`
    /// the header and the contents that it has in the memory.
    proof fn lemma_live_kept(&self, post: Seq<u8>, x: usize, y: usize, p: usize)
        requires
            self.inv(),
            self.others_kept(post, x, y),
            self.live@.contains_key(p),
            node_of(p) != x,
            node_of(p) != y,
        ensures
            UsedNode::at(post, node_of(p) as int) == UsedNode::at(self.memory@, node_of(p) as int),
            post.subrange(p as int, p + capacity(self.live@[p])) == self.memory@.subrange(
                p as int,
                p + capacity(self.live@[p]),
            ),
    {
        let a = node_of(p);
        assert(self.objects@.contains_key(a));
        lemma_served_class_size(self.objects@[a]);
        lemma_word_same(self.memory@, post, a as int);
        assert(post.subrange(p as int, p + capacity(self.live@[p])) =~= self.memory@.subrange(
            p as int,
            p + capacity(self.live@[p]),
        ));
    }

    /// The objects stay sound where those that there were keep their class,
    /// every new one is sound, the memory keeps its size and nothing granted
    /// is taken back.
    proof fn lemma_objects_sound_kept(&self, after: Self)
        requires
            self.objects_sound(),
            after.memory@.len() == self.memory@.len(),
            forall|a: int|
                self.base.granted().contains(a) ==> #[trigger] after.base.granted().contains(a),
            forall|a: usize| #[trigger]
                after.objects@.contains_key(a) ==> {
                    ||| self.objects@.contains_key(a) && after.objects@[a] == self.objects@[a]
                    ||| {
                        &&& is_served_class(after.objects@[a])
                        &&& a + pow2(after.objects@[a]) <= after.memory@.len()
                        &&& covers(
                            after.base.granted(),
                            a as int,
                            pow2(after.objects@[a]) as int,
                        )
                    }
                },
        ensures
            after.objects_sound(),
    {
    }

    /// The caches stay sound where all but one are left as they are, that
    /// one holds its lists in the new memory, and the two objects in which
    /// bytes may have changed are nodes of its lists or live, or are no
    /// object but the null link.
    proof fn lemma_caches_sound_kept(&self, after: Self, x: usize, y: usize, changed: int)
        requires
            self.inv(),
            self.others_kept(after.memory@, x, y),
            after.caches@.len() == self.caches@.len(),
            forall|k: int|
                0 <= k < CACHE_COUNT && k != changed ==> #[trigger] after.caches@[k]
                    == self.caches@[k],
            0 <= changed < CACHE_COUNT ==> after.caches@[changed].wf(after.memory@)
                && after.caches@[changed].class() == changed,
            x == NULL || (self.objects@.contains_key(x) && (self.objects@[x] == changed
                || self.live@.contains_key(data_of(x)))),
            y == NULL || (self.objects@.contains_key(y) && (self.objects@[y] == changed
                || self.live@.contains_key(data_of(y)))),
        ensures
            after.caches_sound(),
    {
        let post = after.memory@;
        self.memory.lemma_len_bounded();
        assert forall|k: int| 0 <= k < CACHE_COUNT implies (#[trigger] after.caches@[k]).wf(post)
            && after.caches@[k].class() == k by {
            if k != changed {
                assert forall|c: int, j: int| self.caches@[k].has(c, j) implies (
                #[trigger] self.caches@[k].list(c)[j]) != x && self.caches@[k].list(c)[j]
                    != y by {
                    let b = self.caches@[k].list(c)[j];
                    assert(self.objects@.contains_key(b) && self.objects@[b] == k);
                    lemma_served_class_size(self.objects@[b]);
                }
                self.lemma_cache_kept(post, x, y, k);
            }
        }
    }

    /// The free lists stay sound where one list drops its first nodes and
    /// gets new ones in front, the new ones are objects of its class and not
    /// live, and none of the nodes that stay has become live.
    proof fn lemma_lists_sound_kept(
        &self,
        after: Self,
        class: int,
        cpu: int,
        front: Seq<usize>,
        drop: int,
    )
        requires
            self.inv(),
            0 <= class < CACHE_COUNT,
            0 <= cpu < MAX_CPUS,
            0 <= drop <= self.caches@[class].list(cpu).len(),
            after.caches@.len() == self.caches@.len(),
            forall|k: int|
                0 <= k < CACHE_COUNT && k != class ==> #[trigger] after.caches@[k]
                    == self.caches@[k],
            forall|c: int|
                0 <= c < MAX_CPUS && c != cpu ==> #[trigger] after.caches@[class].list(c)
                    == self.caches@[class].list(c),
            after.caches@[class].list(cpu) == front + self.caches@[class].list(cpu).skip(drop),
            forall|a: usize| #[trigger]
                self.objects@.contains_key(a) ==> after.objects@.contains_key(a)
                    && after.objects@[a] == self.objects@[a],
            forall|j: int|
                0 <= j < front.len() ==> {
                    &&& after.objects@.contains_key(#[trigger] front[j])
                    &&& after.objects@[front[j]] == class
                    &&& !after.live@.contains_key(data_of(front[j]))
                },
            forall|k: int, c: int, j: int|
                0 <= k < CACHE_COUNT && self.caches@[k].has(c, j) && !(k == class && c == cpu
                    && j < drop) ==> !after.live@.contains_key(
                    data_of(#[trigger] self.caches@[k].list(c)[j]),
                ),
        ensures
            after.lists_sound(),
    {
        let n = front.len() as int;
        assert forall|k: int, c: int, j: int|
            0 <= k < CACHE_COUNT && after.caches@[k].has(c, j) implies {
            &&& after.objects@.contains_key(#[trigger] after.caches@[k].list(c)[j])
            &&& after.objects@[after.caches@[k].list(c)[j]] == k
            &&& !after.live@.contains_key(data_of(after.caches@[k].list(c)[j]))
        } by {
            let b = after.caches@[k].list(c)[j];
            if k == class && c == cpu {
                if j < n {
                    assert(b == front[j]);
                } else {
                    let i = j - n + drop;
                    assert(self.caches@[k].has(c, i));
                    assert(b == self.caches@[k].list(c)[i]);
                    assert(self.objects@.contains_key(b));
                }
            } else {
                assert(after.caches@[k].list(c) == self.caches@[k].list(c));
                assert(self.caches@[k].has(c, j));
                assert(b == self.caches@[k].list(c)[j]);
                assert(self.objects@.contains_key(b));
            }
        }
    }

    /// The live allocations stay sound, and keep their bytes, where each
    /// but `fresh` was live before with the same class, `fresh` follows the
    /// header of an object of its class, and the two objects in which bytes
    /// may have changed are not live, or are `fresh`'s, or are no object but
    /// the null link.
    proof fn lemma_live_sound_kept(&self, after: Self, x: usize, y: usize, fresh: usize)
        requires
            self.inv(),
            self.others_kept(after.memory@, x, y),
            forall|a: usize| #[trigger]
                self.objects@.contains_key(a) ==> after.objects@.contains_key(a)
                    && after.objects@[a] == self.objects@[a],
            forall|p: usize| #[trigger]
                after.live@.contains_key(p) && p != fresh ==> self.live@.contains_key(p)
                    && after.live@[p] == self.live@[p],
            after.live@.contains_key(fresh) ==> {
                &&& fresh >= HEADER_SIZE
                &&& after.objects@.contains_key(node_of(fresh))
                &&& after.objects@[node_of(fresh)] == after.live@[fresh]
                &&& UsedNode::at(after.memory@, node_of(fresh) as int).cache == after.live@[fresh]
            },
            x == NULL || !after.live@.contains_key(data_of(x)) || data_of(x) == fresh,
            y == NULL || !after.live@.contains_key(data_of(y)) || data_of(y) == fresh,
        ensures
            after.live_sound(),
            forall|p: usize|
                self.live().contains_key(p) && after.live().contains_key(p) && p != fresh
                    ==> #[trigger] after.contents(p) == self.contents(p),
    {
        let post = after.memory@;
        self.memory.lemma_len_bounded();
        assert forall|p: usize| after.live@.contains_key(p) && p != fresh implies {
            &&& node_of(p) != x
            &&& node_of(p) != y
            &&& self.objects@.contains_key(node_of(p))
        } by {
            assert(self.live@.contains_key(p));
            lemma_served_class_size(self.objects@[node_of(p)]);
        }
        assert forall|p: usize| #[trigger] after.live@.contains_key(p) implies {
            &&& p >= HEADER_SIZE
            &&& after.objects@.contains_key(node_of(p))
            &&& after.objects@[node_of(p)] == after.live@[p]
            &&& UsedNode::at(post, node_of(p) as int).cache == after.live@[p]
        } by {
            if p != fresh {
                self.lemma_live_kept(post, x, y, p);
            }
        }
        assert forall|p: usize|
            self.live().contains_key(p) && after.live().contains_key(p) && p != fresh implies
            #[trigger] after.contents(p) == self.contents(p) by {
            self.lemma_live_kept(post, x, y, p);
        }
    }

    /// Taking the first node of a free list, as the cache does it, leaves
    /// the allocator consistent.
    proof fn lemma_taken_popped(&self, after: Self, cpu: int, class: int)
        requires
            self.inv(),
            0 <= cpu < MAX_CPUS,
            is_served_class(class as nat),
            self.free_list(class, cpu).len() > 0,
            after.base == self.base,
            after.objects@ == self.objects@,
            after.live@ == self.live@.insert(
                data_of(self.free_list(class, cpu)[0]),
                class as nat,
            ),
            after.caches@.len() == self.caches@.len(),
            forall|k: int|
                0 <= k < CACHE_COUNT && k != class ==> #[trigger] after.caches@[k]
                    == self.caches@[k],
            ({
                let before = self.caches@[class];
                let cache = after.caches@[class];
                let node = before.list(cpu)[0];
                &&& cache.wf(after.memory@)
                &&& cache.class() == before.class()
                &&& cache.object_size() == before.object_size()
                &&& cache.list(cpu) == before.list(cpu).drop_first()
                &&& forall|c: int|
                    0 <= c < MAX_CPUS && c != cpu ==> #[trigger] cache.list(c) == before.list(c)
                &&& same_outside(self.memory@, after.memory@, node as int, node + HEADER_SIZE)
                &&& UsedNode::at(after.memory@, node as int).cache == class
                &&& cache.apart_from(node as int)
            }),
        ensures
            after.inv(),
            Self::allocated_from(
                *self,
                cpu,
                class,
                after,
                Ok(data_of(self.free_list(class, cpu)[0])),
            ),
    {
        let before = self.caches@[class];
        let node = before.list(cpu)[0];
        let ptr = data_of(node);
        let post = after.memory@;
        self.memory.lemma_len_bounded();
        assert(before.wf(self.memory@));
        assert(before.has(cpu, 0));
        assert(self.objects@.contains_key(node));
        lemma_served_class_size(class as nat);
        self.lemma_others_kept(post, node, NULL);
        self.lemma_objects_sound_kept(after);
        self.lemma_caches_sound_kept(after, node, NULL, class);
        // No node that stays on a list is the one taken.
        assert forall|k: int, c: int, j: int|
            0 <= k < CACHE_COUNT && self.caches@[k].has(c, j) && !(k == class && c == cpu && j
                < 1) implies !after.live@.contains_key(
            data_of(#[trigger] self.caches@[k].list(c)[j]),
        ) by {
            self.lemma_free_nodes_distinct(k, c, j, class, cpu, 0);
            self.lemma_free_node_bounds(k, c, j);
        }
        assert(before.list(cpu).drop_first() =~= Seq::<usize>::empty() + before.list(cpu).skip(1));
        self.lemma_lists_sound_kept(after, class, cpu, Seq::empty(), 1);
        self.lemma_live_sound_kept(after, node, NULL, ptr);

    }

    /// Carving a fresh slab and taking its first object, as the cache does
    /// it, leaves the allocator consistent.
    proof fn lemma_taken_carved(&self, after: Self, cpu: int, class: int)
        requires
            self.inv(),
            0 <= cpu < MAX_CPUS,
            is_served_class(class as nat),
            self.free_list(class, cpu).len() == 0,
            self.base.grant(slab_size_of(pow2(class as nat))) is Some,
            after.base == self.base.after_grant(slab_size_of(pow2(class as nat))),
            after.objects@ == with_slab(
                self.objects@,
                self.base.grant(slab_size_of(pow2(class as nat)))->0,
                class as nat,
            ),
            after.live@ == self.live@.insert(
                data_of(self.base.grant(slab_size_of(pow2(class as nat)))->0),
                class as nat,
            ),
            after.caches@.len() == self.caches@.len(),
            forall|k: int|
                0 <= k < CACHE_COUNT && k != class ==> #[trigger] after.caches@[k]
                    == self.caches@[k],
            ({
                let before = self.caches@[class];
                let cache = after.caches@[class];
                let slab_size = slab_size_of(pow2(class as nat));
                let slab = self.base.grant(slab_size)->0;
                &&& cache.wf(after.memory@)
                &&& cache.class() == before.class()
                &&& cache.object_size() == before.object_size()
                &&& cache.list(cpu) == carved(
                    slab as int,
                    pow2(class as nat) as int,
                    slab_size as int,
                )
                &&& forall|c: int|
                    0 <= c < MAX_CPUS && c != cpu ==> #[trigger] cache.list(c) == before.list(c)
                &&& same_outside(self.memory@, after.memory@, slab as int, slab + slab_size)
                &&& UsedNode::at(after.memory@, slab as int).cache == class
                &&& cache.list(cpu).len() > 0 ==> FreeNode::at(
                    after.memory@,
                    cache.list(cpu)[0] as int,
                ).prev == NULL
            }),
        ensures
            after.inv(),
            Self::allocated_from(
                *self,
                cpu,
                class,
                after,
                Ok(data_of(self.base.grant(slab_size_of(pow2(class as nat)))->0)),
            ),
    {
        let before = self.caches@[class];
        let size = pow2(class as nat);
        let slab_size = slab_size_of(size);
        let slab = self.base.grant(slab_size)->0;
        let nodes = carved(slab as int, size as int, slab_size as int);
        let ptr = data_of(slab);
        let pre = self.memory@;
        let post = after.memory@;
        let granted = self.base.granted();
        self.memory.lemma_len_bounded();
        self.base.lemma_grant(slab_size);
        lemma_served_class_size(class as nat);
        lemma_carved(slab as int, size as int, slab_size as int);
        lemma_slab_added(self.objects@, granted, slab, class as nat);
        assert(before.wf(pre));
        // Every object there was still holds its bytes, and is neither the
        // slab's first object nor one carved from it: the slab is new.
        assert forall|a: usize| #[trigger] self.objects@.contains_key(a) implies same_within(
            pre,
            post,
            a as int,
            a + pow2(self.objects@[a]),
        ) && disjoint(a as int, pow2(self.objects@[a]) as int, slab as int, slab_size as int) by {
            lemma_served_class_size(self.objects@[a]);
            lemma_covered_fresh_disjoint(
                granted,
                a as int,
                pow2(self.objects@[a]) as int,
                slab as int,
                slab_size as int,
            );
        }
        assert(self.others_kept(post, NULL, NULL));
        assert forall|a: usize| #[trigger] after.objects@.contains_key(a) implies {
            ||| self.objects@.contains_key(a) && after.objects@[a] == self.objects@[a]
            ||| {
                &&& is_served_class(after.objects@[a])
                &&& a + pow2(after.objects@[a]) <= post.len()
                &&& covers(after.base.granted(), a as int, pow2(after.objects@[a]) as int)
            }
        } by {
            if !self.objects@.contains_key(a) && a != slab {
                let j = choose|j: int| 0 <= j < nodes.len() && nodes[j] == a;
                assert(nodes[j] == a);
            }
        }
        self.lemma_objects_sound_kept(after);
        self.lemma_caches_sound_kept(after, NULL, NULL, class);
        if self.live@.contains_key(ptr) {
            assert(self.objects@.contains_key(node_of(ptr)));
        }
        assert forall|k: int, c: int, j: int|
            0 <= k < CACHE_COUNT && self.caches@[k].has(c, j) implies !after.live@.contains_key(
            data_of(#[trigger] self.caches@[k].list(c)[j]),
        ) by {
            let b = self.caches@[k].list(c)[j];
            assert(self.objects@.contains_key(b));
            lemma_served_class_size(self.objects@[b]);
        }
        assert forall|j: int| 0 <= j < nodes.len() implies {
            &&& after.objects@.contains_key(#[trigger] nodes[j])
            &&& after.objects@[nodes[j]] == class
            &&& !after.live@.contains_key(data_of(nodes[j]))
        } by {
            let b = nodes[j];
            assert(nodes.contains(b));
            if self.live@.contains_key(data_of(b)) {
                assert(self.objects@.contains_key(node_of(data_of(b))));
            }
        }
        assert(before.list(cpu).skip(0) =~= before.list(cpu));
        assert(nodes =~= nodes + before.list(cpu).skip(0));
        self.lemma_lists_sound_kept(after, class, cpu, nodes, 0);
        assert(after.objects@.contains_key(slab));
        self.lemma_live_sound_kept(after, NULL, NULL, ptr);

    }

    /// Pushing the object of a live allocation onto a free list of its
    /// class, as the cache does it, leaves the allocator consistent.
    proof fn lemma_freed(&self, after: Self, cpu: int, ptr: usize)
        requires
            self.inv(),
            0 <= cpu < MAX_CPUS,
            self.live@.contains_key(ptr),
            after.base == self.base,
            after.objects@ == self.objects@,
            after.live@ == self.live@.remove(ptr),
            after.caches@.len() == self.caches@.len(),
            forall|k: int|
                0 <= k < CACHE_COUNT && k != self.live@[ptr] ==> #[trigger] after.caches@[k]
                    == self.caches@[k],
            ({
                let class = self.live@[ptr] as int;
                let before = self.caches@[class];
                let cache = after.caches@[class];
                &&& cache.wf(after.memory@)
                &&& cache.class() == before.class()
                &&& cache.object_size() == before.object_size()
                &&& cache.list(cpu) == seq![node_of(ptr)] + before.list(cpu)
                &&& forall|c: int|
                    0 <= c < MAX_CPUS && c != cpu ==> #[trigger] cache.list(c) == before.list(c)
                &&& FreeNode::at(after.memory@, node_of(ptr) as int) == (FreeNode {
                    next: before.head(cpu),
                    prev: NULL,
                })
                &&& same_outside_two(
                    self.memory@,
                    after.memory@,
                    node_of(ptr) as int,
                    node_of(ptr) + FREE_NODE_SIZE,
                    before.head(cpu) as int,
                    before.head(cpu) + FREE_NODE_SIZE,
                )
            }),
        ensures
            after.inv(),
            Self::freed(*self, cpu, ptr, after),
    {
        let class = self.live@[ptr] as int;
        let node = node_of(ptr);
        let before = self.caches@[class];
        let head = before.head(cpu);
        let post = after.memory@;
        self.memory.lemma_len_bounded();
        assert(before.wf(self.memory@));
        assert(self.objects@.contains_key(node));
        lemma_served_class_size(self.objects@[node]);
        if before.list(cpu).len() > 0 {
            assert(before.has(cpu, 0));
            assert(self.objects@.contains_key(before.list(cpu)[0]));
        }
        self.lemma_others_kept(post, node, head);
        self.lemma_objects_sound_kept(after);
        self.lemma_caches_sound_kept(after, node, head, class);
        assert(before.list(cpu).skip(0) =~= before.list(cpu));
        self.lemma_lists_sound_kept(after, class, cpu, seq![node], 0);
        self.lemma_live_sound_kept(after, node, head, ptr);

    }

    /// Writing inside the data of a live allocation leaves the allocator
    /// consistent.
    proof fn lemma_written(&self, after: Self, ptr: usize, data: Seq<u8>)
        requires
            self.inv(),
            self.live@.contains_key(ptr),
            data.len() <= capacity(self.live@[ptr]),
            after.base == self.base,
            after.objects@ == self.objects@,
            after.live@ == self.live@,
            after.caches@ == self.caches@,
            after.memory@.len() == self.memory@.len(),
            after.memory@.subrange(ptr as int, ptr + data.len()) == data,
            same_outside(self.memory@, after.memory@, ptr as int, ptr + data.len()),
        ensures
            after.inv(),
            Self::written(*self, ptr, data, after),
    {
        let node = node_of(ptr);
        let post = after.memory@;
        let pre = self.memory@;
        self.memory.lemma_len_bounded();
        assert(self.objects@.contains_key(node));
        lemma_served_class_size(self.objects@[node]);
        self.lemma_others_kept(post, node, NULL);
        self.lemma_objects_sound_kept(after);
        self.lemma_caches_sound_kept(after, node, NULL, CACHE_COUNT as int);
        lemma_word_same(pre, post, node as int);
        self.lemma_live_sound_kept(after, node, NULL, ptr);
        assert(after.contents(ptr) =~= data + self.contents(ptr).skip(data.len() as int));

    }
}

} // verus!
