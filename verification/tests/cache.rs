use slam::cache::{Cache, MAX_CPUS};
use slam::heap::LinearAllocator;
use slam::memory::Memory;
use slam::node::{FreeNode, UsedNode, NULL};
use slam::slab::{SLAB_MINIMUM_SIZE, SLAB_SIZE};

fn arena(size: usize) -> (LinearAllocator, Memory) {
    (LinearAllocator::new(size), Memory::new(size))
}

#[test]
fn slab_constants() {
    assert_eq!(SLAB_SIZE, 1);
    assert_eq!(SLAB_MINIMUM_SIZE, 4096);
    assert_eq!(MAX_CPUS, 8);
}

#[test]
fn new_cache_has_empty_lists() {
    let (_, mem) = arena(4096);
    for class in [0usize, 5, 12, 31] {
        let cache = Cache::new(class);
        assert_eq!(cache.object_size(), 1usize << class);
        for cpu in 0..MAX_CPUS {
            assert_eq!(cache.free_nodes(&mem, cpu), Vec::<usize>::new());
        }
    }
}

#[test]
fn slab_size_is_at_least_the_minimum() {
    let cache = Cache::new(6);
    assert_eq!(cache.slab_size(1), 4096);
    assert_eq!(cache.slab_size(64), 4096);
    assert_eq!(cache.slab_size(4095), 4096);
    assert_eq!(cache.slab_size(4096), 4096);
    assert_eq!(cache.slab_size(4097), 4097);
    assert_eq!(cache.slab_size(8192), 8192);
    assert_eq!(cache.slab_size(1 << 31), 1 << 31);
}

#[test]
fn free_slab_changes_nothing() {
    let (mut base, mut mem) = arena(8192);
    let mut cache = Cache::new(10);
    let node = cache.allocate(&mut base, &mut mem, 0, 1024).unwrap();
    let before = cache.free_nodes(&mem, 0);
    cache.free_slab(node);
    assert_eq!(cache.free_nodes(&mem, 0), before);
    assert_eq!(base.offset, 4096);
}

#[test]
fn alloc_slab_carves_all_but_the_first_object() {
    let (mut base, mut mem) = arena(8192);
    let mut cache = Cache::new(10);
    let slab = cache.alloc_slab(&mut base, &mut mem, 2, 1024);
    assert_eq!(slab, Some(0));
    assert_eq!(base.offset, 4096);
    assert_eq!(cache.free_nodes(&mem, 2), vec![1024usize, 2048, 3072]);
    for cpu in 0..MAX_CPUS {
        if cpu != 2 {
            assert_eq!(cache.free_nodes(&mem, cpu), Vec::<usize>::new());
        }
    }
    assert_eq!(FreeNode::load(&mem, 1024), FreeNode { next: 2048, prev: NULL });
    assert_eq!(FreeNode::load(&mem, 2048), FreeNode { next: 3072, prev: 1024 });
    assert_eq!(FreeNode::load(&mem, 3072), FreeNode { next: NULL, prev: 2048 });
    // The first object is not touched.
    assert_eq!(mem.read(0, 1024), vec![0u8; 1024]);
}

#[test]
fn alloc_slab_splices_in_front_of_the_list() {
    let (mut base, mut mem) = arena(3 * 4096);
    let mut cache = Cache::new(11);
    assert_eq!(cache.alloc_slab(&mut base, &mut mem, 0, 2048), Some(0));
    assert_eq!(cache.free_nodes(&mem, 0), vec![2048usize]);
    assert_eq!(cache.alloc_slab(&mut base, &mut mem, 0, 2048), Some(4096));
    assert_eq!(cache.free_nodes(&mem, 0), vec![6144usize, 2048]);
    assert_eq!(FreeNode::load(&mem, 6144).next, 2048);
    assert_eq!(FreeNode::load(&mem, 2048), FreeNode { next: NULL, prev: 6144 });
    assert_eq!(cache.alloc_slab(&mut base, &mut mem, 1, 2048), Some(8192));
    assert_eq!(cache.free_nodes(&mem, 1), vec![10240usize]);
    assert_eq!(cache.free_nodes(&mem, 0), vec![6144usize, 2048]);
}

#[test]
fn alloc_slab_of_one_object_links_nothing() {
    let (mut base, mut mem) = arena(3 * 8192);
    let mut page = Cache::new(12);
    assert_eq!(page.alloc_slab(&mut base, &mut mem, 0, 4096), Some(0));
    assert_eq!(page.free_nodes(&mem, 0), Vec::<usize>::new());
    assert_eq!(base.offset, 4096);
    let mut large = Cache::new(13);
    assert_eq!(large.alloc_slab(&mut base, &mut mem, 0, 8192), Some(4096));
    assert_eq!(large.free_nodes(&mem, 0), Vec::<usize>::new());
    assert_eq!(base.offset, 4096 + 8192);
    assert_eq!(mem.read(0, 3 * 8192), vec![0u8; 3 * 8192]);
}

#[test]
fn alloc_slab_fails_when_base_is_exhausted() {
    let (mut base, mut mem) = arena(6000);
    let mut cache = Cache::new(9);
    assert_eq!(cache.alloc_slab(&mut base, &mut mem, 0, 512), Some(0));
    let before = cache.free_nodes(&mem, 0);
    let bytes = mem.read(0, 6000);
    assert_eq!(cache.alloc_slab(&mut base, &mut mem, 0, 512), None);
    assert_eq!(cache.free_nodes(&mem, 0), before);
    assert_eq!(mem.read(0, 6000), bytes);
    assert_eq!(base.offset, 4096);
}

#[test]
fn allocate_takes_first_object_of_new_slab() {
    let (mut base, mut mem) = arena(8192);
    let mut cache = Cache::new(7);
    let node = cache.allocate(&mut base, &mut mem, 3, 128);
    assert_eq!(node, Some(0));
    assert_eq!(UsedNode::load(&mem, 0), UsedNode { cache: 7 });
    let expected: Vec<usize> = (1..32).map(|j| j * 128).collect();
    assert_eq!(cache.free_nodes(&mem, 3), expected);
    assert_eq!(cache.free_nodes(&mem, 0), Vec::<usize>::new());
}

#[test]
fn allocate_pops_the_head() {
    let (mut base, mut mem) = arena(8192);
    let mut cache = Cache::new(10);
    assert_eq!(cache.allocate(&mut base, &mut mem, 0, 1024), Some(0));
    assert_eq!(cache.allocate(&mut base, &mut mem, 0, 1024), Some(1024));
    assert_eq!(UsedNode::load(&mem, 1024).cache, 10);
    assert_eq!(cache.free_nodes(&mem, 0), vec![2048usize, 3072]);
    assert_eq!(cache.allocate(&mut base, &mut mem, 0, 1024), Some(2048));
    assert_eq!(cache.allocate(&mut base, &mut mem, 0, 1024), Some(3072));
    assert_eq!(cache.free_nodes(&mem, 0), Vec::<usize>::new());
    assert_eq!(base.offset, 4096);
    // The list is empty again: the next object comes from a new slab.
    assert_eq!(cache.allocate(&mut base, &mut mem, 0, 1024), Some(4096));
    assert_eq!(base.offset, 8192);
}

#[test]
fn allocate_fails_when_list_is_empty_and_base_exhausted() {
    let (mut base, mut mem) = arena(4096);
    let mut cache = Cache::new(11);
    assert_eq!(cache.allocate(&mut base, &mut mem, 0, 2048), Some(0));
    // Processor 1 has an empty list and no slab is left for it.
    assert_eq!(cache.allocate(&mut base, &mut mem, 1, 2048), None);
    assert_eq!(cache.free_nodes(&mem, 0), vec![2048usize]);
    // Processor 0 still has its node.
    assert_eq!(cache.allocate(&mut base, &mut mem, 0, 2048), Some(2048));
    assert_eq!(cache.allocate(&mut base, &mut mem, 0, 2048), None);
}

#[test]
fn free_pushes_in_front() {
    let (mut base, mut mem) = arena(4096);
    let mut cache = Cache::new(10);
    let a = cache.allocate(&mut base, &mut mem, 0, 1024).unwrap();
    let b = cache.allocate(&mut base, &mut mem, 0, 1024).unwrap();
    assert_eq!((a, b), (0, 1024));
    cache.free(&mut mem, 0, a);
    assert_eq!(cache.free_nodes(&mem, 0), vec![0usize, 2048, 3072]);
    assert_eq!(FreeNode::load(&mem, 0), FreeNode { next: 2048, prev: NULL });
    assert_eq!(FreeNode::load(&mem, 2048).prev, 0);
    cache.free(&mut mem, 0, b);
    assert_eq!(cache.free_nodes(&mem, 0), vec![1024usize, 0, 2048, 3072]);
    assert_eq!(FreeNode::load(&mem, 1024), FreeNode { next: 0, prev: NULL });
    assert_eq!(FreeNode::load(&mem, 0), FreeNode { next: 2048, prev: 1024 });
}

#[test]
fn free_onto_an_empty_list() {
    let (mut base, mut mem) = arena(4096);
    let mut cache = Cache::new(12);
    let a = cache.allocate(&mut base, &mut mem, 0, 4096).unwrap();
    assert_eq!(cache.free_nodes(&mem, 0), Vec::<usize>::new());
    cache.free(&mut mem, 5, a);
    assert_eq!(cache.free_nodes(&mem, 5), vec![0usize]);
    assert_eq!(cache.free_nodes(&mem, 0), Vec::<usize>::new());
    assert_eq!(FreeNode::load(&mem, 0), FreeNode { next: NULL, prev: NULL });
    assert_eq!(cache.allocate(&mut base, &mut mem, 5, 4096), Some(0));
    assert_eq!(cache.free_nodes(&mem, 5), Vec::<usize>::new());
}

#[test]
fn pop_leaves_backward_link_of_new_head() {
    let (mut base, mut mem) = arena(4096);
    let mut cache = Cache::new(10);
    cache.allocate(&mut base, &mut mem, 0, 1024).unwrap();
    cache.allocate(&mut base, &mut mem, 0, 1024).unwrap();
    // 2048 is the head now. Its backward link still names the node that
    // was taken; only the links behind the head are kept up.
    assert_eq!(cache.free_nodes(&mem, 0), vec![2048usize, 3072]);
    assert_eq!(FreeNode::load(&mem, 2048).prev, 1024);
    assert_eq!(FreeNode::load(&mem, 3072).prev, 2048);
}

#[test]
fn smallest_objects_hold_exactly_the_two_links() {
    let (mut base, mut mem) = arena(4096);
    let mut cache = Cache::new(4);
    assert_eq!(cache.object_size(), 16);
    assert_eq!(cache.allocate(&mut base, &mut mem, 0, 16), Some(0));
    let nodes = cache.free_nodes(&mem, 0);
    assert_eq!(nodes.len(), 255);
    for (j, &node) in nodes.iter().enumerate() {
        assert_eq!(node, 16 * (j + 1));
    }
    assert_eq!(FreeNode::load(&mem, 16), FreeNode { next: 32, prev: NULL });
    assert_eq!(FreeNode::load(&mem, 32), FreeNode { next: 48, prev: 16 });
    assert_eq!(FreeNode::load(&mem, 4080), FreeNode { next: NULL, prev: 4064 });
    cache.free(&mut mem, 0, 0);
    assert_eq!(FreeNode::load(&mem, 0), FreeNode { next: 16, prev: NULL });
    assert_eq!(FreeNode::load(&mem, 16), FreeNode { next: 32, prev: 0 });
    assert_eq!(cache.free_nodes(&mem, 0).len(), 256);
    assert_eq!(cache.allocate(&mut base, &mut mem, 0, 16), Some(0));
    assert_eq!(UsedNode::load(&mem, 0).cache, 4);
    assert_eq!(cache.free_nodes(&mem, 0), nodes);
}

#[test]
fn free_after_pop_restores_the_list() {
    let (mut base, mut mem) = arena(4096);
    let mut cache = Cache::new(9);
    cache.allocate(&mut base, &mut mem, 0, 512).unwrap();
    let before = cache.free_nodes(&mem, 0);
    let node = cache.allocate(&mut base, &mut mem, 0, 512).unwrap();
    assert_eq!(node, before[0]);
    cache.free(&mut mem, 0, node);
    assert_eq!(cache.free_nodes(&mem, 0), before);
    assert_eq!(FreeNode::load(&mem, node), FreeNode { next: before[1], prev: NULL });
}

#[test]
fn one_object_slab_leaves_memory_as_it_was() {
    let (mut base, mut mem) = arena(3 * 4096);
    let mut cache = Cache::new(12);
    let a = cache.allocate(&mut base, &mut mem, 0, 4096).unwrap();
    cache.free(&mut mem, 0, a);
    mem.write(a + 8, &[7, 7, 7, 7, 7, 7, 7, 7]);
    let bytes = mem.read(0, 3 * 4096);
    // The list has a head; a slab of one object is not put in front of it.
    assert_eq!(cache.alloc_slab(&mut base, &mut mem, 0, 4096), Some(4096));
    assert_eq!(mem.read(0, 3 * 4096), bytes);
    assert_eq!(cache.free_nodes(&mem, 0), vec![a]);
}
