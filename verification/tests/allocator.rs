use slam::cache::MAX_CPUS;
use slam::class::{class_for, CACHE_COUNT, HEADER_SIZE};
use slam::heap::LinearAllocator;
use slam::memory::Memory;
use slam::slam::{AllocError, SlamAllocator};

const MB: usize = 1024 * 1024;

fn allocator(size: usize) -> SlamAllocator<LinearAllocator> {
    SlamAllocator::new(LinearAllocator::new(size), Memory::new(size))
}

fn pattern(len: usize, seed: u8) -> Vec<u8> {
    (0..len).map(|i| (i as u8).wrapping_mul(31).wrapping_add(seed)).collect()
}

#[test]
fn new_allocator_has_empty_lists() {
    let a = allocator(4096);
    for class in 0..CACHE_COUNT {
        for cpu in 0..MAX_CPUS {
            assert_eq!(a.free_nodes(class, cpu), Vec::<usize>::new());
        }
    }
}

#[test]
fn first_allocation_follows_the_header() {
    let mut a = allocator(MB);
    assert_eq!(a.allocate(0, 100), Ok(8));
    assert_eq!(a.allocate(0, 100), Ok(128 + 8));
    // Another class takes the next slab.
    assert_eq!(a.allocate(0, 1000), Ok(4096 + 8));
    assert_eq!(a.allocate(0, 100), Ok(256 + 8));
}

#[test]
fn round_trip() {
    let mut a = allocator(4 * MB);
    let sizes = [0usize, 1, 7, 4095, 4096, 4097, 100_000, 1_000_000];
    let mut made: Vec<(usize, usize)> = Vec::new();
    for (i, &n) in sizes.iter().enumerate() {
        let p = a.allocate(i % MAX_CPUS, n).unwrap();
        let data = pattern(n, i as u8);
        a.write(p, &data);
        assert_eq!(a.read(p, n), data);
        let (min, max) = a.alloc_size_bounds(p);
        assert!(min <= n && n <= max);
        if n > 0 {
            assert!(min < n);
        }
        made.push((p, n));
    }
    // Everything written is still there after all the other allocations.
    for (i, &(p, n)) in made.iter().enumerate() {
        assert_eq!(a.read(p, n), pattern(n, i as u8));
    }
}

#[test]
fn size_bounds_are_exact() {
    let mut a = allocator(MB);
    let p = a.allocate(0, 100).unwrap();
    assert_eq!(a.alloc_size_bounds(p), (56, 120));
    let q = a.allocate(0, 0).unwrap();
    assert_eq!(a.alloc_size_bounds(q), (0, 8));
    let t = a.allocate(0, 9).unwrap();
    assert_eq!(a.alloc_size_bounds(t), (8, 24));
    let r = a.allocate(0, 4088).unwrap();
    assert_eq!(a.alloc_size_bounds(r), (2040, 4088));
    let s = a.allocate(0, 4089).unwrap();
    assert_eq!(a.alloc_size_bounds(s), (4088, 8184));
}

#[test]
fn size_bounds_bracket_the_smallest_requests() {
    let mut a = allocator(MB);
    for n in 0..=8usize {
        let p = a.allocate(0, n).unwrap();
        let (min, max) = a.alloc_size_bounds(p);
        assert_eq!((min, max), (0, 8));
        assert!(min <= n && n <= max);
        // Only the empty request is at the lower bound.
        assert_eq!(min < n, n > 0);
    }
    for n in 9..=24usize {
        let p = a.allocate(0, n).unwrap();
        let (min, max) = a.alloc_size_bounds(p);
        assert_eq!((min, max), (8, 24));
        assert!(min < n && n <= max);
    }
}

#[test]
fn empty_request_is_served_by_the_smallest_class() {
    let mut a = allocator(MB);
    assert_eq!(class_for(0), Some(4));
    assert_eq!(a.allocate(0, 0), Ok(8));
    // The rest of the slab is the free list of class 4: objects of 16 bytes.
    let nodes = a.free_nodes(4, 0);
    assert_eq!(nodes.len(), 255);
    assert_eq!(nodes[0], 16);
    assert_eq!(nodes[254], 4080);
    assert_eq!(a.allocate(0, 8), Ok(16 + 8));
    assert_eq!(a.allocate(0, 9), Ok(4096 + 8));
}

#[test]
fn whole_capacity_can_be_written() {
    let mut a = allocator(MB);
    let p = a.allocate(0, 1).unwrap();
    let q = a.allocate(0, 1).unwrap();
    let (_, max) = a.alloc_size_bounds(p);
    assert_eq!(max, 8);
    a.write(q, &pattern(max, 3));
    a.write(p, &pattern(max, 9));
    assert_eq!(a.read(p, max), pattern(max, 9));
    assert_eq!(a.read(q, max), pattern(max, 3));
    // Both headers are intact: the bounds are read from them.
    assert_eq!(a.alloc_size_bounds(p), (0, 8));
    assert_eq!(a.alloc_size_bounds(q), (0, 8));
}

#[test]
fn write_changes_only_the_bytes_given() {
    let mut a = allocator(MB);
    let p = a.allocate(0, 16).unwrap();
    a.write(p, &[1, 2, 3, 4, 5, 6, 7, 8]);
    a.write(p, &[9, 9]);
    assert_eq!(a.read(p, 8), vec![9u8, 9, 3, 4, 5, 6, 7, 8]);
    a.write(p, &[]);
    assert_eq!(a.read(p, 8), vec![9u8, 9, 3, 4, 5, 6, 7, 8]);
    assert_eq!(a.read(p, 0), Vec::<u8>::new());
}

#[test]
fn live_allocations_are_disjoint() {
    let mut a = allocator(4 * MB);
    let sizes = [0usize, 1, 24, 25, 100, 120, 121, 500, 4000, 4088, 4089, 5000, 70_000];
    let mut regions: Vec<(usize, usize)> = Vec::new();
    for round in 0..6 {
        for (i, &n) in sizes.iter().enumerate() {
            let p = a.allocate((i + round) % MAX_CPUS, n).unwrap();
            regions.push((p, n));
        }
    }
    for i in 0..regions.len() {
        for j in 0..i {
            let (p, n) = regions[i];
            let (q, m) = regions[j];
            assert_ne!(p, q);
            assert!(p + n <= q || q + m <= p, "{} {} overlaps {} {}", p, n, q, m);
            // Not even the objects with their headers overlap.
            let (_, pmax) = a.alloc_size_bounds(p);
            let (_, qmax) = a.alloc_size_bounds(q);
            assert!(p + pmax <= q - HEADER_SIZE || q + qmax <= p - HEADER_SIZE);
        }
    }
}

#[test]
fn freed_object_is_reused_first() {
    let mut a = allocator(MB);
    for &n in &[0usize, 30, 100, 1000, 4088, 5000] {
        let p = a.allocate(2, n).unwrap();
        a.free(2, p);
        assert_eq!(a.allocate(2, n), Ok(p));
    }
}

#[test]
fn reuse_is_by_size_class_not_by_size() {
    let mut a = allocator(MB);
    let p = a.allocate(0, 57).unwrap();
    a.free(0, p);
    // 57 and 120 both need an object of 128 bytes.
    assert_eq!(class_for(57), class_for(120));
    assert_eq!(a.allocate(0, 120), Ok(p));
    a.free(0, p);
    // 121 does not.
    let q = a.allocate(0, 121).unwrap();
    assert_ne!(q, p);
}

#[test]
fn free_list_is_last_in_first_out() {
    let mut a = allocator(MB);
    let p = a.allocate(0, 200).unwrap();
    let q = a.allocate(0, 200).unwrap();
    let r = a.allocate(0, 200).unwrap();
    a.free(0, p);
    a.free(0, r);
    a.free(0, q);
    assert_eq!(a.allocate(0, 200), Ok(q));
    assert_eq!(a.allocate(0, 200), Ok(r));
    assert_eq!(a.allocate(0, 200), Ok(p));
}

#[test]
fn freed_object_goes_to_the_freeing_processor() {
    let mut a = allocator(MB);
    let p = a.allocate(0, 1000).unwrap();
    assert_eq!(a.free_nodes(10, 0).len(), 3);
    assert_eq!(a.free_nodes(10, 1), Vec::<usize>::new());
    a.free(1, p);
    assert_eq!(a.free_nodes(10, 1), vec![p - HEADER_SIZE]);
    assert_eq!(a.free_nodes(10, 0).len(), 3);
    // Processor 0 does not see it; processor 1 gets it back.
    assert_ne!(a.allocate(0, 1000), Ok(p));
    assert_eq!(a.allocate(1, 1000), Ok(p));
}

#[test]
fn slab_of_one_object_leaves_list_empty() {
    let mut a = allocator(MB);
    // 4088 bytes and the header fill an object of 4096 bytes: one slab.
    let p = a.allocate(0, 4088).unwrap();
    assert_eq!(p, 8);
    assert_eq!(a.free_nodes(12, 0), Vec::<usize>::new());
    let q = a.allocate(0, 4088).unwrap();
    assert_eq!(q, 4096 + 8);
    assert_eq!(a.free_nodes(12, 0), Vec::<usize>::new());
    // Larger objects get a slab of their own size.
    let r = a.allocate(0, 10_000).unwrap();
    assert_eq!(r, 8192 + 8);
    assert_eq!(a.free_nodes(14, 0), Vec::<usize>::new());
    assert_eq!(a.allocate(0, 1), Ok(8192 + 16384 + 8));
}

#[test]
fn small_objects_share_a_slab() {
    let mut a = allocator(MB);
    for class in 4..12usize {
        let object = 1usize << class;
        let n = object - HEADER_SIZE;
        assert_eq!(class_for(n), Some(class));
        let p = a.allocate(0, n).unwrap();
        let slab = p - HEADER_SIZE;
        let nodes = a.free_nodes(class, 0);
        assert_eq!(nodes.len(), 4096 / object - 1);
        for (j, &node) in nodes.iter().enumerate() {
            assert_eq!(node, slab + (j + 1) * object);
        }
    }
}

#[test]
fn oversize_request_fails() {
    let mut a = allocator(MB);
    assert_eq!(a.allocate(0, (1 << 31) - 7), Err(AllocError::UnsupportedSize));
    assert_eq!(a.allocate(0, 1 << 31), Err(AllocError::UnsupportedSize));
    assert_eq!(a.allocate(0, usize::MAX), Err(AllocError::UnsupportedSize));
    assert_eq!(a.allocate(0, usize::MAX - 7), Err(AllocError::UnsupportedSize));
    // Nothing was taken from the base allocator.
    assert_eq!(a.allocate(0, 100), Ok(8));
}

#[test]
fn largest_class_is_supported_but_needs_memory() {
    let mut a = allocator(MB);
    assert_eq!(a.allocate(0, (1 << 31) - 8), Err(AllocError::OutOfMemory));
    assert_eq!(a.allocate(0, 100), Ok(8));
}

#[test]
fn cache_alloc_dispatches_on_the_class() {
    let mut a = allocator(MB);
    assert_eq!(a.cache_alloc(0, 7), Ok(8));
    assert_eq!(a.alloc_size_bounds(8), (56, 120));
    assert_eq!(a.cache_alloc(0, 32), Err(AllocError::UnsupportedSize));
    assert_eq!(a.cache_alloc(0, 64), Err(AllocError::UnsupportedSize));
    assert_eq!(a.cache_alloc(0, usize::MAX), Err(AllocError::UnsupportedSize));
    assert_eq!(a.cache_alloc_(0, 7), Ok(128 + 8));
    assert_eq!(a.cache_alloc_(1, 12), Ok(4096 + 8));
    // The smallest class that is served has objects of 16 bytes.
    assert_eq!(a.cache_alloc(2, 4), Ok(8192 + 8));
    assert_eq!(a.alloc_size_bounds(8192 + 8), (0, 8));
    assert_eq!(a.cache_alloc_(2, 4), Ok(8192 + 16 + 8));
    assert_eq!(a.free_nodes(4, 2).len(), 254);
}

#[test]
fn free_after_allocation_from_a_list_restores_it() {
    let mut a = allocator(MB);
    a.allocate(3, 300).unwrap();
    let before = a.free_nodes(9, 3);
    assert_eq!(before.len(), 7);
    let p = a.allocate(3, 300).unwrap();
    assert_eq!(p, before[0] + HEADER_SIZE);
    assert_eq!(a.free_nodes(9, 3), before[1..].to_vec());
    a.free(3, p);
    assert_eq!(a.free_nodes(9, 3), before);
}

#[test]
fn exhausted_base_fails_and_changes_nothing() {
    let mut a = allocator(8192);
    let p = a.allocate(0, 100).unwrap();
    a.write(p, &pattern(100, 1));
    let q = a.allocate(0, 2000).unwrap();
    a.write(q, &pattern(2000, 2));
    let lists: Vec<Vec<usize>> = (0..CACHE_COUNT).map(|k| a.free_nodes(k, 0)).collect();
    // A third class would need a third slab.
    assert_eq!(a.allocate(0, 500), Err(AllocError::OutOfMemory));
    assert_eq!(a.allocate(1, 100), Err(AllocError::OutOfMemory));
    for k in 0..CACHE_COUNT {
        assert_eq!(a.free_nodes(k, 0), lists[k]);
    }
    assert_eq!(a.read(p, 100), pattern(100, 1));
    assert_eq!(a.read(q, 2000), pattern(2000, 2));
    // The lists that have nodes still serve.
    assert_eq!(a.allocate(0, 100), Ok(128 + 8));
    assert_eq!(a.allocate(0, 2000), Ok(4096 + 2048 + 8));
    assert_eq!(a.allocate(0, 2000), Err(AllocError::OutOfMemory));
}

#[test]
fn free_lists_stay_sound_under_interleaved_workers() {
    let mut a = allocator(8 * MB);
    let workers = MAX_CPUS;
    let mut held: Vec<Vec<(usize, usize, u8)>> = vec![Vec::new(); workers];
    let mut state: u64 = 0x2545_F491_4F6C_DD1D;
    let mut canary: u8 = 0;
    for _ in 0..4000 {
        state ^= state << 13;
        state ^= state >> 7;
        state ^= state << 17;
        let worker = (state % workers as u64) as usize;
        let action = (state >> 8) % 3;
        if action != 0 || held[worker].is_empty() {
            let n = ((state >> 16) % 3000) as usize;
            canary = canary.wrapping_add(1);
            let p = a.allocate(worker, n).unwrap();
            a.write(p, &pattern(n, canary));
            held[worker].push((p, n, canary));
        } else {
            // A worker may free what another one allocated.
            let from = ((state >> 24) % workers as u64) as usize;
            let from = if held[from].is_empty() { worker } else { from };
            let at = ((state >> 32) as usize) % held[from].len();
            let (p, n, c) = held[from].swap_remove(at);
            assert_eq!(a.read(p, n), pattern(n, c));
            a.free(worker, p);
        }
    }
    // No live allocation was corrupted.
    let mut live: Vec<usize> = Vec::new();
    for list in &held {
        for &(p, n, c) in list {
            assert_eq!(a.read(p, n), pattern(n, c));
            live.push(p - HEADER_SIZE);
        }
    }
    // No node is on a list twice or on two lists, and none is live.
    let mut seen: Vec<usize> = Vec::new();
    for class in 0..CACHE_COUNT {
        for cpu in 0..MAX_CPUS {
            seen.extend(a.free_nodes(class, cpu));
        }
    }
    let total = seen.len();
    assert!(total > 0);
    seen.sort();
    seen.dedup();
    assert_eq!(seen.len(), total);
    for node in &live {
        assert!(seen.binary_search(node).is_err());
    }
}

#[test]
fn classes_below_the_minimum_are_never_used() {
    let mut a = allocator(MB);
    for n in 0..64usize {
        a.allocate(n % MAX_CPUS, n).unwrap();
    }
    for class in 0..4 {
        for cpu in 0..MAX_CPUS {
            assert_eq!(a.free_nodes(class, cpu), Vec::<usize>::new());
        }
    }
}
