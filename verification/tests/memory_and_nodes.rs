use slam::atomics::compare_and_swap;
use slam::heap::{Allocator, LinearAllocator};
use slam::memory::{Memory, WORD_SIZE};
use slam::node::{FreeNode, UsedNode, FREE_NODE_SIZE, NULL};

#[test]
fn new_memory_is_zeroed() {
    let mem = Memory::new(64);
    assert_eq!(mem.len(), 64);
    assert_eq!(mem.read(0, 64), vec![0u8; 64]);
    assert_eq!(mem.load(0), 0);
    assert_eq!(mem.load(56), 0);
}

#[test]
fn empty_memory_has_no_bytes() {
    let mem = Memory::new(0);
    assert_eq!(mem.len(), 0);
    assert_eq!(mem.read(0, 0), Vec::<u8>::new());
}

#[test]
fn stored_word_is_loaded_back() {
    let mut mem = Memory::new(64);
    mem.store(8, 0x0102_0304_0506_0708);
    assert_eq!(mem.load(8), 0x0102_0304_0506_0708);
    mem.store(24, usize::MAX);
    assert_eq!(mem.load(24), usize::MAX);
    assert_eq!(mem.load(8), 0x0102_0304_0506_0708);
    assert_eq!(mem.load(16), 0);
}

#[test]
fn word_is_stored_least_significant_byte_first() {
    let mut mem = Memory::new(32);
    mem.store(3, 0x0102_0304_0506_0708);
    assert_eq!(mem.read(3, WORD_SIZE), vec![8u8, 7, 6, 5, 4, 3, 2, 1]);
    assert_eq!(mem.read(0, 3), vec![0u8, 0, 0]);
    assert_eq!(mem.read(11, 2), vec![0u8, 0]);
}

#[test]
fn written_bytes_are_read_back() {
    let mut mem = Memory::new(32);
    mem.write(5, &[1, 2, 3, 4, 5]);
    assert_eq!(mem.read(5, 5), vec![1u8, 2, 3, 4, 5]);
    assert_eq!(mem.read(4, 7), vec![0u8, 1, 2, 3, 4, 5, 0]);
    mem.write(7, &[9]);
    assert_eq!(mem.read(5, 5), vec![1u8, 2, 9, 4, 5]);
    mem.write(10, &[]);
    assert_eq!(mem.read(0, 32).len(), 32);
}

#[test]
fn write_reaches_the_last_byte() {
    let mut mem = Memory::new(16);
    mem.write(14, &[7, 8]);
    assert_eq!(mem.read(14, 2), vec![7u8, 8]);
    mem.store(8, 42);
    assert_eq!(mem.load(8), 42);
}

#[test]
fn free_node_links_are_two_words() {
    assert_eq!(FREE_NODE_SIZE, 2 * WORD_SIZE);
    let mut mem = Memory::new(64);
    FreeNode::set_next(&mut mem, 16, 48);
    FreeNode::set_prev(&mut mem, 16, NULL);
    assert_eq!(FreeNode::load(&mem, 16), FreeNode { next: 48, prev: NULL });
    assert_eq!(mem.load(16), 48);
    assert_eq!(mem.load(24), NULL);
    FreeNode::set_next(&mut mem, 16, NULL);
    assert_eq!(FreeNode::load(&mem, 16), FreeNode { next: NULL, prev: NULL });
    FreeNode::set_prev(&mut mem, 16, 32);
    assert_eq!(FreeNode::load(&mem, 16), FreeNode { next: NULL, prev: 32 });
}

#[test]
fn null_is_no_address() {
    assert_eq!(NULL, usize::MAX);
}

#[test]
fn used_node_header_precedes_data() {
    assert_eq!(UsedNode::get_data(0), 8);
    assert_eq!(UsedNode::get_data(4096), 4104);
    assert_eq!(UsedNode::from_data(8), 0);
    assert_eq!(UsedNode::from_data(4104), 4096);
    assert_eq!(UsedNode::from_data(UsedNode::get_data(12345)), 12345);
}

#[test]
fn used_node_is_stored_in_first_word() {
    let mut mem = Memory::new(64);
    UsedNode::store(&mut mem, 32, UsedNode { cache: 7 });
    assert_eq!(UsedNode::load(&mem, 32), UsedNode { cache: 7 });
    assert_eq!(mem.load(32), 7);
    // The header overlays the forward link of a free node.
    assert_eq!(FreeNode::load(&mem, 32).next, 7);
    assert_eq!(mem.load(40), 0);
}

#[test]
fn linear_allocator_hands_out_from_the_bottom() {
    let mut base = LinearAllocator::new(10000);
    assert_eq!(base, LinearAllocator { offset: 0, limit: 10000 });
    assert_eq!(base.allocate(4096), Some(0));
    assert_eq!(base.allocate(4096), Some(4096));
    assert_eq!(base.offset, 8192);
    assert_eq!(base.allocate(4096), None);
    assert_eq!(base.offset, 8192);
    assert_eq!(base.allocate(1808), Some(8192));
    assert_eq!(base.allocate(0), Some(10000));
    assert_eq!(base.allocate(1), None);
    assert_eq!(base, LinearAllocator { offset: 10000, limit: 10000 });
}

#[test]
fn linear_allocator_refuses_what_would_wrap() {
    let mut base = LinearAllocator::new(100);
    assert_eq!(base.allocate(60), Some(0));
    assert_eq!(base.allocate(usize::MAX), None);
    assert_eq!(base.allocate(usize::MAX - 59), None);
    assert_eq!(base.allocate(40), Some(60));
}

#[test]
fn compare_and_swap_stores_only_on_match() {
    let mut slot: usize = 5;
    assert_eq!(compare_and_swap(&mut slot, 5, 9), 5);
    assert_eq!(slot, 9);
    assert_eq!(compare_and_swap(&mut slot, 5, 11), 9);
    assert_eq!(slot, 9);
    assert_eq!(compare_and_swap(&mut slot, 9, 9), 9);
    assert_eq!(slot, 9);
}
