use slam::class::{
    class_for, object_size_of, CACHE_COUNT, HEADER_SIZE, OBJECT_MAXIMUM_SIZE, OBJECT_MINIMUM_SIZE,
};

#[test]
fn constants_have_their_values() {
    assert_eq!(HEADER_SIZE, 8);
    assert_eq!(OBJECT_MINIMUM_SIZE, 12);
    assert_eq!(CACHE_COUNT, 32);
    assert_eq!(OBJECT_MAXIMUM_SIZE, 1usize << 31);
}

#[test]
fn object_size_is_power_of_two() {
    assert_eq!(object_size_of(0), 1);
    assert_eq!(object_size_of(1), 2);
    assert_eq!(object_size_of(5), 32);
    assert_eq!(object_size_of(12), 4096);
    assert_eq!(object_size_of(31), 1usize << 31);
    for class in 0..CACHE_COUNT {
        assert_eq!(object_size_of(class), 1usize << class);
    }
}

#[test]
fn small_requests_get_the_minimum_class() {
    // 0 + 8 < 12, so the size is raised to 12 and rounded up to 16.
    assert_eq!(class_for(0), Some(4));
    assert_eq!(class_for(1), Some(4));
    assert_eq!(class_for(3), Some(4));
    // From four bytes on the minimum does not apply.
    assert_eq!(class_for(4), Some(4));
    assert_eq!(class_for(7), Some(4));
    assert_eq!(class_for(8), Some(4));
    assert_eq!(class_for(9), Some(5));
    assert_eq!(class_for(12), Some(5));
    assert_eq!(class_for(24), Some(5));
}

#[test]
fn class_is_tightest_power_of_two() {
    assert_eq!(class_for(25), Some(6));
    assert_eq!(class_for(56), Some(6));
    assert_eq!(class_for(57), Some(7));
    assert_eq!(class_for(100), Some(7));
    assert_eq!(class_for(120), Some(7));
    assert_eq!(class_for(121), Some(8));
    assert_eq!(class_for(4087), Some(12));
    assert_eq!(class_for(4088), Some(12));
    assert_eq!(class_for(4089), Some(13));
    assert_eq!(class_for(4095), Some(13));
    assert_eq!(class_for(4096), Some(13));
    assert_eq!(class_for(4097), Some(13));
    assert_eq!(class_for(100_000), Some(17));
}

#[test]
fn class_bounds_hold_for_many_sizes() {
    let mut size: usize = 0;
    while size < 300_000 {
        let class = class_for(size).unwrap();
        assert!(class >= 4 && class < CACHE_COUNT);
        let object = 1usize << class;
        assert!(object >= size + HEADER_SIZE);
        assert!(object / 2 <= size + HEADER_SIZE);
        if size + HEADER_SIZE >= OBJECT_MINIMUM_SIZE {
            assert!(object / 2 < size + HEADER_SIZE);
        } else {
            assert_eq!(class, 4);
        }
        size += if size < 5000 { 1 } else { 997 };
    }
}

#[test]
fn largest_class_is_reached_and_not_passed() {
    assert_eq!(class_for(OBJECT_MAXIMUM_SIZE / 2 - HEADER_SIZE), Some(30));
    assert_eq!(class_for(OBJECT_MAXIMUM_SIZE / 2 - HEADER_SIZE + 1), Some(31));
    assert_eq!(class_for(OBJECT_MAXIMUM_SIZE - HEADER_SIZE), Some(31));
    assert_eq!(class_for(OBJECT_MAXIMUM_SIZE - HEADER_SIZE + 1), None);
    assert_eq!(class_for(OBJECT_MAXIMUM_SIZE), None);
}

#[test]
fn huge_requests_do_not_wrap() {
    assert_eq!(class_for(usize::MAX), None);
    assert_eq!(class_for(usize::MAX - 7), None);
    assert_eq!(class_for(usize::MAX - 8), None);
}
