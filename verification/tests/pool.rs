use udp_ring::address::Endpoint;
use udp_ring::descriptor::{CapacityExceeded, FillError, Pool};

#[test]
fn allocate_gives_blank_descriptors() {
    let pool = Pool::allocate(4, 64);
    assert_eq!(pool.len(), 4);
    assert_eq!(pool.buffer_capacity(), 64);
    for tag in 0usize..4 {
        let descriptor = pool.peek(tag).expect("a descriptor for every tag");
        assert_eq!(descriptor.tag(), tag);
        assert_eq!(descriptor.capacity(), 64);
        assert_eq!(descriptor.valid_length(), 0);
        assert_eq!(descriptor.endpoint(), None);
        assert_eq!(descriptor.buffer(), &[0u8; 64][..]);
        assert_eq!(descriptor.storage(), &[0u8; 128][..]);
        assert!(descriptor.payload().is_empty());
    }
    assert!(pool.peek(4).is_none());
}

#[test]
fn allocate_empty_pool() {
    let mut pool = Pool::allocate(0, 16);
    assert_eq!(pool.len(), 0);
    assert!(pool.peek(0).is_none());
    assert!(pool.get(0).is_none());
}

#[test]
fn get_changes_one_descriptor_only() {
    let mut pool = Pool::allocate(3, 8);
    {
        let descriptor = pool.get(1).expect("tag 1 is in the pool");
        descriptor.buffer_mut()[0] = 0xaa;
        descriptor.storage_mut()[127] = 0x55;
        assert_eq!(descriptor.set_valid_length(8), Ok(()));
        descriptor.set_endpoint(Some(Endpoint::v4(1, 2, 3, 4, 5)));
    }
    let changed = pool.peek(1).expect("tag 1 is in the pool");
    assert_eq!(changed.tag(), 1);
    assert_eq!(changed.buffer()[0], 0xaa);
    assert_eq!(changed.storage()[127], 0x55);
    assert_eq!(changed.valid_length(), 8);
    assert_eq!(changed.endpoint(), Some(Endpoint::v4(1, 2, 3, 4, 5)));
    assert_eq!(changed.payload(), vec![0xaa, 0, 0, 0, 0, 0, 0, 0]);
    for tag in [0usize, 2] {
        let other = pool.peek(tag).expect("the others are there");
        assert_eq!(other.buffer(), &[0u8; 8][..]);
        assert_eq!(other.valid_length(), 0);
        assert_eq!(other.endpoint(), None);
    }
    assert!(pool.get(3).is_none());
}

#[test]
fn valid_length_stays_within_the_buffer() {
    let mut pool = Pool::allocate(1, 8);
    let descriptor = pool.get(0).expect("tag 0 is in the pool");
    assert_eq!(descriptor.set_valid_length(0), Ok(()));
    assert_eq!(descriptor.set_valid_length(8), Ok(()));
    assert_eq!(
        descriptor.set_valid_length(9),
        Err(CapacityExceeded { requested: 9, capacity: 8 })
    );
    assert_eq!(descriptor.valid_length(), 8);
    descriptor.set_endpoint(None);
    assert_eq!(descriptor.endpoint(), None);
}

#[test]
fn fill_copies_and_keeps_the_rest() {
    let mut pool = Pool::allocate(2, 6);
    {
        let descriptor = pool.get(0).expect("tag 0 is in the pool");
        for byte in descriptor.buffer_mut().iter_mut() {
            *byte = 9;
        }
        assert_eq!(descriptor.fill(&[1, 2, 3]), Ok(()));
        assert_eq!(descriptor.buffer(), &[1u8, 2, 3, 9, 9, 9][..]);
        assert_eq!(descriptor.valid_length(), 3);
        assert_eq!(descriptor.payload(), vec![1, 2, 3]);
        assert_eq!(descriptor.capacity(), 6);
        assert_eq!(
            descriptor.fill(&[0; 7]),
            Err(CapacityExceeded { requested: 7, capacity: 6 })
        );
        assert_eq!(descriptor.buffer(), &[1u8, 2, 3, 9, 9, 9][..]);
        assert_eq!(descriptor.fill(&[]), Ok(()));
        assert_eq!(descriptor.valid_length(), 0);
    }
    assert_eq!(pool.fill(1, &[7, 7, 7, 7, 7, 7]), Ok(()));
    assert_eq!(pool.peek(1).expect("tag 1").payload(), vec![7; 6]);
    assert_eq!(pool.fill(2, &[1]), Err(FillError::NoSuchTag(2)));
    assert_eq!(
        pool.fill(1, &[0; 7]),
        Err(FillError::TooLong(CapacityExceeded { requested: 7, capacity: 6 }))
    );
    assert_eq!(pool.peek(1).expect("tag 1").payload(), vec![7; 6]);
    assert_eq!(pool.len(), 2);
}
