use os::config::PAGE_SIZE;
use os::mm::bridge::{
    i32_from_le, push_i32, push_u32, push_u32s, push_u64, read_bytes, read_i32, read_str,
    write_bytes, write_i32, Fault,
};
use os::mm::frame::FrameAllocator;
use os::mm::permission::MapPermission;
use os::mm::space::{AddressSpace, MemoryError, PhysAddr, RegionView};

fn perm(read: bool, write: bool, execute: bool) -> MapPermission {
    MapPermission { user: true, read, write, execute }
}

fn rw() -> MapPermission {
    perm(true, true, false)
}

#[test]
fn new_space_is_empty() {
    let space = AddressSpace::new();
    assert_eq!(space.region_count(), 0);
    assert_eq!(space.translate(0), None);
    assert_eq!(space.peek(0x1000), None);
}

#[test]
fn frame_pool_reuses_released_frames() {
    let mut pool = FrameAllocator::new();
    let a = pool.acquire();
    let b = pool.acquire();
    assert_ne!(a, b);
    assert!(pool.is_allocated(a));
    assert!(pool.is_allocated(b));
    pool.release(a);
    assert!(!pool.is_allocated(a));
    assert!(pool.is_allocated(b));
    let c = pool.acquire();
    assert_eq!(c, a);
    assert!(pool.is_allocated(c));
}

#[test]
fn allocate_then_free_restores_the_space() {
    let mut pool = FrameAllocator::new();
    let mut space = AddressSpace::new();
    assert_eq!(space.allocate_region(&mut pool, 0x4000, 0x6000, rw()), Ok(()));
    assert_eq!(space.region_count(), 1);
    assert_eq!(space.allocate_region(&mut pool, 0x1_0000, 0x1_3000, perm(true, false, false)), Ok(()));
    assert_eq!(space.region_count(), 2);
    let before: Vec<Option<PhysAddr>> =
        (0..8).map(|i| space.translate(0x4000 + i * 0x800)).collect();
    assert_eq!(space.free_region(&mut pool, 0x1_0000, 0x1_3000), Ok(()));
    assert_eq!(space.region_count(), 1);
    let after: Vec<Option<PhysAddr>> =
        (0..8).map(|i| space.translate(0x4000 + i * 0x800)).collect();
    assert_eq!(before, after);
    assert_eq!(space.translate(0x1_0000), None);
    assert_eq!(space.translate(0x1_2fff), None);
    assert_eq!(space.region(0), RegionView { start: 0x4000, end: 0x6000, perm: rw() });
}

#[test]
fn freed_frames_return_to_the_pool() {
    let mut pool = FrameAllocator::new();
    let mut space = AddressSpace::new();
    assert_eq!(space.allocate_region(&mut pool, 0x4000, 0x6000, rw()), Ok(()));
    let first = space.translate(0x4000).unwrap().ppn;
    let second = space.translate(0x5000).unwrap().ppn;
    assert_ne!(first, second);
    assert!(pool.is_allocated(first) && pool.is_allocated(second));
    assert_eq!(space.free_region(&mut pool, 0x4000, 0x6000), Ok(()));
    assert!(!pool.is_allocated(first));
    assert!(!pool.is_allocated(second));
}

#[test]
fn regions_stand_in_address_order() {
    let mut pool = FrameAllocator::new();
    let mut space = AddressSpace::new();
    assert_eq!(space.allocate_region(&mut pool, 0x9000, 0xa000, rw()), Ok(()));
    assert_eq!(space.allocate_region(&mut pool, 0x1000, 0x2000, rw()), Ok(()));
    assert_eq!(space.allocate_region(&mut pool, 0x5000, 0x7000, perm(true, false, true)), Ok(()));
    assert_eq!(space.region_count(), 3);
    assert_eq!(space.region(0).start, 0x1000);
    assert_eq!(space.region(1), RegionView { start: 0x5000, end: 0x7000, perm: perm(true, false, true) });
    assert_eq!(space.region(2).start, 0x9000);
}

#[test]
fn unaligned_end_is_rounded_up_to_the_page() {
    let mut pool = FrameAllocator::new();
    let mut space = AddressSpace::new();
    assert_eq!(space.allocate_region(&mut pool, 0x4000, 0x4001, rw()), Ok(()));
    assert_eq!(space.region(0), RegionView { start: 0x4000, end: 0x5000, perm: rw() });
    assert!(space.translate(0x4fff).is_some());
    assert!(space.translate(0x5000).is_none());
}

#[test]
fn overlapping_range_is_refused() {
    let mut pool = FrameAllocator::new();
    let mut space = AddressSpace::new();
    assert_eq!(space.allocate_region(&mut pool, 0x4000, 0x6000, rw()), Ok(()));
    assert_eq!(space.allocate_region(&mut pool, 0x4000, 0x6000, rw()), Err(MemoryError::Overlap));
    assert_eq!(space.allocate_region(&mut pool, 0x5000, 0x8000, rw()), Err(MemoryError::Overlap));
    assert_eq!(space.allocate_region(&mut pool, 0x3000, 0x4001, rw()), Err(MemoryError::Overlap));
    assert_eq!(space.allocate_region(&mut pool, 0x3000, 0x9000, rw()), Err(MemoryError::Overlap));
    assert_eq!(space.region_count(), 1);
    assert_eq!(space.allocate_region(&mut pool, 0x3000, 0x4000, rw()), Ok(()));
    assert_eq!(space.allocate_region(&mut pool, 0x6000, 0x7000, rw()), Ok(()));
    assert_eq!(space.region_count(), 3);
}

#[test]
fn overlap_is_reported_before_a_bad_permission() {
    let mut pool = FrameAllocator::new();
    let mut space = AddressSpace::new();
    let none = perm(false, false, false);
    assert_eq!(space.allocate_region(&mut pool, 0x4000, 0x6000, rw()), Ok(()));
    assert_eq!(space.allocate_region(&mut pool, 0x5000, 0x6000, none), Err(MemoryError::Overlap));
    assert_eq!(
        space.allocate_region(&mut pool, 0x8000, 0x9000, none),
        Err(MemoryError::InvalidPermission)
    );
    assert_eq!(space.region_count(), 1);
}

#[test]
fn free_needs_the_exact_bounds() {
    let mut pool = FrameAllocator::new();
    let mut space = AddressSpace::new();
    assert_eq!(space.allocate_region(&mut pool, 0x4000, 0x8000, rw()), Ok(()));
    assert_eq!(space.free_region(&mut pool, 0x4000, 0x6000), Err(MemoryError::NotFound));
    assert_eq!(space.free_region(&mut pool, 0x5000, 0x8000), Err(MemoryError::NotFound));
    assert_eq!(space.free_region(&mut pool, 0x3000, 0x9000), Err(MemoryError::NotFound));
    assert_eq!(space.free_region(&mut pool, 0x4000, 0x7fff), Err(MemoryError::NotFound));
    assert_eq!(space.free_region(&mut pool, 0xa000, 0xb000), Err(MemoryError::NotFound));
    assert_eq!(space.region_count(), 1);
    assert!(space.translate(0x5000).is_some());
    assert_eq!(space.free_region(&mut pool, 0x4000, 0x8000), Ok(()));
    assert_eq!(space.region_count(), 0);
    assert_eq!(space.free_region(&mut pool, 0x4000, 0x8000), Err(MemoryError::NotFound));
}

#[test]
fn translate_gives_frame_and_offset() {
    let mut pool = FrameAllocator::new();
    let mut space = AddressSpace::new();
    assert_eq!(space.allocate_region(&mut pool, 0x4000, 0x6000, rw()), Ok(()));
    let a = space.translate(0x4000).unwrap();
    let b = space.translate(0x4abc).unwrap();
    let c = space.translate(0x5001).unwrap();
    assert_eq!(a.offset, 0);
    assert_eq!(b.offset, 0xabc);
    assert_eq!(b.ppn, a.ppn);
    assert_eq!(c.offset, 1);
    assert_ne!(c.ppn, a.ppn);
    assert_eq!(space.translate(0x3fff), None);
    assert_eq!(space.translate(0x6000), None);
}

#[test]
fn fresh_memory_reads_as_zero() {
    let mut pool = FrameAllocator::new();
    let mut space = AddressSpace::new();
    assert_eq!(space.allocate_region(&mut pool, 0x4000, 0x6000, rw()), Ok(()));
    assert_eq!(read_bytes(&space, 0x4ffc, 8), Ok(vec![0u8; 8]));
}

#[test]
fn write_across_a_page_boundary_reads_back() {
    let mut pool = FrameAllocator::new();
    let mut space = AddressSpace::new();
    assert_eq!(space.allocate_region(&mut pool, 0x4000, 0x6000, rw()), Ok(()));
    let value: Vec<u8> = vec![1, 2, 3, 4, 5, 6, 7, 8];
    // Four bytes on the first page, four on the second.
    assert_ne!(space.translate(0x4ffc).unwrap().ppn, space.translate(0x5000).unwrap().ppn);
    assert_eq!(write_bytes(&mut space, 0x4ffc, &value), Ok(()));
    assert_eq!(read_bytes(&space, 0x4ffc, 8), Ok(value.clone()));
    // The same value inside one page.
    assert_eq!(write_bytes(&mut space, 0x4100, &value), Ok(()));
    assert_eq!(read_bytes(&space, 0x4100, 8), Ok(value.clone()));
    // The neighbours of the first value are untouched.
    assert_eq!(read_bytes(&space, 0x4ffa, 2), Ok(vec![0, 0]));
    assert_eq!(read_bytes(&space, 0x5004, 2), Ok(vec![0, 0]));
    assert_eq!(space.peek(0x4fff), Some(4));
    assert_eq!(space.peek(0x5000), Some(5));
}

#[test]
fn write_across_two_regions_reads_back() {
    let mut pool = FrameAllocator::new();
    let mut space = AddressSpace::new();
    assert_eq!(space.allocate_region(&mut pool, 0x4000, 0x5000, rw()), Ok(()));
    assert_eq!(space.allocate_region(&mut pool, 0x5000, 0x6000, rw()), Ok(()));
    let value: Vec<u8> = vec![0xaa, 0xbb, 0xcc, 0xdd];
    assert_eq!(write_bytes(&mut space, 0x4ffe, &value), Ok(()));
    assert_eq!(read_bytes(&space, 0x4ffe, 4), Ok(value));
}

#[test]
fn write_needs_the_write_permission_on_every_byte() {
    let mut pool = FrameAllocator::new();
    let mut space = AddressSpace::new();
    assert_eq!(space.allocate_region(&mut pool, 0x4000, 0x5000, rw()), Ok(()));
    assert_eq!(space.allocate_region(&mut pool, 0x5000, 0x6000, perm(true, false, false)), Ok(()));
    let value: Vec<u8> = vec![9, 9, 9, 9];
    assert_eq!(write_bytes(&mut space, 0x4ffe, &value), Err(Fault));
    // Nothing was written, not even the bytes that were writable.
    assert_eq!(read_bytes(&space, 0x4ffe, 4), Ok(vec![0, 0, 0, 0]));
    assert_eq!(write_bytes(&mut space, 0x4ffc, &value), Ok(()));
    assert!(!space.poke(0x5000, 1));
    assert!(space.poke(0x4000, 1));
    assert!(space.can_write(0x4fff));
    assert!(!space.can_write(0x5000));
    assert!(!space.can_write(0x6000));
}

#[test]
fn read_needs_the_read_permission_on_every_byte() {
    let mut pool = FrameAllocator::new();
    let mut space = AddressSpace::new();
    assert_eq!(space.allocate_region(&mut pool, 0x4000, 0x5000, rw()), Ok(()));
    assert_eq!(space.allocate_region(&mut pool, 0x5000, 0x6000, perm(false, true, false)), Ok(()));
    assert_eq!(read_bytes(&space, 0x4ffe, 2), Ok(vec![0, 0]));
    assert_eq!(read_bytes(&space, 0x4ffe, 3), Err(Fault));
    assert_eq!(read_bytes(&space, 0x3fff, 2), Err(Fault));
    assert_eq!(read_bytes(&space, 0x7000, 1), Err(Fault));
    assert_eq!(read_bytes(&space, 0x7000, 0), Ok(vec![]));
    assert_eq!(read_bytes(&space, usize::MAX, 2), Err(Fault));
}

#[test]
fn kernel_only_memory_is_closed_to_the_bridge() {
    let mut pool = FrameAllocator::new();
    let mut space = AddressSpace::new();
    let kernel_rw = MapPermission { user: false, read: true, write: true, execute: false };
    assert_eq!(space.allocate_region(&mut pool, 0x4000, 0x5000, kernel_rw), Ok(()));
    assert!(space.translate(0x4000).is_some());
    assert_eq!(read_bytes(&space, 0x4000, 1), Err(Fault));
    assert_eq!(write_bytes(&mut space, 0x4000, &vec![1]), Err(Fault));
}

#[test]
fn string_is_read_up_to_its_terminator() {
    let mut pool = FrameAllocator::new();
    let mut space = AddressSpace::new();
    assert_eq!(space.allocate_region(&mut pool, 0x4000, 0x6000, rw()), Ok(()));
    assert_eq!(write_bytes(&mut space, 0x4ffd, &b"hello\0world".to_vec()), Ok(()));
    assert_eq!(read_str(&space, 0x4ffd), Ok(b"hello".to_vec()));
    assert_eq!(read_str(&space, 0x5002), Ok(vec![]));
    assert_eq!(read_str(&space, 0x5003), Ok(b"world".to_vec()));
}

#[test]
fn string_without_terminator_is_a_fault() {
    let mut pool = FrameAllocator::new();
    let mut space = AddressSpace::new();
    assert_eq!(space.allocate_region(&mut pool, 0x4000, 0x5000, rw()), Ok(()));
    assert_eq!(write_bytes(&mut space, 0x4ffc, &b"abcd".to_vec()), Ok(()));
    assert_eq!(read_str(&space, 0x4ffc), Err(Fault));
    assert_eq!(read_str(&space, 0x9000), Err(Fault));
}

#[test]
fn mapped_data_is_followed_by_zeroes() {
    let mut pool = FrameAllocator::new();
    let mut space = AddressSpace::new();
    let mut data = vec![7u8; PAGE_SIZE + 2];
    data[PAGE_SIZE] = 8;
    data[PAGE_SIZE + 1] = 9;
    assert_eq!(space.map_region(&mut pool, 0x4000, 0x7000, perm(true, false, false), &data), Ok(()));
    assert_eq!(read_bytes(&space, 0x4ffe, 6), Ok(vec![7, 7, 8, 9, 0, 0]));
    assert_eq!(read_bytes(&space, 0x6ffe, 2), Ok(vec![0, 0]));
}

#[test]
fn duplicate_is_independent_of_the_original() {
    let mut pool = FrameAllocator::new();
    let mut space = AddressSpace::new();
    assert_eq!(space.allocate_region(&mut pool, 0x4000, 0x6000, rw()), Ok(()));
    assert_eq!(write_bytes(&mut space, 0x4ffe, &vec![1, 2, 3, 4]), Ok(()));
    let mut copy = space.duplicate(&mut pool);
    assert_eq!(copy.region_count(), 1);
    assert_eq!(copy.region(0), space.region(0));
    assert_eq!(read_bytes(&copy, 0x4ffe, 4), Ok(vec![1, 2, 3, 4]));
    assert_ne!(copy.translate(0x4000).unwrap().ppn, space.translate(0x4000).unwrap().ppn);
    assert_ne!(copy.translate(0x5000).unwrap().ppn, space.translate(0x5000).unwrap().ppn);
    assert_eq!(write_bytes(&mut space, 0x4ffe, &vec![9, 9, 9, 9]), Ok(()));
    assert_eq!(read_bytes(&copy, 0x4ffe, 4), Ok(vec![1, 2, 3, 4]));
    assert_eq!(write_bytes(&mut copy, 0x4000, &vec![5]), Ok(()));
    assert_eq!(read_bytes(&space, 0x4000, 1), Ok(vec![0]));
}

#[test]
fn clear_releases_every_frame() {
    let mut pool = FrameAllocator::new();
    let mut space = AddressSpace::new();
    assert_eq!(space.allocate_region(&mut pool, 0x4000, 0x6000, rw()), Ok(()));
    assert_eq!(space.allocate_region(&mut pool, 0x8000, 0x9000, rw()), Ok(()));
    let frames: Vec<usize> =
        vec![0x4000, 0x5000, 0x8000].into_iter().map(|a| space.translate(a).unwrap().ppn).collect();
    space.clear(&mut pool);
    assert_eq!(space.region_count(), 0);
    for f in frames {
        assert!(!pool.is_allocated(f));
    }
}

#[test]
fn pages_are_mapped_and_unmapped_one_by_one() {
    let mut pool = FrameAllocator::new();
    let mut space = AddressSpace::new();
    assert!(space.map_pages(&mut pool, 0x4000, 3, rw()));
    assert_eq!(space.region_count(), 3);
    assert_eq!(space.region(1), RegionView { start: 0x5000, end: 0x6000, perm: rw() });
    assert!(!space.map_pages(&mut pool, 0x2000, 3, rw()));
    assert_eq!(space.region_count(), 3);
    assert!(space.intersects(0x6fff, 0x8000));
    assert!(!space.intersects(0x7000, 0x8000));
    space.unmap_pages(&mut pool, 0x5000, 4);
    assert_eq!(space.region_count(), 1);
    assert_eq!(space.region(0).start, 0x4000);
    assert!(space.map_pages(&mut pool, 0x9000, 0, rw()));
    assert_eq!(space.region_count(), 1);
}

#[test]
fn signed_number_round_trips_across_a_page_boundary() {
    let mut pool = FrameAllocator::new();
    let mut space = AddressSpace::new();
    assert_eq!(space.allocate_region(&mut pool, 0x4000, 0x6000, rw()), Ok(()));
    for x in [0, 1, -1, 42, -7, i32::MAX, i32::MIN, 0x0102_0304] {
        assert_eq!(write_i32(&mut space, 0x4ffe, x), Ok(()));
        assert_eq!(read_i32(&space, 0x4ffe), Ok(x));
        assert_eq!(write_i32(&mut space, 0x4100, x), Ok(()));
        assert_eq!(read_bytes(&space, 0x4100, 4), read_bytes(&space, 0x4ffe, 4));
    }
    assert_eq!(read_bytes(&space, 0x4ffe, 4), Ok(vec![4, 3, 2, 1]));
    assert_eq!(write_i32(&mut space, 0x5ffd, 1), Err(Fault));
    assert_eq!(read_i32(&space, 0x5ffd), Err(Fault));
    assert_eq!(read_bytes(&space, 0x5ffd, 3), Ok(vec![0, 0, 0]));
}

#[test]
fn numbers_are_encoded_lowest_byte_first() {
    let mut buf = vec![0xeeu8];
    push_u32(&mut buf, 0x0403_0201);
    push_i32(&mut buf, -2);
    push_u64(&mut buf, 0x0807_0605_0403_0201);
    push_u32s(&mut buf, &vec![1, 0x100]);
    assert_eq!(
        buf,
        vec![
            0xee, 1, 2, 3, 4, 0xfe, 0xff, 0xff, 0xff, 1, 2, 3, 4, 5, 6, 7, 8, 1, 0, 0, 0, 0, 1,
            0, 0
        ]
    );
    assert_eq!(i32_from_le(&vec![0xfe, 0xff, 0xff, 0xff]), -2);
    assert_eq!(i32_from_le(&vec![0, 0, 0, 0x80, 9]), i32::MIN);
    assert_eq!(i32_from_le(&vec![0xff, 0xff, 0xff, 0x7f]), i32::MAX);
}

#[test]
fn pool_grows_only_when_nothing_was_given_back() {
    let mut pool = FrameAllocator::new();
    let frames: Vec<usize> = (0..4).map(|_| pool.acquire()).collect();
    assert_eq!(frames, vec![0, 1, 2, 3]);
    pool.release(2);
    pool.release(0);
    let mut again = vec![pool.acquire(), pool.acquire()];
    again.sort();
    assert_eq!(again, vec![0, 2]);
    assert_eq!(pool.acquire(), 4);
    assert!(!pool.is_allocated(5));
}
