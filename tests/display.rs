use shared_display::{
    CompressedDisplayPartition, FlushLock, FlushResult, FlushStep, NewPartitionError, Point,
    Rectangle, SharedCompressedDisplay, Size,
};

fn rect(x: i32, y: i32, w: u32, h: u32) -> Rectangle {
    Rectangle::new(Point::new(x, y), Size::new(w, h))
}

#[test]
fn partition_width_rules() {
    let parent = Size::new(64, 16);
    assert!(matches!(
        CompressedDisplayPartition::<u8>::new(parent, rect(0, 0, 4, 4), 0),
        Err(NewPartitionError::TooSmall)
    ));
    assert!(matches!(
        CompressedDisplayPartition::<u8>::new(parent, rect(0, 0, 12, 4), 0),
        Err(NewPartitionError::BadWidth)
    ));
    let p = CompressedDisplayPartition::<u8>::new(parent, rect(8, 0, 16, 4), 3).unwrap();
    assert_eq!(p.bounding_box(), rect(8, 0, 16, 4));
    assert_eq!(p.parent_size(), parent);
    assert!(p.contains(Point::new(8, 3)));
    assert!(!p.contains(Point::new(24, 0)));
    assert_eq!(*p.buffer().runs(), vec![(3, 64)]);
}

#[test]
fn partition_draw_drops_outside_points() {
    let mut p = CompressedDisplayPartition::<u8>::new(Size::new(64, 16), rect(8, 8, 8, 2), 0).unwrap();
    let pixels = vec![
        (Point::new(0, 0), 1),
        (Point::new(7, 1), 2),
        (Point::new(8, 0), 3),
        (Point::new(-1, 0), 3),
        (Point::new(3, 2), 3),
        (Point::new(0, 0), 4),
    ];
    p.draw_iter(&pixels);
    assert_eq!(*p.buffer().runs(), vec![(4, 1), (0, 14), (2, 1)]);
}

#[test]
fn partition_fill_solid_clips() {
    let mut p = CompressedDisplayPartition::<u8>::new(Size::new(64, 16), rect(0, 0, 8, 3), 0).unwrap();
    p.fill_solid(&rect(6, 1, 10, 5), 9);
    assert_eq!(*p.buffer().runs(), vec![(0, 14), (9, 2), (0, 6), (9, 2)]);
    p.fill_solid(&rect(20, 20, 2, 2), 5);
    assert_eq!(*p.buffer().runs(), vec![(0, 14), (9, 2), (0, 6), (9, 2)]);
    p.clear(1);
    assert_eq!(*p.buffer().runs(), vec![(1, 24)]);
}

#[test]
fn display_partition_errors() {
    let mut d = SharedCompressedDisplay::<4, u8>::new(Size::new(32, 8));
    assert_eq!(d.partition_count(), 0);
    assert_eq!(d.new_partition(rect(0, 0, 16, 8), 0), Ok(0));
    assert_eq!(d.partition_count(), 1);
    assert_eq!(d.new_partition(rect(8, 0, 16, 4), 0), Err(NewPartitionError::Overlaps));
    assert_eq!(d.new_partition(rect(24, 0, 16, 4), 0), Err(NewPartitionError::OutsideParent));
    assert_eq!(d.new_partition(rect(-8, 0, 8, 4), 0), Err(NewPartitionError::OutsideParent));
    assert_eq!(d.new_partition(rect(16, 0, 4, 4), 0), Err(NewPartitionError::TooSmall));
    assert_eq!(d.new_partition(rect(16, 0, 12, 4), 0), Err(NewPartitionError::BadWidth));
    assert_eq!(d.partition_count(), 1);
    assert_eq!(d.new_partition(rect(16, 0, 16, 8), 0), Ok(1));
    assert_eq!(d.partition_count(), 2);
    assert_eq!(d.partition(1).bounding_box(), rect(16, 0, 16, 8));
    assert_eq!(d.size(), Size::new(32, 8));
    assert!(d.contains(Point::new(31, 7)));
    assert!(!d.contains(Point::new(32, 0)));
}

#[test]
fn chunk_merges_partitions() {
    let mut d = SharedCompressedDisplay::<2, u8>::new(Size::new(24, 4));
    let left = d.new_partition(rect(0, 1, 8, 2), 1).unwrap();
    let right = d.new_partition(rect(16, 0, 8, 4), 2).unwrap();
    d.draw_iter(left, &vec![(Point::new(1, 0), 7)]);
    d.fill_solid(right, &rect(0, 3, 8, 1), 3);
    assert_eq!(d.num_chunks(), 2);
    assert_eq!(d.chunk_area(1), rect(0, 2, 24, 2));

    let top = d.decompress_chunk(0, 0);
    let mut expected = vec![0u8; 48];
    for x in 16..24 {
        expected[x] = 2;
        expected[24 + x] = 2;
    }
    for x in 0..8 {
        expected[24 + x] = 1;
    }
    expected[24 + 1] = 7;
    assert_eq!(top, expected);

    let bottom = d.decompress_chunk(1, 0);
    let mut expected = vec![0u8; 48];
    for x in 0..8 {
        expected[x] = 1;
    }
    for x in 16..24 {
        expected[x] = 2;
        expected[24 + x] = 3;
    }
    assert_eq!(bottom, expected);
}

#[test]
fn writes_to_one_partition_leave_the_other() {
    let mut d = SharedCompressedDisplay::<4, u8>::new(Size::new(16, 4));
    let a = d.new_partition(rect(0, 0, 8, 4), 1).unwrap();
    let b = d.new_partition(rect(8, 0, 8, 4), 2).unwrap();
    let before = d.decompress_chunk(0, 0);
    let b_runs = d.partition(b).buffer().runs().clone();
    d.fill_solid(a, &rect(0, 0, 8, 4), 5);
    d.draw_iter(a, &vec![(Point::new(7, 3), 6), (Point::new(8, 0), 6)]);
    d.clear(a, 9);
    let after = d.decompress_chunk(0, 0);
    assert_eq!(*d.partition(b).buffer().runs(), b_runs);
    for y in 0..4 {
        for x in 8..16 {
            assert_eq!(after[y * 16 + x], before[y * 16 + x]);
            assert_eq!(after[y * 16 + x], 2);
        }
        for x in 0..8 {
            assert_eq!(after[y * 16 + x], 9);
        }
    }
}

#[test]
fn flush_lock_excludes_writers() {
    let mut lock = FlushLock::new();
    assert!(lock.try_lock_write());
    assert!(lock.try_lock_write());
    lock.lock_flush();
    assert!(lock.is_flushing());
    assert!(!lock.writers_drained());
    assert!(!lock.try_lock_write());
    lock.unlock_write();
    assert!(!lock.writers_drained());
    lock.unlock_write();
    assert!(lock.writers_drained());
    lock.unlock_flush();
    assert!(!lock.is_flushing());
    assert!(lock.try_lock_write());
}

#[test]
fn flush_lock_caps_writers() {
    let mut lock = FlushLock::new();
    for _ in 0..127 {
        assert!(lock.try_lock_write());
    }
    assert!(!lock.try_lock_write());
    lock.unlock_write();
    assert!(lock.try_lock_write());
}

#[test]
fn flush_steps() {
    let mut d = SharedCompressedDisplay::<4, u8>::new(Size::new(16, 8));
    assert_eq!(d.next_flush_step(FlushStep::Sleep, FlushResult::Continue), FlushStep::Sleep);
    d.new_partition(rect(0, 0, 8, 8), 0).unwrap();
    assert_eq!(d.next_flush_step(FlushStep::Sleep, FlushResult::Continue), FlushStep::Chunk(0));
    assert_eq!(d.next_flush_step(FlushStep::Chunk(0), FlushResult::Continue), FlushStep::Chunk(1));
    assert_eq!(d.next_flush_step(FlushStep::Chunk(1), FlushResult::Continue), FlushStep::Complete);
    assert_eq!(d.next_flush_step(FlushStep::Complete, FlushResult::Continue), FlushStep::Sleep);
    assert_eq!(d.next_flush_step(FlushStep::Complete, FlushResult::Abort), FlushStep::Stop);
    assert_eq!(d.next_flush_step(FlushStep::Stop, FlushResult::Continue), FlushStep::Stop);
}

#[test]
fn geometry_intersection() {
    let a = rect(0, 0, 10, 10);
    assert_eq!(a.intersection(&rect(5, 5, 10, 10)), rect(5, 5, 5, 5));
    assert!(a.intersection(&rect(10, 0, 4, 4)).is_zero_sized());
    assert_eq!(a.intersection(&rect(-3, 2, 5, 1)), rect(0, 2, 2, 1));
    assert!(a.contains(Point::new(9, 9)));
    assert!(!a.contains(Point::new(10, 9)));
}

#[test]
fn clear_gives_the_runs_of_a_new_partition() {
    let mut p = CompressedDisplayPartition::<u8>::new(Size::new(128, 8), rect(0, 0, 128, 4), 0).unwrap();
    p.draw_iter(&vec![(Point::new(3, 1), 8)]);
    p.clear(6);
    assert_eq!(*p.buffer().runs(), vec![(6, 255), (6, 255), (6, 2)]);
    let mut d = SharedCompressedDisplay::<4, u8>::new(Size::new(128, 8));
    let id = d.new_partition(rect(0, 0, 128, 4), 1).unwrap();
    d.clear(id, 6);
    assert_eq!(*d.partition(id).buffer().runs(), vec![(6, 255), (6, 255), (6, 2)]);
}
