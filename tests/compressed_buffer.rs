use shared_display::{CompressedBuffer, DecompressingIter, Size};

#[test]
fn buffer_clear() {
    let size = Size::new(128, 4); // 512 pixels total
    let mut buffer = CompressedBuffer::<u8>::new(size, 45);
    buffer.check_integrity().unwrap();

    buffer.clear_and_refill(255);
    assert_eq!(*buffer.runs(), vec![(255, 255), (255, 255), (255, 2)]);
}

#[test]
fn merge_before() -> Result<(), ()> {
    let size = Size::new(4, 4); // 16 pixels total
    let mut buffer = CompressedBuffer::<u8>::new(size, 30);
    buffer.check_integrity().unwrap();

    buffer.set_at_index(2, 52)?;
    assert_eq!(*buffer.runs(), vec![(30, 2), (52, 1), (30, 13)]);

    buffer.set_at_index(3, 52)?;
    assert_eq!(*buffer.runs(), vec![(30, 2), (52, 2), (30, 12)]);
    Ok(())
}

#[test]
fn merge_after() {
    let size = Size::new(4, 4); // 16 pixels total
    let mut buffer = CompressedBuffer::<u8>::new(size, 30);
    buffer.check_integrity().unwrap();

    buffer.set_at_index(2, 52).unwrap();
    assert_eq!(*buffer.runs(), vec![(30, 2), (52, 1), (30, 13)]);

    buffer.set_at_index(1, 52).unwrap();
    assert_eq!(*buffer.runs(), vec![(30, 1), (52, 2), (30, 13)]);
}

#[test]
fn merge_before_and_after() -> Result<(), ()> {
    let size = Size::new(128, 2); // 256 pixels total
    let mut buffer = CompressedBuffer::<u8>::new(size, 0);
    buffer.check_integrity()?;
    assert_eq!(*buffer.runs(), vec![(0, 255), (0, 1)]);

    buffer.set_at_index(0, 27)?;
    assert_eq!(*buffer.runs(), vec![(27, 1), (0, 254), (0, 1)]);

    buffer.set_at_index(2, 27)?;
    assert_eq!(
        *buffer.runs(),
        vec![(27, 1), (0, 1), (27, 1), (0, 252), (0, 1)]
    );

    buffer.set_at_index(1, 27)?;
    assert_eq!(*buffer.runs(), vec![(27, 3), (0, 252), (0, 1)]);
    Ok(())
}

#[test]
fn no_merge_over_255() -> Result<(), ()> {
    let size = Size::new(257, 1);
    let mut buffer = CompressedBuffer::<u8>::new(size, 0);
    buffer.check_integrity()?;
    assert_eq!(*buffer.runs(), vec![(0, 255), (0, 2)]);
    buffer.set_at_index(254, 3)?;

    assert_eq!(*buffer.runs(), vec![(0, 254), (3, 1), (0, 2)]);
    buffer.set_at_index(254, 0)?;
    assert_eq!(*buffer.runs(), vec![(0, 255), (0, 2)]);
    Ok(())
}

#[test]
fn iter() -> Result<(), ()> {
    let width = 64;
    let height = 32;
    let size = Size::new(width, height);
    let mut buffer = CompressedBuffer::<u8>::new(size, 0);
    buffer.check_integrity()?;

    let index1: usize = (height / 2 * width + width / 2) as usize;
    let index2: usize = (width * height - 1) as usize;
    buffer.set_at_index(0, 1)?;
    buffer.set_at_index(index1, 1)?;
    buffer.set_at_index(index2, 1)?;

    buffer.check_integrity()?;
    let iter = DecompressingIter::new(&buffer);

    // check cloned iter
    assert_eq!(iter.clone().nth(0), Some(1));
    assert_eq!(iter.clone().nth(1), Some(0));

    assert_eq!(iter.clone().nth(index1 - 1), Some(0));
    assert_eq!(iter.clone().nth(index1), Some(1));
    assert_eq!(iter.clone().nth(index1 + 1), Some(0));

    assert_eq!(iter.clone().nth(index2), Some(1));

    Ok(())
}

#[test]
fn test_set_contiguous() -> Result<(), ()> {
    let size = Size::new(128, 4); // 512 pixels total
    let mut buffer = CompressedBuffer::<u8>::new(size, 0);
    buffer.check_integrity()?;
    assert_eq!(*buffer.runs(), vec![(0, 255), (0, 255), (0, 2)]);

    buffer.set_at_index_contiguous(0, 27, 100)?;

    assert_eq!(*buffer.runs(), vec![(27, 100), (0, 155), (0, 255), (0, 2)]);

    buffer.set_at_index_contiguous(50, 84, 462)?;

    assert_eq!(*buffer.runs(), vec![(27, 50), (84, 207), (84, 255)]);
    buffer.check_integrity()?;

    let bigger_size = Size::new(128, 8); // 1024 pixels total
    let mut buffer = CompressedBuffer::<u8>::new(bigger_size, 0);
    buffer.check_integrity()?;

    assert_eq!(
        *buffer.runs(),
        vec![(0, 255), (0, 255), (0, 255), (0, 255), (0, 4)]
    );

    // set the last 550 pixels: 1024 - 550 = 474
    buffer.set_at_index_contiguous(474, 123, 550)?;

    assert_eq!(
        *buffer.runs(),
        vec![(0, 255), (0, 219), (123, 40), (123, 255), (123, 255)]
    );
    buffer.check_integrity()?;

    Ok(())
}

#[test]
fn test_clear() {
    let size = Size::new(128, 4); // 512 pixels total
    let mut buffer = CompressedBuffer::<u8>::new(size, 45);
    buffer.check_integrity().unwrap();

    buffer.clear_and_refill(255);
    assert_eq!(*buffer.runs(), vec![(255, 255), (255, 255), (255, 2)]);
}

#[test]
fn test_merge_before() {
    let size = Size::new(4, 4); // 16 pixels total
    let mut buffer = CompressedBuffer::<u8>::new(size, 30);
    buffer.check_integrity().unwrap();

    let _ = buffer.set_at_index(2, 52);
    assert_eq!(*buffer.runs(), vec![(30, 2), (52, 1), (30, 13)]);

    let _ = buffer.set_at_index(3, 52);
    assert_eq!(*buffer.runs(), vec![(30, 2), (52, 2), (30, 12)]);
}

#[test]
fn test_merge_after() {
    let size = Size::new(4, 4); // 16 pixels total
    let mut buffer = CompressedBuffer::<u8>::new(size, 30);
    buffer.check_integrity().unwrap();

    let _ = buffer.set_at_index(2, 52);
    assert_eq!(*buffer.runs(), vec![(30, 2), (52, 1), (30, 13)]);

    let _ = buffer.set_at_index(1, 52);
    assert_eq!(*buffer.runs(), vec![(30, 1), (52, 2), (30, 13)]);
}

#[test]
fn test_merge_before_and_after() {
    let size = Size::new(128, 2); // 256 pixels total
    let mut buffer = CompressedBuffer::<u8>::new(size, 0);
    buffer.check_integrity().unwrap();
    assert_eq!(*buffer.runs(), vec![(0, 255), (0, 1)]);

    let _ = buffer.set_at_index(0, 27);
    assert_eq!(*buffer.runs(), vec![(27, 1), (0, 254), (0, 1)]);

    let _ = buffer.set_at_index(2, 27);
    assert_eq!(
        *buffer.runs(),
        vec![(27, 1), (0, 1), (27, 1), (0, 252), (0, 1)]
    );

    let _ = buffer.set_at_index(1, 27);
    assert_eq!(*buffer.runs(), vec![(27, 3), (0, 252), (0, 1)]);
}

#[test]
fn test_no_merge_over_255() {
    let size = Size::new(257, 1);
    let mut buffer = CompressedBuffer::<u8>::new(size, 0);
    buffer.check_integrity().unwrap();
    assert_eq!(*buffer.runs(), vec![(0, 255), (0, 2)]);
    let _ = buffer.set_at_index(254, 3);

    assert_eq!(*buffer.runs(), vec![(0, 254), (3, 1), (0, 2)]);
    let _ = buffer.set_at_index(254, 0);
    assert_eq!(*buffer.runs(), vec![(0, 255), (0, 2)]);
}
