use shared_display::{CompressedBuffer, DecompressingIter, Size};

fn decode_all(buffer: &CompressedBuffer<u8>) -> Vec<u8> {
    let mut it = DecompressingIter::new(buffer);
    let mut out = Vec::new();
    while let Some(v) = it.next() {
        out.push(v);
    }
    out
}

#[test]
fn writes_decode_like_flat_array() {
    let size = Size::new(40, 20);
    let mut buffer = CompressedBuffer::<u8>::new(size, 7);
    let mut flat = vec![7u8; 800];
    let writes: Vec<(usize, usize, u8)> = vec![
        (0, 1, 3),
        (5, 300, 9),
        (299, 1, 7),
        (300, 1, 9),
        (100, 600, 2),
        (799, 1, 5),
        (250, 10, 2),
        (0, 800, 4),
        (400, 1, 4),
        (401, 254, 1),
        (655, 1, 1),
    ];
    for (start, count, value) in writes {
        if count == 1 {
            buffer.set_at_index(start, value).unwrap();
        } else {
            buffer.set_at_index_contiguous(start, value, count).unwrap();
        }
        for v in flat[start..start + count].iter_mut() {
            *v = value;
        }
        buffer.check_integrity().unwrap();
        assert_eq!(decode_all(&buffer), flat);
        assert!(buffer.runs().iter().all(|&(_, n)| n > 0));
    }
}

#[test]
fn setting_current_value_keeps_runs() {
    let mut buffer = CompressedBuffer::<u8>::new(Size::new(16, 2), 0);
    buffer.set_at_index(3, 8).unwrap();
    buffer.set_at_index_contiguous(10, 6, 12).unwrap();
    let before = buffer.runs().clone();
    buffer.set_at_index(3, 8).unwrap();
    assert_eq!(*buffer.runs(), before);
    buffer.set_at_index(0, 0).unwrap();
    assert_eq!(*buffer.runs(), before);
    buffer.set_at_index_contiguous(10, 6, 12).unwrap();
    assert_eq!(*buffer.runs(), before);
    buffer.set_at_index_contiguous(12, 6, 5).unwrap();
    assert_eq!(*buffer.runs(), before);
}

#[test]
fn span_over_equal_runs_up_to_end_is_unchanged() {
    let mut buffer = CompressedBuffer::<u8>::new(Size::new(16, 1), 0);
    let before = buffer.runs().clone();
    buffer.set_at_index_contiguous(0, 0, 16).unwrap();
    assert_eq!(*buffer.runs(), before);
}

#[test]
fn merge_before_and_after_up_to_cap() {
    let mut buffer = CompressedBuffer::<u8>::new(Size::new(255, 1), 0);
    buffer.set_at_index(200, 3).unwrap();
    assert_eq!(*buffer.runs(), vec![(0, 200), (3, 1), (0, 54)]);
    buffer.set_at_index(200, 0).unwrap();
    assert_eq!(*buffer.runs(), vec![(0, 255)]);
}

#[test]
fn full_neighbour_is_not_merged() {
    let mut buffer = CompressedBuffer::<u8>::new(Size::new(260, 1), 0);
    assert_eq!(*buffer.runs(), vec![(0, 255), (0, 5)]);
    buffer.set_at_index(255, 1).unwrap();
    assert_eq!(*buffer.runs(), vec![(0, 255), (1, 1), (0, 4)]);
    buffer.set_at_index(255, 0).unwrap();
    assert_eq!(*buffer.runs(), vec![(0, 255), (0, 5)]);
    buffer.set_at_index(256, 1).unwrap();
    buffer.set_at_index(255, 1).unwrap();
    assert_eq!(*buffer.runs(), vec![(0, 255), (1, 2), (0, 3)]);
}

#[test]
fn merge_into_next_run() {
    let mut buffer = CompressedBuffer::<u8>::new(Size::new(8, 1), 1);
    buffer.set_at_index_contiguous(4, 2, 4).unwrap();
    assert_eq!(*buffer.runs(), vec![(1, 4), (2, 4)]);
    buffer.set_at_index(3, 2).unwrap();
    assert_eq!(*buffer.runs(), vec![(1, 3), (2, 5)]);
}

#[test]
fn out_of_range_writes_fail() {
    let mut buffer = CompressedBuffer::<u8>::new(Size::new(8, 2), 1);
    let before = buffer.runs().clone();
    assert_eq!(buffer.set_at_index(16, 2), Err(()));
    assert_eq!(buffer.set_at_index_contiguous(10, 2, 7), Err(()));
    assert_eq!(buffer.set_at_index_contiguous(16, 2, 0), Err(()));
    assert_eq!(*buffer.runs(), before);
    assert_eq!(buffer.set_at_index_contiguous(10, 2, 0), Ok(()));
    assert_eq!(*buffer.runs(), before);
}

#[test]
fn new_chunks_runs_of_255() {
    let buffer = CompressedBuffer::<u8>::new(Size::new(128, 4), 9);
    assert_eq!(*buffer.runs(), vec![(9, 255), (9, 255), (9, 2)]);
    assert_eq!(buffer.decompressed_size(), Size::new(128, 4));
    let empty = CompressedBuffer::<u8>::new(Size::new(0, 4), 9);
    assert_eq!(empty.runs().len(), 0);
    assert_eq!(empty.check_integrity(), Ok(()));
    let exact = CompressedBuffer::<u8>::new(Size::new(255, 2), 9);
    assert_eq!(*exact.runs(), vec![(9, 255), (9, 255)]);
}

#[test]
fn cursor_skips_across_runs() {
    let mut buffer = CompressedBuffer::<u8>::new(Size::new(10, 1), 0);
    buffer.set_at_index_contiguous(3, 5, 4).unwrap();
    let mut it = DecompressingIter::new(&buffer);
    assert_eq!(it.next(), Some(0));
    assert_eq!(it.nth(2), Some(5));
    assert_eq!(it.nth(3), Some(0));
    assert_eq!(it.next(), Some(0));
    assert_eq!(it.next(), Some(0));
    assert_eq!(it.next(), None);
    let mut it = DecompressingIter::new(&buffer);
    assert_eq!(it.nth(10), None);
    assert_eq!(it.next(), None);
}

#[test]
fn span_merges_into_previous_run() {
    let mut buffer = CompressedBuffer::<u8>::new(Size::new(4, 4), 0);
    buffer.set_at_index_contiguous(0, 5, 2).unwrap();
    assert_eq!(*buffer.runs(), vec![(5, 2), (0, 14)]);
    buffer.set_at_index_contiguous(2, 5, 2).unwrap();
    assert_eq!(*buffer.runs(), vec![(5, 4), (0, 12)]);
}

#[test]
fn span_merges_into_next_run() {
    let mut buffer = CompressedBuffer::<u8>::new(Size::new(4, 4), 0);
    buffer.set_at_index_contiguous(4, 5, 4).unwrap();
    assert_eq!(*buffer.runs(), vec![(0, 4), (5, 4), (0, 8)]);
    buffer.set_at_index_contiguous(2, 5, 2).unwrap();
    assert_eq!(*buffer.runs(), vec![(0, 2), (5, 6), (0, 8)]);
}

#[test]
fn span_merges_on_both_sides() {
    let mut buffer = CompressedBuffer::<u8>::new(Size::new(4, 4), 0);
    buffer.set_at_index_contiguous(0, 5, 2).unwrap();
    buffer.set_at_index_contiguous(4, 5, 2).unwrap();
    assert_eq!(*buffer.runs(), vec![(5, 2), (0, 2), (5, 2), (0, 10)]);
    buffer.set_at_index_contiguous(2, 5, 2).unwrap();
    assert_eq!(*buffer.runs(), vec![(5, 6), (0, 10)]);
}

#[test]
fn span_leaves_trailing_equal_runs() {
    let mut buffer = CompressedBuffer::<u8>::new(Size::new(4, 4), 0);
    buffer.set_at_index_contiguous(4, 5, 4).unwrap();
    buffer.set_at_index_contiguous(0, 5, 8).unwrap();
    assert_eq!(*buffer.runs(), vec![(5, 8), (0, 8)]);
}

#[test]
fn span_does_not_merge_past_cap() {
    let mut buffer = CompressedBuffer::<u8>::new(Size::new(300, 1), 0);
    assert_eq!(*buffer.runs(), vec![(0, 255), (0, 45)]);
    buffer.set_at_index_contiguous(0, 7, 255).unwrap();
    assert_eq!(*buffer.runs(), vec![(7, 255), (0, 45)]);
    buffer.set_at_index_contiguous(255, 7, 10).unwrap();
    assert_eq!(*buffer.runs(), vec![(7, 255), (7, 10), (0, 35)]);
}
