use splot::fixedsizebuffer::FixedSizeBuffer;

fn contents(buffer: &FixedSizeBuffer<u32>) -> Vec<u32> {
    let mut out = Vec::new();
    let mut iter = buffer.iter();
    while let Some(item) = iter.next() {
        out.push(*item);
    }
    out
}

#[test]
fn new_buffer_is_empty() {
    let buffer: FixedSizeBuffer<u32> = FixedSizeBuffer::new(3);
    assert!(buffer.is_empty());
    assert_eq!(buffer.len(), 0);
    assert_eq!(buffer.size(), 3);
    assert_eq!(buffer.first(), None);
    assert_eq!(buffer.last(), None);
    assert_eq!(buffer.get(0), None);
    assert_eq!(contents(&buffer), Vec::<u32>::new());
}

#[test]
fn add_below_size_evicts_nothing() {
    let mut buffer = FixedSizeBuffer::new(3);
    assert_eq!(buffer.add(1), None);
    assert_eq!(buffer.add(2), None);
    assert_eq!(buffer.add(3), None);
    assert_eq!(contents(&buffer), vec![1, 2, 3]);
    assert_eq!(buffer.len(), 3);
    assert!(!buffer.is_empty());
}

#[test]
fn add_evicts_oldest_when_full() {
    let mut buffer = FixedSizeBuffer::new(3);
    assert_eq!(buffer.add(1), None);
    assert_eq!(buffer.add(2), None);
    assert_eq!(buffer.add(3), None);
    assert_eq!(buffer.add(4), Some(1));
    assert_eq!(buffer.add(5), Some(2));
    assert_eq!(contents(&buffer), vec![3, 4, 5]);
    assert_eq!(buffer.first(), Some(&3));
    assert_eq!(buffer.last(), Some(&5));
    assert_eq!(buffer.len(), 3);
    assert_eq!(buffer.size(), 3);
}

#[test]
fn overfilled_buffer_holds_the_last_items_in_order() {
    for size in 1..6usize {
        for count in (size + 1)..20usize {
            let mut buffer = FixedSizeBuffer::new(size);
            let mut evicted = Vec::new();
            for item in 0..count as u32 {
                if let Some(gone) = buffer.add(item) {
                    evicted.push(gone);
                }
                assert!(buffer.len() <= buffer.size());
            }
            let kept: Vec<u32> = ((count - size) as u32..count as u32).collect();
            let left: Vec<u32> = (0..(count - size) as u32).collect();
            assert_eq!(contents(&buffer), kept);
            assert_eq!(evicted, left);
        }
    }
}

#[test]
fn buffer_of_size_zero_hands_every_item_back() {
    let mut buffer = FixedSizeBuffer::new(0);
    assert_eq!(buffer.add(7), Some(7));
    assert_eq!(buffer.add(8), Some(8));
    assert!(buffer.is_empty());
    assert_eq!(buffer.len(), 0);
    assert_eq!(buffer.size(), 0);
    assert_eq!(buffer.first(), None);
    assert_eq!(buffer.last(), None);
}

#[test]
fn buffer_of_size_one_holds_the_newest() {
    let mut buffer = FixedSizeBuffer::new(1);
    assert_eq!(buffer.add(7), None);
    assert_eq!(buffer.add(8), Some(7));
    assert_eq!(buffer.add(9), Some(8));
    assert_eq!(contents(&buffer), vec![9]);
    assert_eq!(buffer.first(), Some(&9));
    assert_eq!(buffer.last(), Some(&9));
}

#[test]
fn remove_takes_the_oldest() {
    let mut buffer = FixedSizeBuffer::new(4);
    buffer.add(1);
    buffer.add(2);
    buffer.add(3);
    assert_eq!(buffer.remove(), Some(1));
    assert_eq!(contents(&buffer), vec![2, 3]);
    assert_eq!(buffer.remove(), Some(2));
    assert_eq!(buffer.remove(), Some(3));
    assert_eq!(buffer.remove(), None);
    assert!(buffer.is_empty());
    assert_eq!(buffer.size(), 4);
}

#[test]
fn clear_empties_and_keeps_the_size() {
    let mut buffer = FixedSizeBuffer::new(2);
    buffer.add(1);
    buffer.add(2);
    buffer.clear();
    assert!(buffer.is_empty());
    assert_eq!(buffer.size(), 2);
    assert_eq!(buffer.add(3), None);
    assert_eq!(contents(&buffer), vec![3]);
}

#[test]
fn get_counts_from_the_oldest() {
    let mut buffer = FixedSizeBuffer::new(3);
    for item in 10..15u32 {
        buffer.add(item);
    }
    assert_eq!(buffer.get(0), Some(&12));
    assert_eq!(buffer.get(1), Some(&13));
    assert_eq!(buffer.get(2), Some(&14));
    assert_eq!(buffer.get(3), None);
}

#[test]
fn iter_can_start_again() {
    let mut buffer = FixedSizeBuffer::new(3);
    buffer.add(1);
    buffer.add(2);
    let mut first = buffer.iter();
    assert_eq!(first.next(), Some(&1));
    let mut second = buffer.iter();
    assert_eq!(second.next(), Some(&1));
    assert_eq!(second.next(), Some(&2));
    assert_eq!(second.next(), None);
    assert_eq!(second.next(), None);
    assert_eq!(first.next(), Some(&2));
    assert_eq!(first.next(), None);
}

#[test]
fn extend_adds_in_order_and_drops_the_oldest() {
    let mut buffer = FixedSizeBuffer::new(4);
    buffer.add(1);
    buffer.add(2);
    buffer.extend(vec![3, 4, 5, 6, 7]);
    assert_eq!(contents(&buffer), vec![4, 5, 6, 7]);
    buffer.extend(vec![]);
    assert_eq!(contents(&buffer), vec![4, 5, 6, 7]);
    buffer.extend(vec![8]);
    assert_eq!(contents(&buffer), vec![5, 6, 7, 8]);
}

#[test]
fn clone_keeps_items_and_size() {
    let mut buffer = FixedSizeBuffer::new(3);
    buffer.add(1);
    buffer.add(2);
    let mut copy = buffer.clone();
    assert_eq!(contents(&copy), vec![1, 2]);
    assert_eq!(copy.size(), 3);
    copy.add(3);
    assert_eq!(copy.add(4), Some(1));
    assert_eq!(contents(&buffer), vec![1, 2]);
}
