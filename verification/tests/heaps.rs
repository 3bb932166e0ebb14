use graphs::sort::binary_heap::BinaryHeap;
use graphs::sort::heap_sort::HeapSort;
use graphs::sort::is_sorted;
use graphs::sort::max_pq::MaxPQ;

fn as_integers(items: &[u64]) -> Vec<i32> {
    items.iter().map(|x| *x as i32).collect()
}

#[test]
fn sort() {
    let a: Vec<u64> = vec![8, 5, 7, 6, 4, 9, 3, 1];
    let mut bs = HeapSort::new(a);
    assert_eq!(&[9, 6, 8, 5, 4, 7, 3, 1], bs.as_slice());

    bs.sort();
    assert!(is_sorted(&as_integers(bs.as_slice())));
}

#[test]
fn max_pq_insert() {
    let mut q: MaxPQ<u64> = MaxPQ::new(4);
    q.insert(2);
    q.insert(4);
    q.insert(8);

    let mut iter = q.as_slice().iter();
    assert_eq!(Some(&8), iter.next());
    assert_eq!(Some(&2), iter.next());
    assert_eq!(Some(&4), iter.next());
    assert_eq!(None, iter.next());
}

#[test]
fn max_pq_delete_max() {
    let mut q: MaxPQ<u64> = MaxPQ::new(4);
    q.insert(2);
    q.insert(4);
    q.insert(8);

    let v = q.delete_max();
    assert_eq!(8, v);

    let mut iter = q.as_slice().iter();
    assert_eq!(Some(&4), iter.next());
    assert_eq!(Some(&2), iter.next());
    assert_eq!(None, iter.next());
}

#[test]
fn heap_sort_gives_the_items_in_ascending_order() {
    let mut x: u64 = 5;
    for n in 0..40 {
        let mut a: Vec<u64> = Vec::new();
        for _ in 0..n {
            x = (x * 1103515245 + 12345) % 2147483648;
            a.push((x >> 8) % 23);
        }
        let mut expected = a.clone();
        expected.sort();
        let mut h = HeapSort::new(a);
        let heap = h.as_slice().to_vec();
        for k in 1..heap.len() {
            assert!(heap[(k - 1) / 2] >= heap[k]);
        }
        h.sort();
        assert_eq!(expected, h.as_slice().to_vec());
    }
}

#[test]
fn max_queue_hands_out_items_in_descending_order() {
    let mut q: MaxPQ<u64> = MaxPQ::new(0);
    let mut all: Vec<u64> = Vec::new();
    let mut x: u64 = 9;
    for _ in 0..200 {
        x = (x * 1103515245 + 12345) % 2147483648;
        let item = (x >> 8) % 50;
        q.insert(item);
        all.push(item);
    }
    all.sort();
    while let Some(expected) = all.pop() {
        assert_eq!(all.len() + 1, q.len());
        assert_eq!(expected, q.delete_max());
    }
    assert_eq!(0, q.len());
}

#[test]
fn heap_moves_single_items() {
    let mut h: BinaryHeap<u64> = BinaryHeap::from_vec(vec![1, 9, 8, 7, 6]);
    h.sink(0);
    assert_eq!(&[9, 7, 8, 1, 6], h.as_slice());
    h.push(10);
    h.swim(5);
    assert_eq!(&[10, 7, 9, 1, 6, 8], h.as_slice());
    assert_eq!(10, h.pop());
    assert_eq!(&[8, 7, 9, 1, 6], h.as_slice());
    h.swim(0);
    assert_eq!(&[8, 7, 9, 1, 6], h.as_slice());
    h.swap(0, 2);
    h.sink_within(2, 0);
    assert_eq!(&[9, 7, 8, 1, 6], h.as_slice());
    assert_eq!(5, h.len());
    assert_eq!(0, BinaryHeap::<u64>::new(3).len());
}
