use min_heap::{get_first_child_index, get_parent_index, heapsort, Heap};

fn check_correctness(heap: &Heap<usize>) {
    let queue = heap.as_slice();
    for i in 0..queue.len() {
        if let Some(parent_index) = get_parent_index(i) {
            assert!(queue[i] > queue[parent_index]);
        }
    }
}

#[test]
fn creating() {
    let new_heap = Heap::new(&[9]);
    assert_eq!(new_heap.as_slice().len(), 1);
    assert_eq!(new_heap.as_slice()[0], 9);
    check_correctness(&new_heap);

    let new_heap = Heap::new(&[1, 9, 2, 8, 3, 7, 4, 6, 5, 0]);
    assert_eq!(new_heap.as_slice().len(), 10);
    assert_eq!(new_heap.as_slice()[0], 0);
    check_correctness(&new_heap);
}

#[test]
fn getting_parent() {
    assert_eq!(get_parent_index(0), None);
    assert_eq!(get_parent_index(1), Some(0));
    assert_eq!(get_parent_index(2), Some(0));
    assert_eq!(get_parent_index(3), Some(1));
    assert_eq!(get_parent_index(4), Some(1));
    assert_eq!(get_parent_index(5), Some(2));
}

#[test]
fn getting_first_child() {
    assert_eq!(get_first_child_index(0), 1);
    assert_eq!(get_first_child_index(1), 3);
    assert_eq!(get_first_child_index(2), 5);
    assert_eq!(get_first_child_index(3), 7);
}

#[test]
fn adding() {
    let mut new_heap = Heap::new(&[9]);
    new_heap.add(1);
    assert_eq!(new_heap.as_slice().len(), 2);
    assert_eq!(new_heap.as_slice()[0], 1);
    assert_eq!(new_heap.as_slice()[1], 9);

    for i in 2..8 {
        new_heap.add(i);
    }

    check_correctness(&new_heap);
}

#[test]
fn extracting_min() {
    let mut new_heap = Heap::new(&[1, 9, 2, 8, 3, 7, 4, 6, 5, 0]);
    println!("new heap: {:?}", &new_heap);
    for i in 0..10 {
        let min = new_heap.extract_min();
        assert_eq!(min, Some(i));
        check_correctness(&new_heap);
    }
}

#[test]
fn iterating() {
    let new_heap = Heap::new(&[1, 9, 2, 8, 3, 7, 4, 6, 5, 0]);
    for (i, j) in new_heap.drain().into_iter().enumerate() {
        assert_eq!(i, j);
    }
}

#[test]
fn sorting() {
    let test1 = &[9, 8, 7, 6, 5, 4, 3, 2, 1, 0];
    let sorted = heapsort(test1);
    assert_eq!(sorted, vec![0, 1, 2, 3, 4, 5, 6, 7, 8, 9]);
}
