use min_heap::{get_first_child_index, get_parent_index, heapsort, Heap};

fn heap_ordered(items: &[i64]) -> bool {
    (1..items.len()).all(|i| items[(i - 1) / 2] <= items[i])
}

#[test]
fn every_position_respects_its_parent_after_each_operation() {
    let mut heap: Heap<i64> = Heap::new(&[]);
    for x in [5, -3, 8, 8, 0, -3, 12, 1, 7, -10, 4] {
        heap.add(x);
        assert!(heap_ordered(heap.as_slice()));
    }
    while heap.extract_min().is_some() {
        assert!(heap_ordered(heap.as_slice()));
    }
    assert!(heap.as_slice().is_empty());
}

#[test]
fn size_is_insertions_minus_extractions() {
    let mut heap: Heap<u32> = Heap::new(&[]);
    for k in 0..7u32 {
        heap.add(100 - k);
        assert_eq!(heap.len(), (k + 1) as usize);
    }
    for m in 1..=3usize {
        assert!(heap.extract_min().is_some());
        assert_eq!(heap.len(), 7 - m);
    }
    heap.add(1);
    assert_eq!(heap.len(), 5);
}

#[test]
fn extraction_comes_out_in_non_decreasing_order() {
    let input = [4, 1, 4, 9, 0, 0, 7, 3, 3, 3, 8];
    let mut heap = Heap::new(&input);
    let mut count = 0;
    let mut previous: Option<i32> = None;
    while let Some(x) = heap.extract_min() {
        if let Some(p) = previous {
            assert!(p <= x);
        }
        previous = Some(x);
        count += 1;
    }
    assert_eq!(count, input.len());
}

#[test]
fn first_extraction_is_the_minimum_and_the_eleventh_finds_nothing() {
    let mut heap = Heap::new(&[1, 9, 2, 8, 3, 7, 4, 6, 5, 0]);
    assert_eq!(heap.extract_min(), Some(0));
    for _ in 1..10 {
        assert!(heap.extract_min().is_some());
    }
    assert_eq!(heap.extract_min(), None);
}

#[test]
fn empty_heap_stays_empty() {
    let mut heap: Heap<u8> = Heap::new(&[]);
    for _ in 0..4 {
        assert_eq!(heap.extract_min(), None);
        assert_eq!(heap.len(), 0);
        assert!(heap.as_slice().is_empty());
    }
    assert_eq!(heap.next(), None);
    assert!(heap.drain().is_empty());
}

#[test]
fn adding_a_smaller_element_puts_it_at_the_root() {
    let mut heap = Heap::new(&[9]);
    heap.add(1);
    assert_eq!(heap.as_slice(), &[1, 9]);
}

#[test]
fn equal_elements_do_not_change_places_on_insertion() {
    let mut heap = Heap::new(&[(1, 'a')]);
    heap.add((1, 'a'));
    heap.add((0, 'z'));
    assert_eq!(heap.as_slice(), &[(0, 'z'), (1, 'a'), (1, 'a')]);
    let mut ties = Heap::new(&[2, 2]);
    ties.add(2);
    assert_eq!(ties.as_slice(), &[2, 2, 2]);
}

#[test]
fn sift_down_takes_the_smaller_child() {
    let mut heap = Heap::new(&[1, 5, 3, 9, 6, 4]);
    assert_eq!(heap.as_slice(), &[1, 5, 3, 9, 6, 4]);
    assert_eq!(heap.extract_min(), Some(1));
    assert_eq!(heap.as_slice(), &[3, 5, 4, 9, 6]);
    assert_eq!(heap.extract_min(), Some(3));
    assert_eq!(heap.as_slice(), &[4, 5, 6, 9]);
}

#[test]
fn next_is_extract_min() {
    let mut heap = Heap::new(&[3, 1, 2]);
    assert_eq!(heap.next(), Some(1));
    assert_eq!(heap.extract_min(), Some(2));
    assert_eq!(heap.next(), Some(3));
    assert_eq!(heap.next(), None);
}

#[test]
fn drain_empties_in_ascending_order() {
    let heap = Heap::new(&[7u64, 7, 1, 30, 2, 2, 19]);
    assert_eq!(heap.drain(), vec![1, 2, 2, 7, 7, 19, 30]);
}

#[test]
fn heapsort_of_nothing_and_of_one() {
    let nothing: [i32; 0] = [];
    assert_eq!(heapsort(&nothing), Vec::<i32>::new());
    assert_eq!(heapsort(&[42]), vec![42]);
}

#[test]
fn heapsort_is_a_sorted_permutation() {
    let input = [13i64, -1, 13, 0, 99, -50, 7, 7, 7, 2, -1, 64, 5];
    let out = heapsort(&input);
    let mut expected = input.to_vec();
    expected.sort();
    assert_eq!(out, expected);
    assert_eq!(input[0], 13);
}

#[test]
fn heapsort_clones_owned_values() {
    let input = vec![String::from("pear"), String::from("apple"), String::from("fig")];
    let out = heapsort(&input);
    assert_eq!(out, vec!["apple", "fig", "pear"]);
    assert_eq!(input.len(), 3);
}

#[test]
fn heapsort_orders_floats() {
    let out = heapsort(&[2.5, -1.0, 0.0, 2.25]);
    assert_eq!(out, vec![-1.0, 0.0, 2.25, 2.5]);
}

#[test]
fn parent_and_first_child_follow_their_formulas() {
    assert_eq!(get_parent_index(0), None);
    for n in 1..200usize {
        assert_eq!(get_parent_index(n), Some((n - 1) / 2));
    }
    for n in 0..200usize {
        assert_eq!(get_first_child_index(n), 2 * n + 1);
        assert_eq!(get_parent_index(get_first_child_index(n)), Some(n));
        assert_eq!(get_parent_index(get_first_child_index(n) + 1), Some(n));
    }
    assert_eq!(get_first_child_index((usize::MAX - 1) / 2), usize::MAX);
}
