use dheap::{Heap, HeapError};

#[test]
fn test_heap_creation() {
    let heap = Heap::new(2, &[3, 1, 4, 1, 5, 9]);
    assert_eq!(heap.size(), 6);
}

#[test]
fn test_insert() {
    let mut heap = Heap::new(2, &[]);
    assert!(heap.insert(10).is_ok());
    assert!(heap.insert(20).is_ok());
    assert_eq!(heap.size(), 2);
    assert_eq!(heap.value_at(0), 20); // Max-heap property
}

#[test]
fn test_heapify_up() {
    let mut heap = Heap::new(2, &[]);
    assert!(heap.insert(10).is_ok());
    assert!(heap.insert(20).is_ok());
    assert!(heap.insert(5).is_ok());
    assert_eq!(heap.value_at(0), 20); // Max-heap property
}

#[test]
fn test_heapify_down() {
    let mut heap = Heap::new(2, &[20, 10, 5]);
    heap.set_value(0, 1); // Break max-heap property
    let res = heap.heapify_down(0);
    assert!(res.is_ok());
    assert_eq!(heap.value_at(0), 10); // Max-heap property restored
}

#[test]
fn test_extract_max() {
    let mut heap = Heap::new(2, &[3, 1, 4, 1, 5, 9]);

    // Extract max and verify it's correct
    let max_res = heap.extract_max();
    assert!(max_res.is_ok());
    assert_eq!(max_res.unwrap(), 9);

    // Verify the size decreased
    assert_eq!(heap.size(), 5);

    // Verify heap property is maintained
    for i in 0..heap.size() {
        if let Ok(left) = heap.get_n_son(i, 0) {
            assert!(heap.value_at(i) >= heap.value_at(left));
        }
        if let Ok(right) = heap.get_n_son(i, 1) {
            assert!(heap.value_at(i) >= heap.value_at(right));
        }
    }

    // Extract the next max and verify
    let second_max = heap.extract_max();
    assert!(second_max.is_ok());
    assert_eq!(second_max.unwrap(), 5);
}

#[test]
fn test_get_parent() {
    let heap = Heap::new(2, &[3, 1, 4, 1, 5, 9]);
    assert!(heap.get_parent(1).is_ok());
    assert_eq!(heap.get_parent(1).unwrap_or(999), 0);
    assert!(heap.get_parent(2).is_ok());
    assert_eq!(heap.get_parent(2).unwrap_or(999), 0);
    assert!(heap.get_parent(0).is_err());
}

#[test]
fn test_get_n_son() {
    let heap = Heap::new(2, &[3, 1, 4, 1, 5, 9, 10, 12]);
    assert!(heap.get_n_son(0, 0).is_ok());
    assert_eq!(heap.get_n_son(0, 0).unwrap_or(999), 1);
    assert!(heap.get_n_son(0, 1).is_ok());
    assert_eq!(heap.get_n_son(0, 1).unwrap_or(999), 2);
    assert!(heap.get_n_son(0, 2).is_err());

    // Test for a node at a deeper level
    assert!(heap.get_n_son(1, 0).is_ok());
    assert_eq!(heap.get_n_son(1, 0).unwrap_or(999), 3);
    assert!(heap.get_n_son(1, 1).is_ok());
    assert_eq!(heap.get_n_son(1, 1).unwrap_or(999), 4);
    assert!(heap.get_n_son(2, 0).is_ok());
    assert_eq!(heap.get_n_son(2, 0).unwrap_or(999), 5);
    assert!(heap.get_n_son(2, 1).is_ok());
    assert_eq!(heap.get_n_son(2, 1).unwrap_or(999), 6);
}

fn contents(heap: &Heap) -> Vec<i32> {
    (0..heap.size()).map(|i| heap.value_at(i)).collect()
}

fn assert_heap_order(heap: &Heap) {
    for i in 0..heap.size() {
        for n in 0..heap.d() {
            if let Ok(c) = heap.get_n_son(i, n) {
                assert!(heap.value_at(i) >= heap.value_at(c));
            }
        }
    }
}

fn sorted(mut v: Vec<i32>) -> Vec<i32> {
    v.sort();
    v
}

#[test]
fn construct_root_and_size() {
    let heap = Heap::new(2, &[3, 1, 4, 1, 5, 9]);
    assert_eq!(heap.value_at(0), 9);
    assert_eq!(heap.size(), 6);
    assert_heap_order(&heap);
}

#[test]
fn extract_twice_keeps_order() {
    let mut heap = Heap::new(2, &[3, 1, 4, 1, 5, 9]);
    assert_eq!(heap.extract_max(), Ok(9));
    assert_eq!(heap.size(), 5);
    assert_heap_order(&heap);
    assert_eq!(heap.extract_max(), Ok(5));
    assert_eq!(sorted(contents(&heap)), vec![1, 1, 3, 4]);
}

#[test]
fn extract_on_empty_fails_and_keeps_state() {
    let mut heap = Heap::new(3, &[]);
    assert_eq!(heap.extract_max(), Err(HeapError::EmptyHeap));
    assert_eq!(heap.size(), 0);
    assert_eq!(heap.d(), 3);
}

#[test]
fn insert_at_capacity_fails_and_keeps_state() {
    let values: Vec<i32> = (0..1000).collect();
    let mut heap = Heap::new(2, &values);
    assert_eq!(heap.size(), 1000);
    let before = contents(&heap);
    assert_eq!(heap.insert(5000), Err(HeapError::HeapFull));
    assert_eq!(heap.size(), 1000);
    assert_eq!(contents(&heap), before);
}

#[test]
fn construct_clamps_to_capacity() {
    let values: Vec<i32> = (0..1500).rev().collect();
    let heap = Heap::new(4, &values);
    assert_eq!(heap.size(), 1000);
    assert_eq!(heap.value_at(0), 1499);
    assert_eq!(sorted(contents(&heap)), (500..1500).collect::<Vec<i32>>());
    assert_heap_order(&heap);
}

#[test]
fn draining_yields_non_increasing_values() {
    let values = vec![7, -3, 12, 0, 7, 45, -100, 8, 8, 2, 19];
    let mut heap = Heap::new(3, &values);
    let mut out = Vec::new();
    while let Ok(v) = heap.extract_max() {
        out.push(v);
    }
    let mut expected = values.clone();
    expected.sort();
    expected.reverse();
    assert_eq!(out, expected);
    assert_eq!(heap.size(), 0);
}

#[test]
fn change_d_keeps_values_and_rebuilds() {
    let values = vec![5, 17, 3, 99, -4, 23, 42, 8, 15, 16, 0];
    let mut heap = Heap::new(2, &values);
    let before = sorted(contents(&heap));
    assert_eq!(heap.change_d(4), Ok(()));
    assert_eq!(heap.d(), 4);
    assert_eq!(sorted(contents(&heap)), before);
    assert_heap_order(&heap);
    assert_eq!(heap.value_at(0), 99);
    assert_eq!(heap.change_d(1), Ok(()));
    assert_eq!(sorted(contents(&heap)), before);
    assert_heap_order(&heap);
}

#[test]
fn change_d_to_zero_is_refused() {
    let mut heap = Heap::new(2, &[1, 2, 3]);
    let before = contents(&heap);
    assert_eq!(heap.change_d(0), Err(HeapError::InvalidBranchingFactor));
    assert_eq!(heap.d(), 2);
    assert_eq!(contents(&heap), before);
}

#[test]
fn chain_heap_is_sorted() {
    let heap = Heap::new(1, &[4, 9, 1, 7, 3]);
    assert_eq!(contents(&heap), vec![9, 7, 4, 3, 1]);
}

#[test]
fn parent_errors() {
    let heap = Heap::new(2, &[1, 2]);
    assert_eq!(heap.get_parent(0), Err(HeapError::ParentReachedEnd));
    assert_eq!(heap.get_parent(1), Ok(0));
    assert_eq!(heap.get_parent(9), Err(HeapError::NoSuchParent));
    let wide = Heap::new(3, &[1, 2, 3, 4, 5, 6, 7]);
    assert_eq!(wide.get_parent(6), Ok(1));
}

#[test]
fn child_errors() {
    let heap = Heap::new(3, &[1, 2, 3, 4, 5]);
    assert_eq!(heap.get_n_son(0, 3), Err(HeapError::InvalidSonIndex));
    assert_eq!(heap.get_n_son(1, 0), Ok(4));
    assert_eq!(heap.get_n_son(1, 1), Err(HeapError::SonReachedEnd));
    assert_eq!(heap.get_n_son(usize::MAX, 2), Err(HeapError::SonReachedEnd));
}

#[test]
fn inserts_keep_heap_order() {
    let mut heap = Heap::new(3, &[]);
    for v in [5, -2, 8, 8, 30, 1, 0, 17, -9, 4] {
        assert_eq!(heap.insert(v), Ok(()));
        assert_heap_order(&heap);
    }
    assert_eq!(heap.size(), 10);
    assert_eq!(heap.value_at(0), 30);
}

#[test]
fn heapify_down_past_end_changes_nothing() {
    let mut heap = Heap::new(2, &[3, 2, 1]);
    let before = contents(&heap);
    assert_eq!(heap.heapify_down(7), Ok(()));
    assert_eq!(contents(&heap), before);
}

#[test]
fn levels_group_by_depth() {
    let heap = Heap::new(3, &[1, 2, 3, 4, 5, 6, 7, 8, 9, 10, 11, 12, 13]);
    let levels = heap.levels();
    assert_eq!(levels.len(), 3);
    assert_eq!(levels[0], vec![heap.value_at(0)]);
    assert_eq!(levels[0], vec![13]);
    assert_eq!(levels[1].len(), 3);
    assert_eq!(levels[2].len(), 9);
    assert_eq!(levels[2][0], heap.value_at(4));
    let flat: Vec<i32> = levels.concat();
    assert_eq!(flat, contents(&heap));
}

#[test]
fn levels_of_empty_and_chain() {
    let empty = Heap::new(2, &[]);
    assert!(empty.levels().is_empty());
    let chain = Heap::new(1, &[2, 8, 5]);
    assert_eq!(chain.levels(), vec![vec![8], vec![5], vec![2]]);
    let binary = Heap::new(2, &[1, 2, 3, 4]);
    let lv = binary.levels();
    assert_eq!(lv.len(), 3);
    assert_eq!(lv[2].len(), 1);
}

#[test]
fn change_d_to_same_d_keeps_layout() {
    let mut heap = Heap::new(3, &[4, 8, 8, 1, 9, 2, 7, 7, 3]);
    let before = contents(&heap);
    assert_eq!(heap.change_d(3), Ok(()));
    assert_eq!(contents(&heap), before);
}

#[test]
fn heapify_down_on_dominating_node_changes_nothing() {
    let mut heap = Heap::new(2, &[9, 5, 5, 5, 5]);
    let before = contents(&heap);
    heap.set_value(1, 5);
    assert_eq!(heap.heapify_down(1), Ok(()));
    assert_eq!(contents(&heap), before);
}

#[test]
fn heapify_down_stays_in_subtree() {
    // position 1 is lowered; the children of 1 head heaps, and position 2 lies outside its subtree
    let mut heap = Heap::new(2, &[9, 8, 7, 6, 5, 4, 3]);
    heap.set_value(1, 1);
    assert_eq!(heap.heapify_down(1), Ok(()));
    assert_eq!(heap.value_at(1), 6);
    assert_eq!(heap.value_at(3), 1);
    assert_eq!(heap.value_at(2), 7);
    assert_eq!(heap.value_at(5), 4);
    assert_eq!(heap.value_at(6), 3);
}
