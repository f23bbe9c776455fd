use nasp_homework::fibheap::{FibHeap, Handle, HeapError};

fn drain(heap: &mut FibHeap<i32>) -> Vec<i32> {
    let mut out = Vec::new();
    while let Some(x) = heap.pop() {
        out.push(x);
    }
    out
}

fn next_random(state: &mut u64) -> u64 {
    *state = state.wrapping_mul(6364136223846793005).wrapping_add(1442695040888963407);
    *state >> 33
}

#[test]
fn test_decrease_key() {
    let mut heap = FibHeap::new();
    heap.push(10);
    heap.push(20);
    let node = heap.push(30);

    assert_eq!(heap.decrease_key(node, 5), Ok(()));

    assert_eq!(heap.peek(), Some(&5));
}

#[test]
fn fibheap_test_delete() {
    let mut heap = FibHeap::new();
    heap.push(10);
    heap.push(20);
    let node = heap.push(30);

    assert_eq!(heap.delete(node), Ok(30));

    assert_eq!(heap.len(), 2);
    assert_eq!(heap.peek(), Some(&10));
}

#[test]
fn new_heap_is_empty() {
    let mut heap: FibHeap<u32> = FibHeap::new();
    assert_eq!(heap.len(), 0);
    assert!(heap.is_empty());
    assert_eq!(heap.peek(), None);
    assert_eq!(heap.pop(), None);
    assert_eq!(heap.len(), 0);
}

#[test]
fn pops_by_min() {
    let mut heap = FibHeap::new();
    for x in [5, 3, 8, 1] {
        heap.push(x);
    }
    assert_eq!(drain(&mut heap), vec![1, 3, 5, 8]);
    assert!(heap.is_empty());
}

#[test]
fn pops_by_min_with_repeats() {
    let xs: Vec<u32> = vec![7, 0, 7, 3, 3, 9, 0, 1, 4294967295, 2, 7];
    let mut heap = FibHeap::new();
    for x in &xs {
        heap.push(*x);
    }
    let mut sorted = xs.clone();
    sorted.sort();
    let mut out = Vec::new();
    while let Some(x) = heap.pop() {
        out.push(x);
    }
    assert_eq!(out, sorted);
}

#[test]
fn counting_nodes() {
    for n in 0..20usize {
        let mut heap = FibHeap::new();
        for x in 0..n {
            heap.push((x * 7 % 5) as u32);
        }
        assert_eq!(heap.len(), n);
        heap.pop();
        assert_eq!(heap.len(), n.saturating_sub(1));
    }
}

#[test]
fn push_maintains_peek_min() {
    let xs: Vec<u32> = vec![9, 4, 6, 4, 1, 8, 0, 3, 3, 7, 2, 5, 11, 0, 6];
    let mut heap = FibHeap::new();
    for (i, x) in xs.into_iter().enumerate() {
        if i % 4 == 0 {
            heap.pop();
        } else {
            let min = heap.peek().copied();
            heap.push(x);
            match min {
                Some(x_) if x > x_ => assert_eq!(min.as_ref(), heap.peek()),
                None | Some(_) => assert_eq!(Some(&x), heap.peek()),
            }
        }
    }
}

#[test]
fn peek_is_the_minimum_after_mixed_operations() {
    let mut heap = FibHeap::new();
    let a = heap.push(40);
    let b = heap.push(25);
    let c = heap.push(60);
    heap.push(30);
    assert_eq!(heap.peek(), Some(&25));
    assert_eq!(heap.pop(), Some(25));
    assert_eq!(heap.peek(), Some(&30));
    assert_eq!(heap.decrease_key(c, 10), Ok(()));
    assert_eq!(heap.peek(), Some(&10));
    assert_eq!(heap.delete(c), Ok(10));
    assert_eq!(heap.peek(), Some(&30));
    assert_eq!(heap.delete(b), Err(HeapError::InvalidHandle));
    assert_eq!(heap.delete(a), Ok(40));
    assert_eq!(heap.peek(), Some(&30));
    assert_eq!(heap.len(), 1);
}

#[test]
fn union_pops_in_order() {
    let mut one = FibHeap::new();
    let mut two = FibHeap::new();
    for x in [1, 4, 9] {
        one.push(x);
    }
    for x in [2, 3, 10] {
        two.push(x);
    }
    let mut heap = FibHeap::union(one, two);
    assert_eq!(heap.len(), 6);
    assert_eq!(heap.peek(), Some(&1));
    assert_eq!(drain(&mut heap), vec![1, 2, 3, 4, 9, 10]);
}

#[test]
fn union_adds_lengths_and_takes_the_lesser_minimum() {
    let mut one = FibHeap::new();
    let mut two = FibHeap::new();
    one.push(7);
    one.push(5);
    two.push(6);
    two.push(2);
    two.push(8);
    let heap = FibHeap::union(one, two);
    assert_eq!(heap.len(), 5);
    assert_eq!(heap.peek(), Some(&2));
}

#[test]
fn union_with_an_empty_heap() {
    let mut one = FibHeap::new();
    one.push(3);
    one.push(1);
    let two: FibHeap<i32> = FibHeap::new();
    let mut heap = FibHeap::union(one, two);
    assert_eq!(heap.len(), 2);
    assert_eq!(heap.peek(), Some(&1));

    let three: FibHeap<i32> = FibHeap::new();
    let mut heap = FibHeap::union(three, {
        let mut rest = FibHeap::new();
        while let Some(x) = heap.pop() {
            rest.push(x);
        }
        rest
    });
    assert_eq!(heap.len(), 2);
    assert_eq!(drain(&mut heap), vec![1, 3]);

    let empty = FibHeap::union(FibHeap::<i32>::new(), FibHeap::<i32>::new());
    assert!(empty.is_empty());
    assert_eq!(empty.peek(), None);
}

#[test]
fn union_keeps_first_handles_and_rebases_second_handles() {
    let mut one = FibHeap::new();
    let mut two = FibHeap::new();
    let a = one.push(50);
    let stale = one.push(45);
    assert_eq!(one.delete(stale), Ok(45));
    let b = two.push(60);
    let c = two.push(70);
    two.push(65);
    assert_eq!(two.pop(), Some(60));

    let by = one.span();
    assert_eq!(by, 2);
    let mut heap = FibHeap::union(one, two);
    assert_eq!(heap.span(), 5);
    let b = b.rebase(by).unwrap();
    let c = c.rebase(by).unwrap();

    assert_eq!(heap.decrease_key(b, 1), Err(HeapError::InvalidHandle));
    assert_eq!(heap.delete(stale), Err(HeapError::InvalidHandle));
    assert_eq!(heap.decrease_key(c, 10), Ok(()));
    assert_eq!(heap.peek(), Some(&10));
    assert_eq!(heap.decrease_key(a, 5), Ok(()));
    assert_eq!(drain(&mut heap), vec![5, 10, 65]);
}

#[test]
fn rebase_fails_only_beyond_the_largest_index() {
    let mut heap = FibHeap::new();
    let h: Handle = heap.push(1u8);
    assert_eq!(h.rebase(0), Some(h));
    assert!(h.rebase(usize::MAX).is_some());
    heap.push(2u8);
    let second = heap.push(3u8);
    assert_eq!(second.rebase(usize::MAX), None);
    assert!(second.rebase(usize::MAX - 2).is_some());
    assert_ne!(second.rebase(1), Some(second));
}

#[test]
fn equal_minima_in_a_union_favor_the_second_heap() {
    let mut one = FibHeap::new();
    let mut two = FibHeap::new();
    let a = one.push(4);
    let b = two.push(4);
    let by = one.span();
    let mut heap = FibHeap::union(one, two);
    assert_eq!(heap.pop(), Some(4));
    assert_eq!(heap.delete(b.rebase(by).unwrap()), Err(HeapError::InvalidHandle));
    assert_eq!(heap.delete(a), Ok(4));
}

#[test]
fn a_pushed_value_equal_to_the_minimum_becomes_the_minimum() {
    let mut heap = FibHeap::new();
    let first = heap.push(3);
    let second = heap.push(3);
    assert_eq!(heap.pop(), Some(3));
    assert_eq!(heap.delete(second), Err(HeapError::InvalidHandle));
    assert_eq!(heap.delete(first), Ok(3));
}

#[test]
fn a_key_lowered_to_the_minimum_does_not_take_its_place() {
    let mut heap = FibHeap::new();
    let low = heap.push(2);
    let high = heap.push(9);
    assert_eq!(heap.decrease_key(high, 2), Ok(()));
    assert_eq!(heap.pop(), Some(2));
    assert_eq!(heap.delete(low), Err(HeapError::InvalidHandle));
    assert_eq!(heap.delete(high), Ok(2));
}

#[test]
fn decrease_key_scenario() {
    let mut heap = FibHeap::new();
    heap.push(0);
    heap.push(3);
    heap.push(5);
    let eight = heap.push(8);
    assert_eq!(heap.decrease_key(eight, -1), Ok(()));
    assert_eq!(heap.peek(), Some(&-1));
    assert_eq!(drain(&mut heap), vec![-1, 0, 3, 5]);
}

#[test]
fn decrease_key_scenario_in_another_order() {
    let mut heap = FibHeap::new();
    let eight = heap.push(8);
    heap.push(5);
    heap.push(0);
    heap.push(3);
    assert_eq!(heap.decrease_key(eight, -1), Ok(()));
    assert_eq!(heap.peek(), Some(&-1));
    assert_eq!(drain(&mut heap), vec![-1, 0, 3, 5]);
}

#[test]
fn decrease_key_lowers_the_minimum_and_rejects_an_increase() {
    let mut heap = FibHeap::new();
    heap.push(10);
    let h = heap.push(20);
    heap.push(30);
    assert_eq!(heap.decrease_key(h, 15), Ok(()));
    assert_eq!(heap.peek(), Some(&10));
    assert_eq!(heap.decrease_key(h, 7), Ok(()));
    assert_eq!(heap.peek(), Some(&7));
    assert_eq!(heap.decrease_key(h, 8), Err(HeapError::InvalidKeyIncrease));
    assert_eq!(heap.peek(), Some(&7));
    assert_eq!(heap.len(), 3);
    assert_eq!(heap.decrease_key(h, 7), Ok(()));
    assert_eq!(drain(&mut heap), vec![7, 10, 30]);
}

#[test]
fn decrease_key_inside_a_tree_cuts_the_node() {
    let mut heap = FibHeap::new();
    let mut handles = Vec::new();
    for x in 0..17 {
        handles.push(heap.push(x * 10));
    }
    assert_eq!(heap.pop(), Some(0));
    assert_eq!(heap.decrease_key(handles[16], 5), Ok(()));
    assert_eq!(heap.peek(), Some(&5));
    assert_eq!(heap.decrease_key(handles[15], 15), Ok(()));
    assert_eq!(heap.decrease_key(handles[14], 14), Ok(()));
    assert_eq!(heap.decrease_key(handles[13], 130), Ok(()));
    assert_eq!(heap.decrease_key(handles[12], 12), Ok(()));
    assert_eq!(heap.decrease_key(handles[9], 9), Ok(()));
    assert_eq!(heap.decrease_key(handles[10], 11), Ok(()));
    assert_eq!(heap.len(), 16);
    assert_eq!(
        drain(&mut heap),
        vec![5, 9, 10, 11, 12, 14, 15, 20, 30, 40, 50, 60, 70, 80, 110, 130]
    );
}

#[test]
fn delete_removes_exactly_the_node() {
    let mut heap = FibHeap::new();
    let mut handles = Vec::new();
    for x in [12, 7, 25, 7, 3, 18, 9, 30, 1] {
        handles.push(heap.push(x));
    }
    assert_eq!(heap.pop(), Some(1));
    assert_eq!(heap.delete(handles[3]), Ok(7));
    assert_eq!(heap.len(), 7);
    assert_eq!(heap.delete(handles[3]), Err(HeapError::InvalidHandle));
    assert_eq!(heap.len(), 7);
    assert_eq!(heap.delete(handles[2]), Ok(25));
    assert_eq!(heap.delete(handles[4]), Ok(3));
    assert_eq!(heap.peek(), Some(&7));
    assert_eq!(drain(&mut heap), vec![7, 9, 12, 18, 30]);
}

#[test]
fn delete_of_the_only_node_empties_the_heap() {
    let mut heap = FibHeap::new();
    let h = heap.push(4u64);
    assert_eq!(heap.delete(h), Ok(4));
    assert!(heap.is_empty());
    assert_eq!(heap.peek(), None);
    assert_eq!(heap.pop(), None);
}

#[test]
fn a_popped_node_leaves_its_handle_invalid_for_good() {
    let mut heap = FibHeap::new();
    let h = heap.push(1);
    assert_eq!(heap.pop(), Some(1));
    assert_eq!(heap.decrease_key(h, 0), Err(HeapError::InvalidHandle));
    assert_eq!(heap.delete(h), Err(HeapError::InvalidHandle));
    let again = heap.push(1);
    assert_ne!(h, again);
    assert_eq!(heap.span(), 1);
    assert_eq!(heap.decrease_key(h, 0), Err(HeapError::InvalidHandle));
    assert_eq!(heap.delete(h), Err(HeapError::InvalidHandle));
    assert_eq!(heap.peek(), Some(&1));
    assert_eq!(heap.delete(again), Ok(1));
}

#[test]
fn a_handle_of_another_heap_that_names_no_slot_is_rejected() {
    let mut big = FibHeap::new();
    big.push(1);
    let far = big.push(2);
    let mut small = FibHeap::new();
    small.push(1);
    assert_eq!(small.delete(far), Err(HeapError::InvalidHandle));
    assert_eq!(small.decrease_key(far, 0), Err(HeapError::InvalidHandle));
    assert_eq!(small.len(), 1);
}

#[test]
fn extend_pushes_in_order() {
    let mut heap = FibHeap::new();
    let first = heap.push(6);
    let handles = heap.extend(vec![4, 9, 4, 2]);
    assert_eq!(handles.len(), 4);
    assert_eq!(heap.len(), 5);
    assert_eq!(heap.peek(), Some(&2));
    assert!(!handles.contains(&first));
    assert_eq!(heap.delete(handles[1]), Ok(9));
    assert_eq!(heap.delete(handles[2]), Ok(4));
    assert_eq!(drain(&mut heap), vec![2, 4, 6]);
    assert_eq!(heap.extend(Vec::new()), Vec::new());
}

#[test]
fn unsigned_and_wide_elements_are_ordered_by_value() {
    let mut heap = FibHeap::new();
    for x in [u64::MAX, 0, 1 << 40, 17] {
        heap.push(x);
    }
    assert_eq!(heap.pop(), Some(0));
    assert_eq!(heap.pop(), Some(17));
    assert_eq!(heap.pop(), Some(1 << 40));
    assert_eq!(heap.pop(), Some(u64::MAX));

    let mut signed = FibHeap::new();
    for x in [i8::MAX, -1, i8::MIN, 0] {
        signed.push(x);
    }
    assert_eq!(signed.pop(), Some(i8::MIN));
    assert_eq!(signed.pop(), Some(-1));
}

#[test]
fn random_operations_agree_with_a_sorted_list() {
    let mut state: u64 = 0x2545F4914F6CDD1D;
    for round in 0..40 {
        let mut heap: FibHeap<i32> = FibHeap::new();
        let mut live: Vec<(Handle, i32)> = Vec::new();
        let mut dead: Vec<Handle> = Vec::new();
        for _ in 0..(200 + round * 10) {
            let choice = next_random(&mut state) % 10;
            if choice < 4 || live.is_empty() {
                let value = (next_random(&mut state) % 1000) as i32;
                let h = heap.push(value);
                assert!(live.iter().all(|(k, _)| *k != h));
                assert!(!dead.contains(&h));
                live.push((h, value));
            } else if choice < 6 {
                let least = live.iter().map(|(_, v)| *v).min().unwrap();
                assert_eq!(heap.peek(), Some(&least));
                assert_eq!(heap.pop(), Some(least));
                let mut gone = None;
                for (i, (h, v)) in live.iter().enumerate() {
                    if *v == least && heap.decrease_key(*h, *v) == Err(HeapError::InvalidHandle) {
                        assert!(gone.is_none());
                        gone = Some(i);
                    }
                }
                let (h, _) = live.remove(gone.unwrap());
                dead.push(h);
            } else if choice < 8 {
                let i = (next_random(&mut state) as usize) % live.len();
                let (h, v) = live[i];
                let lower = v - (next_random(&mut state) % 300) as i32;
                assert_eq!(heap.decrease_key(h, lower), Ok(()));
                assert_eq!(heap.decrease_key(h, lower + 1), Err(HeapError::InvalidKeyIncrease));
                live[i].1 = lower;
            } else if choice < 9 {
                let i = (next_random(&mut state) as usize) % live.len();
                let (h, v) = live.remove(i);
                assert_eq!(heap.delete(h), Ok(v));
                dead.push(h);
            } else if !dead.is_empty() {
                let i = (next_random(&mut state) as usize) % dead.len();
                assert_eq!(heap.delete(dead[i]), Err(HeapError::InvalidHandle));
                assert_eq!(heap.decrease_key(dead[i], i32::MIN), Err(HeapError::InvalidHandle));
            }
            assert_eq!(heap.len(), live.len());
            assert_eq!(heap.peek().copied(), live.iter().map(|(_, v)| *v).min());
        }
        let mut expected: Vec<i32> = live.iter().map(|(_, v)| *v).collect();
        expected.sort();
        assert_eq!(drain(&mut heap), expected);
    }
}

#[test]
fn random_unions_agree_with_a_sorted_list() {
    let mut state: u64 = 0x9E3779B97F4A7C15;
    for _ in 0..30 {
        let mut one: FibHeap<i32> = FibHeap::new();
        let mut two: FibHeap<i32> = FibHeap::new();
        let mut first: Vec<(Handle, i32)> = Vec::new();
        let mut second: Vec<(Handle, i32)> = Vec::new();
        for _ in 0..(next_random(&mut state) % 40) {
            let v = (next_random(&mut state) % 100) as i32;
            first.push((one.push(v), v));
        }
        for _ in 0..(next_random(&mut state) % 40) {
            let v = (next_random(&mut state) % 100) as i32;
            second.push((two.push(v), v));
        }
        for _ in 0..(next_random(&mut state) % 5) {
            if let Some(x) = one.pop() {
                let i = first.iter().position(|(h, v)| {
                    *v == x && one.decrease_key(*h, *v) == Err(HeapError::InvalidHandle)
                });
                first.remove(i.unwrap());
            }
            if let Some(x) = two.pop() {
                let i = second.iter().position(|(h, v)| {
                    *v == x && two.decrease_key(*h, *v) == Err(HeapError::InvalidHandle)
                });
                second.remove(i.unwrap());
            }
        }
        let by = one.span();
        let mut heap = FibHeap::union(one, two);
        let mut all: Vec<(Handle, i32)> = first.clone();
        for (h, v) in &second {
            all.push((h.rebase(by).unwrap(), *v));
        }
        assert_eq!(heap.len(), all.len());
        assert_eq!(heap.peek().copied(), all.iter().map(|(_, v)| *v).min());
        for (h, v) in all.iter_mut() {
            if next_random(&mut state) % 3 == 0 {
                *v -= 50;
                assert_eq!(heap.decrease_key(*h, *v), Ok(()));
            }
        }
        let mut expected: Vec<i32> = all.iter().map(|(_, v)| *v).collect();
        expected.sort();
        assert_eq!(drain(&mut heap), expected);
    }
}
