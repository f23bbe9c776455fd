use nasp_homework::rbtree::RbTree;
use std::collections::BTreeSet;

fn next_random(state: &mut u64) -> u64 {
    *state = state.wrapping_mul(6364136223846793005).wrapping_add(1442695040888963407);
    *state >> 33
}

/// The height of the tree with the given traversals: the root is the
/// first key in preorder, and splits the keys in ascending order.
fn height(preorder: &[u32], inorder: &[u32]) -> usize {
    if preorder.is_empty() {
        return 0;
    }
    let at = inorder.iter().position(|k| *k == preorder[0]).unwrap();
    let left = height(&preorder[1..=at], &inorder[..at]);
    let right = height(&preorder[at + 1..], &inorder[at + 1..]);
    1 + left.max(right)
}

fn assert_balanced(tree: &RbTree<u32>) {
    let inorder = tree.inorder_traverse();
    let preorder = tree.preorder_tranverse();
    assert_eq!(inorder.len(), preorder.len());
    let mut limit = 0;
    while (1usize << limit) < inorder.len() + 1 {
        limit += 1;
    }
    assert!(height(&preorder, &inorder) <= 2 * limit);
}

#[test]
fn tests_test_insert() {
    let mut tree: RbTree<u32> = RbTree::new();

    assert!(tree.is_empty());

    let mut elements: Vec<u32> = vec![6, 11, 10, 2, 9, 7, 5, 13, 22, 27, 36, 12, 31];

    for element in elements.iter() {
        tree.insert(*element);
    }

    let result = tree.inorder_traverse();

    elements.sort();

    assert_eq!(result, elements);
}

#[test]
fn tests_test_clear() {
    let mut tree: RbTree<u32> = RbTree::new();

    assert!(tree.is_empty());

    let elements: Vec<u32> = vec![6, 11, 10, 2, 9];

    for element in elements.iter() {
        tree.insert(*element);
    }

    tree.clear();

    let result = tree.inorder_traverse();

    assert_eq!(result.len(), 0)
}

#[test]
fn rbtree_test_insert() {
    let mut tree: RbTree<u32> = RbTree::new();

    assert!(tree.is_empty());

    let mut elements: Vec<u32> = vec![6, 11, 10, 2, 9, 7, 5, 13, 22, 27, 36, 12, 31];

    for element in elements.iter() {
        tree.insert(*element);
    }

    let result = tree.inorder_traverse();

    elements.sort();

    assert_eq!(result, elements);
}

#[test]
fn rbtree_test_clear() {
    let mut tree: RbTree<u32> = RbTree::new();

    assert!(tree.is_empty());

    let elements: Vec<u32> = vec![6, 11, 10, 2, 9];

    for element in elements.iter() {
        tree.insert(*element);
    }

    tree.clear();

    let result = tree.inorder_traverse();

    assert_eq!(result.len(), 0)
}

#[test]
fn rbtree_test_delete() {
    let mut tree: RbTree<u32> = RbTree::new();

    assert!(tree.is_empty());

    let mut elements: Vec<u32> = vec![6, 11, 10, 2, 9, 7, 5, 13, 22, 27, 36, 12, 31];

    for element in elements.iter() {
        tree.insert(*element);
    }

    let to_remove: Vec<u32> = vec![5, 27, 36, 12, 11];

    for element in to_remove.iter() {
        println!("Current tree: {:?}", tree.preorder_tranverse());
        println!("Removing element: {}", *element);
        tree.delete(&*element);
        elements.retain(|value| *value != *element);
    }

    elements.sort();

    let result = tree.inorder_traverse();

    assert_eq!(result, elements)
}

#[test]
fn insert_says_whether_the_key_was_added() {
    let mut tree: RbTree<i32> = RbTree::new();
    assert!(tree.insert(4));
    assert!(tree.insert(-7));
    assert!(!tree.insert(4));
    assert!(tree.insert(0));
    assert!(!tree.insert(-7));
    assert!(!tree.is_empty());
    assert_eq!(tree.inorder_traverse(), vec![-7, 0, 4]);
}

#[test]
fn delete_returns_the_key_that_was_there() {
    let mut tree: RbTree<u32> = RbTree::new();
    for k in [8, 3, 5] {
        tree.insert(k);
    }
    assert_eq!(tree.delete(&4), None);
    assert_eq!(tree.inorder_traverse(), vec![3, 5, 8]);
    assert_eq!(tree.delete(&3), Some(3));
    assert_eq!(tree.delete(&3), None);
    assert_eq!(tree.inorder_traverse(), vec![5, 8]);
    assert_eq!(tree.delete(&8), Some(8));
    assert_eq!(tree.delete(&5), Some(5));
    assert!(tree.is_empty());
    assert_eq!(tree.delete(&5), None);
    assert_eq!(RbTree::<u32>::new().delete(&1), None);
}

#[test]
fn preorder_starts_at_the_root() {
    let mut tree: RbTree<u32> = RbTree::new();
    assert_eq!(tree.preorder_tranverse(), Vec::<u32>::new());
    tree.insert(1);
    assert_eq!(tree.preorder_tranverse(), vec![1]);
    tree.insert(2);
    assert_eq!(tree.preorder_tranverse(), vec![1, 2]);
    tree.insert(3);
    assert_eq!(tree.preorder_tranverse(), vec![2, 1, 3]);
    tree.insert(4);
    assert_eq!(tree.preorder_tranverse(), vec![2, 1, 3, 4]);
    tree.insert(5);
    assert_eq!(tree.preorder_tranverse(), vec![2, 1, 4, 3, 5]);
    tree.insert(6);
    tree.insert(7);
    tree.insert(8);
    assert_eq!(tree.preorder_tranverse(), vec![4, 2, 1, 3, 6, 5, 7, 8]);
    assert_eq!(tree.inorder_traverse(), vec![1, 2, 3, 4, 5, 6, 7, 8]);
}

#[test]
fn deleting_a_node_with_two_children_lifts_its_successor() {
    let mut tree: RbTree<u32> = RbTree::new();
    for k in 1..=8 {
        tree.insert(k);
    }
    assert_eq!(tree.delete(&4), Some(4));
    assert_eq!(tree.preorder_tranverse(), vec![5, 2, 1, 3, 7, 6, 8]);
    assert_eq!(tree.delete(&5), Some(5));
    assert_eq!(tree.preorder_tranverse(), vec![6, 2, 1, 3, 7, 8]);
    assert_eq!(tree.inorder_traverse(), vec![1, 2, 3, 6, 7, 8]);
}

#[test]
fn a_tree_filled_in_ascending_order_stays_low() {
    let mut tree: RbTree<u32> = RbTree::new();
    for k in 0..1000 {
        assert!(tree.insert(k));
    }
    assert_balanced(&tree);
    for k in 0..900 {
        assert_eq!(tree.delete(&k), Some(k));
    }
    assert_balanced(&tree);
    assert_eq!(tree.inorder_traverse(), (900..1000).collect::<Vec<u32>>());
}

#[test]
fn random_operations_agree_with_an_ordered_set() {
    let mut state: u64 = 0xD1B54A32D192ED03;
    for round in 0..30 {
        let mut tree: RbTree<u32> = RbTree::new();
        let mut model: BTreeSet<u32> = BTreeSet::new();
        let span = 20 + round * 15;
        for step in 0..600 {
            let key = (next_random(&mut state) % span) as u32;
            if next_random(&mut state) % 5 < 3 {
                assert_eq!(tree.insert(key), model.insert(key));
            } else {
                let expected = if model.remove(&key) { Some(key) } else { None };
                assert_eq!(tree.delete(&key), expected);
            }
            assert_eq!(tree.is_empty(), model.is_empty());
            if step % 50 == 0 {
                assert_eq!(tree.inorder_traverse(), model.iter().copied().collect::<Vec<u32>>());
                let mut preorder = tree.preorder_tranverse();
                preorder.sort();
                assert_eq!(preorder, model.iter().copied().collect::<Vec<u32>>());
                assert_balanced(&tree);
            }
        }
        assert_eq!(tree.inorder_traverse(), model.iter().copied().collect::<Vec<u32>>());
        assert_balanced(&tree);
        tree.clear();
        assert!(tree.is_empty());
        assert_eq!(tree.preorder_tranverse(), Vec::<u32>::new());
    }
}
