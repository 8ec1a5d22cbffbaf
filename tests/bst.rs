use kelk::bst::StorageBST;
use kelk::header::Header;
use kelk::storage::{mock_storage, read_record, Error, MockStorage};

#[test]
fn test_insert_find() {
    let mut storage = mock_storage(1024);
    let mut bst_1 = StorageBST::<i32, i64>::create(&mut storage).unwrap();

    assert!(bst_1.is_empty());
    assert_eq!(None, bst_1.insert(&mut storage, 1, 10).unwrap());
    assert_eq!(None, bst_1.insert(&mut storage, 3, 30).unwrap());
    assert_eq!(None, bst_1.insert(&mut storage, 2, 20).unwrap());
    assert_eq!(Some(10), bst_1.insert(&mut storage, 1, 100).unwrap());

    let bst_2 = StorageBST::<i32, i64>::load(&storage, bst_1.offset()).unwrap();
    assert_eq!(3, bst_2.len());
    assert_eq!(Some(20), bst_2.find(&storage, &2).unwrap());
    assert_eq!(None, bst_2.find(&storage, &4).unwrap());
    assert_eq!(Some(30), bst_2.find(&storage, &3).unwrap());
    assert_eq!(Some(100), bst_2.find(&storage, &1).unwrap());

    let bst_3 = StorageBST::<i32, i64>::load(&storage, bst_2.offset()).unwrap();
    assert!(!bst_3.contains_key(&storage, &-1).unwrap());
    assert!(bst_3.contains_key(&storage, &2).unwrap());
    assert!(!bst_3.contains_key(&storage, &4).unwrap());
}

#[test]
fn test_remove() {
    let mut storage = mock_storage(1024);
    let mut bst_1 = StorageBST::<i32, i64>::create(&mut storage).unwrap();

    // remove from the empty bst
    assert_eq!(None, bst_1.remove(&mut storage, &1).unwrap());

    // insert some key-value pairs
    assert_eq!(None, bst_1.insert(&mut storage, 15, 15).unwrap());
    assert_eq!(None, bst_1.insert(&mut storage, 10, 10).unwrap());
    assert_eq!(None, bst_1.insert(&mut storage, 20, 20).unwrap());
    assert_eq!(None, bst_1.insert(&mut storage, 25, 25).unwrap());
    assert_eq!(None, bst_1.insert(&mut storage, 18, 18).unwrap());

    // deleting a node with two children
    assert_eq!(Some(15), bst_1.remove(&mut storage, &15).unwrap());
    assert_eq!(None, bst_1.find(&storage, &15).unwrap());

    // remove a key-value pair that doesn't exist
    assert_eq!(None, bst_1.remove(&mut storage, &0).unwrap());
    assert_eq!(4, bst_1.len());

    // remove all key-value pairs
    assert_eq!(Some(18), bst_1.remove(&mut storage, &18).unwrap());
    assert_eq!(Some(25), bst_1.remove(&mut storage, &25).unwrap());
    assert_eq!(Some(20), bst_1.remove(&mut storage, &20).unwrap());
    assert_eq!(Some(10), bst_1.remove(&mut storage, &10).unwrap());

    let bst_2 = StorageBST::<i32, i64>::load(&storage, bst_1.offset()).unwrap();
    assert_eq!(0, bst_2.len());
    assert!(bst_2.is_empty());
}

#[test]
fn two_children_deletion_keeps_order() {
    let mut storage = mock_storage(1024);
    let mut bst = StorageBST::<i32, i64>::create(&mut storage).unwrap();
    for k in [15, 10, 20, 25, 18] {
        assert_eq!(None, bst.insert(&mut storage, k, k as i64 * 2).unwrap());
    }
    assert_eq!(Some(30), bst.remove(&mut storage, &15).unwrap());
    assert_eq!(None, bst.find(&storage, &15).unwrap());
    assert_eq!(4, bst.len());
    assert_eq!(vec![10, 18, 20, 25], bst.inorder_keys(&storage).unwrap());
    assert_eq!(Some(36), bst.find(&storage, &18).unwrap());
    assert_eq!(Some(50), bst.find(&storage, &25).unwrap());
}

#[test]
fn successor_with_right_child_keeps_its_subtree() {
    let mut storage = mock_storage(1024);
    let mut bst = StorageBST::<i32, i64>::create(&mut storage).unwrap();
    for k in [15, 10, 30, 20, 40, 25] {
        bst.insert(&mut storage, k, k as i64).unwrap();
    }
    // 20 is the successor of 15 and has 25 as its right child
    assert_eq!(Some(15), bst.remove(&mut storage, &15).unwrap());
    assert_eq!(5, bst.len());
    assert_eq!(vec![10, 20, 25, 30, 40], bst.inorder_keys(&storage).unwrap());
    assert_eq!(Some(25), bst.find(&storage, &25).unwrap());
}

#[test]
fn single_child_removal_keeps_the_child() {
    let mut storage = mock_storage(1024);
    let mut bst = StorageBST::<i32, i64>::create(&mut storage).unwrap();
    for k in [50, 30, 20, 70, 80] {
        bst.insert(&mut storage, k, k as i64).unwrap();
    }
    // 30 has only a left child, 70 only a right child
    assert_eq!(Some(30), bst.remove(&mut storage, &30).unwrap());
    assert_eq!(Some(70), bst.remove(&mut storage, &70).unwrap());
    assert_eq!(vec![20, 50, 80], bst.inorder_keys(&storage).unwrap());
    // the root with one child
    assert_eq!(Some(50), bst.remove(&mut storage, &50).unwrap());
    assert_eq!(vec![20, 80], bst.inorder_keys(&storage).unwrap());
    assert_eq!(2, bst.len());
}

#[test]
fn empty_tree_behaviour() {
    let mut storage = mock_storage(64);
    let mut bst = StorageBST::<u32, u32>::create(&mut storage).unwrap();
    assert_eq!(0, bst.len());
    assert!(bst.is_empty());
    assert_eq!(None, bst.find(&storage, &7).unwrap());
    assert!(!bst.contains_key(&storage, &7).unwrap());
    assert_eq!(None, bst.remove(&mut storage, &7).unwrap());
    assert_eq!(Vec::<u32>::new(), bst.inorder_keys(&storage).unwrap());
}

#[test]
fn insert_overwrites_present_key() {
    let mut storage = mock_storage(1024);
    let mut bst = StorageBST::<u64, u8>::create(&mut storage).unwrap();
    bst.insert(&mut storage, 5, 1).unwrap();
    bst.insert(&mut storage, 3, 2).unwrap();
    bst.insert(&mut storage, 8, 3).unwrap();
    assert_eq!(Some(2), bst.insert(&mut storage, 3, 9).unwrap());
    assert_eq!(3, bst.len());
    assert_eq!(Some(9), bst.find(&storage, &3).unwrap());
    assert_eq!(vec![3, 5, 8], bst.inorder_keys(&storage).unwrap());
}

#[test]
fn persistence_round_trip() {
    let mut storage = mock_storage(2048);
    let mut bst = StorageBST::<i32, i64>::create(&mut storage).unwrap();
    for k in [4, -2, 9, 0, 7, 12] {
        bst.insert(&mut storage, k, k as i64 + 100).unwrap();
    }
    bst.remove(&mut storage, &9).unwrap();
    bst.remove(&mut storage, &-2).unwrap();
    let handle = bst.offset();

    let again = StorageBST::<i32, i64>::load(&storage, handle).unwrap();
    assert_eq!(bst.len(), again.len());
    assert_eq!(4, again.len());
    for k in [-2, 0, 4, 7, 9, 12, 13] {
        assert_eq!(bst.find(&storage, &k).unwrap(), again.find(&storage, &k).unwrap());
    }
    assert_eq!(Some(104), again.find(&storage, &4).unwrap());
    assert_eq!(None, again.find(&storage, &9).unwrap());
}

#[test]
fn allocation_exhaustion_changes_nothing() {
    // 4 reserved bytes, a 12-byte header, then room for one 20-byte node
    let mut storage = mock_storage(36);
    let mut bst = StorageBST::<i32, i64>::create(&mut storage).unwrap();
    assert_eq!(None, bst.insert(&mut storage, 1, 10).unwrap());
    assert_eq!(Err(Error::AllocationExhausted), bst.insert(&mut storage, 2, 20));
    assert_eq!(1, bst.len());
    assert_eq!(Some(10), bst.find(&storage, &1).unwrap());
    assert_eq!(None, bst.find(&storage, &2).unwrap());
    // overwriting a present key needs no room
    assert_eq!(Some(10), bst.insert(&mut storage, 1, 11).unwrap());
    let again = StorageBST::<i32, i64>::load(&storage, bst.offset()).unwrap();
    assert_eq!(1, again.len());
}

#[test]
fn create_fails_without_room() {
    let mut storage = mock_storage(10);
    assert_eq!(
        Err(Error::AllocationExhausted),
        StorageBST::<i32, i64>::create(&mut storage).map(|b| b.len())
    );
}

#[test]
fn load_validates_widths_and_bounds() {
    let mut storage = mock_storage(256);
    let bst = StorageBST::<i32, i64>::create(&mut storage).unwrap();
    assert_eq!(
        Err(Error::TypeMismatch),
        StorageBST::<i64, i64>::load(&storage, bst.offset()).map(|b| b.len())
    );
    assert_eq!(
        Err(Error::TypeMismatch),
        StorageBST::<i32, i32>::load(&storage, bst.offset()).map(|b| b.len())
    );
    assert_eq!(
        Err(Error::StorageBounds),
        StorageBST::<i32, i64>::load(&storage, 250).map(|b| b.len())
    );
}

#[test]
fn many_operations_keep_keys_ascending() {
    let mut storage = mock_storage(8192);
    let mut bst = StorageBST::<i32, u16>::create(&mut storage).unwrap();
    let mut x: i32 = 17;
    for _ in 0..120 {
        x = (x * 37 + 11) % 101;
        if x % 3 == 0 {
            bst.remove(&mut storage, &(x / 2)).unwrap();
        } else {
            bst.insert(&mut storage, x, x as u16).unwrap();
        }
    }
    let keys = bst.inorder_keys(&storage).unwrap();
    assert_eq!(keys.len() as u32, bst.len());
    for w in keys.windows(2) {
        assert!(w[0] < w[1]);
    }
    for k in keys {
        assert_eq!(Some(k as u16), bst.find(&storage, &k).unwrap());
    }
}

#[test]
fn byte_array_keys_order_lexicographically() {
    let mut storage = mock_storage(1024);
    let mut bst = StorageBST::<[u8; 3], bool>::create(&mut storage).unwrap();
    for k in [[1, 0, 0], [0, 255, 255], [1, 0, 1], [0, 0, 9]] {
        assert_eq!(None, bst.insert(&mut storage, k, k[2] == 1).unwrap());
    }
    assert_eq!(
        vec![[0, 0, 9], [0, 255, 255], [1, 0, 0], [1, 0, 1]],
        bst.inorder_keys(&storage).unwrap()
    );
    assert_eq!(Some(true), bst.find(&storage, &[1, 0, 1]).unwrap());
    assert_eq!(Some(false), bst.remove(&mut storage, &[1, 0, 0]).unwrap());
    assert_eq!(None, bst.find(&storage, &[1, 0, 0]).unwrap());
    assert_eq!(3, bst.len());
}

#[test]
fn bool_keys() {
    let mut storage = mock_storage(256);
    let mut bst = StorageBST::<bool, u32>::create(&mut storage).unwrap();
    bst.insert(&mut storage, true, 1).unwrap();
    bst.insert(&mut storage, false, 0).unwrap();
    assert_eq!(vec![false, true], bst.inorder_keys(&storage).unwrap());
    assert_eq!(Some(1), bst.find(&storage, &true).unwrap());
}

#[test]
fn stored_header_mirrors_the_handle() {
    let mut storage = mock_storage(512);
    let mut bst = StorageBST::<i32, i64>::create(&mut storage).unwrap();
    let h: Header = read_record::<MockStorage, Header>(&storage, bst.offset()).unwrap();
    assert_eq!(h, Header { items: 0, key_len: 4, value_len: 8, root_offset: 0 });
    bst.insert(&mut storage, 5, 50).unwrap();
    bst.insert(&mut storage, 6, 60).unwrap();
    let h: Header = read_record::<MockStorage, Header>(&storage, bst.offset()).unwrap();
    assert_eq!(2, h.items);
    assert_eq!(bst.len(), h.items);
    assert_ne!(0, h.root_offset);
    bst.remove(&mut storage, &5).unwrap();
    bst.remove(&mut storage, &6).unwrap();
    let h: Header = read_record::<MockStorage, Header>(&storage, bst.offset()).unwrap();
    assert_eq!(0, h.items);
    assert_eq!(0, h.root_offset);
}
