use graphs::search::binary_search::BinarySearchST;
use graphs::search::bst::BST;
use graphs::search::linear_probing_hash_st::LinearProbingHashST;
use graphs::search::red_black_bst::RedBlackBST;
use graphs::search::separate_chaining_hash_st::SeparateChainingHashST;
use graphs::search::sequential_search::SequentialSearchST;

#[test]
fn binary_search_test() {
    let mut bs = BinarySearchST::new();
    bs.put(5, 105);
    bs.put(9, 350);
    bs.put(2, 999);

    assert_eq!(3, bs.len());
    assert_eq!(Some(999), bs.get(2));
    assert_eq!(Some(350), bs.get(9));
    assert_eq!(Some(105), bs.get(5));

    bs.delete(2);
    assert_eq!(2, bs.len());
    assert_eq!(None, bs.get(2));
}

#[test]
fn binary_search_ranks_and_replaces() {
    let mut bs = BinarySearchST::new();
    assert_eq!(None, bs.get(1));
    assert_eq!(0, bs.rank(1));
    for key in [40, 10, 30, 20, 50] {
        bs.put(key, key * 2);
    }
    assert_eq!(0, bs.rank(i32::MIN));
    assert_eq!(0, bs.rank(10));
    assert_eq!(1, bs.rank(11));
    assert_eq!(2, bs.rank(30));
    assert_eq!(5, bs.rank(i32::MAX));
    bs.put(30, 7);
    assert_eq!(5, bs.len());
    assert_eq!(Some(7), bs.get(30));
    bs.delete(99);
    bs.delete(10);
    bs.delete(50);
    assert_eq!(3, bs.len());
    assert_eq!(vec![None, Some(40), Some(7), Some(80), None], [10, 20, 30, 40, 50].map(|k| bs.get(k)).to_vec());
}

#[test]
fn sequential_search_test() {
    let mut st = SequentialSearchST::new();
    st.put(1, 5);
    st.put(12, 55);

    assert_eq!(Some(55), st.get(12));
    assert_eq!(Some(5), st.get(1));

    st.delete(1);
    assert_eq!(None, st.get(1));

    st.put(12, 33);
    assert_eq!(Some(33), st.get(12));
}

#[test]
fn sequential_search_deletes_the_head_too() {
    let mut st = SequentialSearchST::new();
    st.put(1, 5);
    st.put(12, 55);
    st.delete(12);
    assert_eq!(None, st.get(12));
    assert_eq!(Some(5), st.get(1));
    st.delete(7);
    st.delete(1);
    assert_eq!(None, st.get(1));
}

#[test]
fn separate_chaining_hash_st_test() {
    let mut h = SeparateChainingHashST::new();
    h.put(1, 99);
    assert_eq!(Some(99), h.get(1));
}

#[test]
fn chains_keep_keys_with_the_same_hash_apart() {
    let mut h = SeparateChainingHashST::new();
    assert_eq!(None, h.get(5));
    h.put(5, 1);
    h.put(5 + 997, 2);
    h.put(-5, 3);
    h.put(i32::MIN, 4);
    h.put(0, 5);
    assert_eq!(Some(1), h.get(5));
    assert_eq!(Some(2), h.get(5 + 997));
    assert_eq!(Some(3), h.get(-5));
    assert_eq!(Some(4), h.get(i32::MIN));
    assert_eq!(Some(5), h.get(0));
    assert_eq!(None, h.get(5 + 2 * 997));
    h.put(5, 10);
    assert_eq!(Some(10), h.get(5));
    assert_eq!(Some(2), h.get(5 + 997));
}

fn create_bst() -> BST {
    let mut bst = BST::new();
    bst.put(2, 98);
    bst.put(1, 42);
    bst.put(5, 75);
    bst
}

#[test]
fn bst_put_test() {
    let mut bst = create_bst();

    assert_eq!(3, bst.size());
    assert_eq!(Some(42), bst.get(1));
    assert_eq!(Some(98), bst.get(2));
    assert_eq!(Some(75), bst.get(5));

    bst.put(2, 99);
    assert_eq!(Some(99), bst.get(2));
}

#[test]
fn min_key_test() {
    let bst = create_bst();
    assert_eq!(Some(1), bst.min());
}

#[test]
fn max_key_test() {
    let bst = create_bst();
    assert_eq!(Some(5), bst.max());
}

#[test]
fn floor_test() {
    let bst = create_bst();
    assert_eq!(Some(2), bst.floor(3));
}

#[test]
fn select_test() {
    let bst = create_bst();
    assert_eq!(Some(1), bst.select(0));
}

#[test]
fn rank_test() {
    let bst = create_bst();
    assert_eq!(0, bst.rank(1));
}

#[test]
fn bst_delete_min_test() {
    let mut bst = create_bst();
    assert_eq!(Some(42), bst.get(1));

    bst.delete_min();
    assert_eq!(None, bst.get(1));
    assert_eq!(Some(98), bst.get(2));
    assert_eq!(Some(75), bst.get(5));
}

#[test]
fn bst_delete_test() {
    let mut bst = create_bst();
    assert_eq!(Some(42), bst.get(1));

    bst.delete(1);
    assert_eq!(None, bst.get(1));
    assert_eq!(Some(98), bst.get(2));
    assert_eq!(Some(75), bst.get(5));
}

#[test]
fn keys_test() {
    let bst = create_bst();
    let mut keys = bst.keys();
    assert_eq!(3, keys.len());
    assert_eq!(Some(1), keys.pop_back());
    assert_eq!(Some(2), keys.pop_back());
    assert_eq!(Some(5), keys.pop_back());
}

#[test]
fn keys_from_test() {
    let bst = create_bst();
    let mut keys = bst.keys_from((2, 6));
    assert_eq!(2, keys.len());
    assert_eq!(Some(2), keys.pop_back());
    assert_eq!(Some(5), keys.pop_back());
}

#[test]
fn tree_agrees_with_an_ordered_map() {
    let mut seed: u64 = 23;
    let mut next = |bound: u64| {
        seed = seed.wrapping_mul(6364136223846793005).wrapping_add(1442695040888963407);
        ((seed >> 33) % bound) as i32
    };
    for _ in 0..40 {
        let mut bst = BST::new();
        let mut bs = BinarySearchST::new();
        let mut map = std::collections::BTreeMap::new();
        for _ in 0..60 {
            let key = next(24) - 12;
            match next(4) {
                0 => {
                    bst.delete(key);
                    bs.delete(key);
                    map.remove(&key);
                }
                1 => {
                    bst.delete_min();
                    if let Some(first) = map.keys().next().copied() {
                        bs.delete(first);
                        map.remove(&first);
                    }
                }
                _ => {
                    let value = next(1000);
                    bst.put(key, value);
                    bs.put(key, value);
                    map.insert(key, value);
                }
            }
            let keys: Vec<i32> = map.keys().copied().collect();
            assert_eq!(keys.len(), bst.size());
            assert_eq!(keys.len(), bs.len());
            assert_eq!(keys.iter().rev().copied().collect::<Vec<i32>>(), Vec::from(bst.keys()));
            assert_eq!(keys.first().copied(), bst.min());
            assert_eq!(keys.last().copied(), bst.max());
            for probe in -13..13 {
                assert_eq!(map.get(&probe).copied(), bst.get(probe));
                assert_eq!(map.get(&probe).copied(), bs.get(probe));
                let rank = keys.iter().filter(|&&k| k < probe).count();
                assert_eq!(rank, bst.rank(probe));
                assert_eq!(rank, bs.rank(probe));
                assert_eq!(keys.iter().rev().find(|&&k| k <= probe).copied(), bst.floor(probe));
                let inside: Vec<i32> =
                    keys.iter().rev().filter(|&&k| probe <= k && k <= probe + 5).copied().collect();
                assert_eq!(inside, Vec::from(bst.keys_from((probe, probe + 5))));
            }
            for k in 0..keys.len() + 2 {
                assert_eq!(keys.get(k).copied(), bst.select(k));
            }
        }
    }
}

fn create_probing() -> LinearProbingHashST {
    let mut t = LinearProbingHashST::new();
    t.put(1, 99);
    t.put(3, 199);
    t.put(5, 299);
    t
}

#[test]
fn get_test() {
    let t = create_probing();

    assert_eq!(3, t.len());
    assert_eq!(Some(99), t.get(1));
    assert_eq!(Some(199), t.get(3));
    assert_eq!(Some(299), t.get(5));
}

#[test]
fn linear_probing_hash_st_delete_test() {
    let mut t = create_probing();
    t.delete(1);

    assert_eq!(2, t.len());
    assert_eq!(None, t.get(1));
    assert_eq!(Some(199), t.get(3));
    assert_eq!(Some(299), t.get(5));
}

#[test]
fn probing_table_grows_and_shrinks_with_its_keys() {
    let mut t = LinearProbingHashST::new();
    let mut model = std::collections::BTreeMap::new();
    let mut x: i64 = 7;
    for round in 0..400 {
        x = (x * 1103515245 + 12345) % 2147483648;
        let key = ((x >> 8) % 61) as i32 - 30;
        if round % 3 == 2 {
            t.delete(key);
            model.remove(&key);
        } else {
            t.put(key, round);
            model.insert(key, round);
        }
        assert_eq!(model.len(), t.len());
        for k in -31..32 {
            assert_eq!(model.get(&k).copied(), t.get(k));
        }
    }
    for k in -31..32 {
        t.delete(k);
        assert_eq!(None, t.get(k));
    }
    assert_eq!(0, t.len());
}

#[test]
fn probing_table_keeps_a_run_reachable_after_a_delete() {
    // 0, 16 and 32 share a slot in a table of 16 slots
    let mut t = LinearProbingHashST::new();
    t.put(0, 1);
    t.put(16, 2);
    t.put(32, 3);
    t.put(1, 4);
    t.delete(0);
    assert_eq!(None, t.get(0));
    assert_eq!(Some(2), t.get(16));
    assert_eq!(Some(3), t.get(32));
    assert_eq!(Some(4), t.get(1));
    t.delete(7);
    assert_eq!(3, t.len());
    t.put(16, 20);
    assert_eq!(Some(20), t.get(16));
    assert_eq!(3, t.len());
}

fn create_tree() -> RedBlackBST {
    let mut t = RedBlackBST::new();
    for ch in ['s', 'e', 'a', 'r', 'c', 'h', 'x', 'm', 'p', 'l'] {
        t.put(ch as i32, ch as i32);
    }
    t
}

#[test]
fn red_black_bst_put_test() {
    let t = create_tree();
    assert_eq!(10, t.size());

    let mut sorted = vec!['s', 'e', 'a', 'r', 'c', 'h', 'x', 'm', 'p', 'l'];
    sorted.sort();
    let pairs = t.pairs();
    assert_eq!(10, pairs.len());
    for (i, ch) in sorted.iter().enumerate() {
        assert_eq!((*ch as i32, *ch as i32), pairs[i]);
    }
}

#[test]
fn red_black_bst_delete_min_test() {
    let mut t = create_tree();

    let n = t.get('a' as i32);
    assert!(n.is_some());

    t.delete_min();
    assert_eq!(9, t.size());

    let n = t.get('a' as i32);
    assert!(n.is_none());
}

#[test]
fn delete_max_test() {
    let mut t = create_tree();

    let n = t.get('x' as i32);
    assert!(n.is_some());

    t.delete_max();
    assert_eq!(9, t.size());

    let n = t.get('x' as i32);
    assert!(n.is_none());
}

#[test]
fn red_black_bst_delete_test() {
    let mut t = create_tree();

    let n = t.get('x' as i32);
    assert!(n.is_some());

    t.delete('x' as i32);
    assert_eq!(9, t.size());

    let n = t.get('x' as i32);
    assert!(n.is_none());
}

#[test]
fn red_black_tree_agrees_with_an_ordered_map() {
    let mut t = RedBlackBST::new();
    let mut model = std::collections::BTreeMap::new();
    let mut x: i64 = 11;
    for round in 0..600 {
        x = (x * 1103515245 + 12345) % 2147483648;
        let key = ((x >> 8) % 41) as i32 - 20;
        match round % 7 {
            0 | 1 | 2 | 3 => {
                t.put(key, round);
                model.insert(key, round);
            }
            4 => {
                t.delete(key);
                model.remove(&key);
            }
            5 => {
                t.delete_min();
                let first = model.keys().next().copied();
                if let Some(k) = first {
                    model.remove(&k);
                }
            }
            _ => {
                t.delete_max();
                let last = model.keys().next_back().copied();
                if let Some(k) = last {
                    model.remove(&k);
                }
            }
        }
        assert_eq!(model.len(), t.size());
        assert_eq!(model.keys().next().copied(), t.min());
        let pairs: Vec<(i32, i32)> = model.iter().map(|(k, v)| (*k, *v)).collect();
        assert_eq!(pairs, t.pairs());
        for k in -21..22 {
            assert_eq!(model.get(&k).copied(), t.get(k));
        }
    }
}

#[test]
fn red_black_tree_empties_in_either_direction() {
    let mut t = create_tree();
    for left in (0..10).rev() {
        if left % 2 == 0 {
            t.delete_min();
        } else {
            t.delete_max();
        }
        assert_eq!(left, t.size());
    }
    assert_eq!(None, t.min());
    t.delete_min();
    t.delete_max();
    t.delete(5);
    assert_eq!(0, t.size());
    assert!(t.pairs().is_empty());
}

#[test]
fn red_black_tree_hands_out_its_pairs_in_turn() {
    let t = create_tree();
    let mut it = t.iter();
    let mut keys = Vec::new();
    while let Some((key, value)) = it.next() {
        assert_eq!(key, value);
        keys.push(key);
    }
    assert_eq!(None, it.next());
    let expected: Vec<i32> = "acehlmprsx".chars().map(|ch| ch as i32).collect();
    assert_eq!(expected, keys);
    assert_eq!(None, RedBlackBST::new().iter().next());
}
