use graphs::sort::{insertion, is_sorted, merge, merge_bu, quick, quick_3_way, selection, shell};

#[test]
fn mod_test() {
    let a = [1, 2, 3];
    assert!(is_sorted(&a));

    let b = [2, 1, 3];
    assert!(!is_sorted(&b));
}

#[test]
fn selection_test() {
    let mut a = [8, 5, 7, 6, 4, 9, 3, 1];
    selection::sort(&mut a);
    assert!(is_sorted(&a));
}

#[test]
fn insertion_test() {
    let mut a = [8, 5, 7, 6, 4, 9, 3, 1];
    insertion::sort(&mut a);
    assert!(is_sorted(&a));
}

#[test]
fn shell_test() {
    let mut a = [8, 5, 7, 6, 4, 9, 3, 1];
    shell::sort(&mut a);
    assert!(is_sorted(&a));
}

#[test]
fn merge_test() {
    let mut a = [8, 5, 7, 6, 4, 9, 3, 1];
    merge::sort(&mut a);
    assert!(is_sorted(&a));
}

#[test]
fn merge_bu_test() {
    let mut a = [8, 5, 7, 6, 4, 9, 3, 1];
    merge_bu::sort(&mut a);
    assert!(is_sorted(&a));
}

#[test]
fn quick_test() {
    let mut a = [8, 5, 7, 6, 4, 9, 3, 1];
    quick::sort(&mut a);
    assert!(is_sorted(&a));
}

#[test]
fn quick_3_way_test() {
    let mut a = [8, 5, 7, 6, 4, 9, 3, 1];
    quick_3_way::sort(&mut a);
    assert!(is_sorted(&a));
}

fn sorters() -> Vec<fn(&mut [i32])> {
    vec![
        selection::sort,
        insertion::sort,
        shell::sort,
        merge::sort,
        merge_bu::sort,
        quick::sort,
        quick_3_way::sort,
    ]
}

#[test]
fn every_sort_gives_the_entries_in_ascending_order() {
    let mut seed: u64 = 5;
    for round in 0..200 {
        let len = round % 23;
        let mut input = vec![];
        for _ in 0..len {
            seed = seed.wrapping_mul(6364136223846793005).wrapping_add(1442695040888963407);
            input.push(((seed >> 33) % 17) as i32 - 8);
        }
        let mut expect = input.clone();
        expect.sort();
        for sort in sorters() {
            let mut a = input.clone();
            sort(&mut a);
            assert_eq!(expect, a);
        }
    }
}

#[test]
fn sorts_take_extreme_and_short_arrays() {
    for sort in sorters() {
        let mut nothing: [i32; 0] = [];
        sort(&mut nothing);
        let mut one = [7];
        sort(&mut one);
        assert_eq!([7], one);
        let mut pair = [1, 2];
        sort(&mut pair);
        assert_eq!([1, 2], pair);
        let mut wide = [i32::MAX, 0, i32::MIN, 0, i32::MAX, i32::MIN];
        sort(&mut wide);
        assert_eq!([i32::MIN, i32::MIN, 0, 0, i32::MAX, i32::MAX], wide);
    }
    assert!(is_sorted(&[]));
    assert!(is_sorted(&[3]));
    assert!(is_sorted(&[3, 3]));
}

#[test]
fn partition_puts_the_first_entry_in_its_place() {
    let mut a = [5, 9, 1, 5, 7, 2];
    let j = quick::partition(&mut a, 0, 6);
    assert_eq!(3, j);
    assert_eq!([5, 2, 1, 5, 7, 9], a);
    // the first entry is the smallest: it stays
    let mut b = [1, 2, 3];
    assert_eq!(0, quick::partition(&mut b, 0, 3));
    assert_eq!([1, 2, 3], b);
}
