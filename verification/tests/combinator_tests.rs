use cribbage_library::combinator::{
    all_combinations, all_combinations_of_max_size, all_combinations_of_min_size,
    all_combinations_of_size, ones, pick,
};

#[test]
fn one_item() {
    assert_eq!(all_combinations(vec!["a"]).into_iter().count(), 1);
    assert_eq!(all_combinations(vec!["a"]).into_iter().next(), Some(vec!("a")))
}

#[test]
fn two_items() {
    assert_eq!(all_combinations(vec![1, 2]).into_iter().count(), 3);
}

#[test]
fn three_items() {
    assert_eq!(all_combinations(vec![1, 2, 3]).into_iter().count(), 7);
}

#[test]
fn four_items() {
    assert_eq!(all_combinations(vec!["a", "b", "c", "d"]).into_iter().count(), 15);
}

#[test]
fn five_items() {
    assert_eq!(all_combinations(vec![1, 2, 3, 4, 5]).into_iter().count(), 31);
}

#[test]
fn five_items_min_2() {
    assert_eq!(
        all_combinations_of_min_size(vec![1, 2, 3, 4, 5], 2).into_iter().count(),
        26
    );
}

#[test]
fn five_items_min_max_4() {
    assert_eq!(
        all_combinations_of_max_size(vec![1, 2, 3, 4, 5], 4).into_iter().count(),
        30
    );
}

#[test]
fn five_items_min_2_max_4() {
    assert_eq!(
        all_combinations_of_size(vec![1, 2, 3, 4, 5], 2, 4).into_iter().count(),
        25
    );
}

#[test]
fn no_item_has_no_combination() {
    let none: Vec<Vec<u8>> = all_combinations(Vec::new());
    assert_eq!(none.len(), 0);
}

#[test]
fn combinations_come_by_ascending_mask() {
    assert_eq!(
        all_combinations(vec![1, 2, 3]),
        vec![
            vec![1],
            vec![2],
            vec![1, 2],
            vec![3],
            vec![1, 3],
            vec![2, 3],
            vec![1, 2, 3]
        ]
    );
}

#[test]
fn combinations_keep_the_order_of_the_list() {
    assert_eq!(
        all_combinations_of_size(vec!['d', 'a', 'c', 'b'], 3, 3),
        vec![
            vec!['d', 'a', 'c'],
            vec!['d', 'a', 'b'],
            vec!['d', 'c', 'b'],
            vec!['a', 'c', 'b']
        ]
    );
}

#[test]
fn six_items_have_fifteen_combinations_of_four() {
    assert_eq!(all_combinations_of_size(vec![1, 2, 3, 4, 5, 6], 4, 4).len(), 15);
}

#[test]
fn a_range_that_nothing_meets_gives_nothing() {
    assert_eq!(all_combinations_of_size(vec![1, 2, 3], 4, 5).len(), 0);
    assert_eq!(all_combinations_of_size(vec![1, 2, 3], 3, 2).len(), 0);
}

#[test]
fn ones_counts_the_one_bits() {
    assert_eq!(ones(0), 0);
    assert_eq!(ones(1), 1);
    assert_eq!(ones(0b1011), 3);
    assert_eq!(ones(u64::MAX), 64);
}

#[test]
fn pick_takes_the_elements_of_the_one_bits() {
    assert_eq!(pick(&vec![10, 20, 30, 40], 0b0101), vec![10, 30]);
    assert_eq!(pick(&vec![10, 20, 30, 40], 0), Vec::<i32>::new());
    assert_eq!(pick(&vec![10, 20], 0b1111), vec![10, 20]);
}
