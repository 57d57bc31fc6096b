use colorls::tabulator::{binsearch, break_lines_with, column_setup, is_valid, EntryOrder};

#[test]
fn tabulator_for_simple_case() {
    assert_eq!(
        vec![vec![1, 2], vec![3, 4]],
        break_lines_with(EntryOrder::Horizontal, &vec![1, 2, 3, 4], 2)
    );
    assert_eq!(
        vec![vec![1, 3], vec![2, 4]],
        break_lines_with(EntryOrder::Vertical, &vec![1, 2, 3, 4], 2)
    );
    assert_eq!(false, is_valid(&column_setup(vec![vec![1, 2], vec![2, 1]]), 2));
    assert_eq!(Some(1), binsearch(&vec![0, 1, 2], |i| *i >= 1))
}

#[test]
fn tabulator_when_only_one_row() {
    assert_eq!(
        vec![vec![1, 2, 3]],
        break_lines_with(EntryOrder::Horizontal, &vec![1, 2, 3], 10)
    );
    assert_eq!(
        vec![vec![1, 2, 3]],
        break_lines_with(EntryOrder::Vertical, &vec![1, 2, 3], 10)
    )
}

#[test]
fn tabulator_when_total_col_width_exceeds_max() {
    assert_eq!(false, is_valid(&column_setup(vec![vec![1, 3], vec![3, 1]]), 5))
}

#[test]
fn tabulator_when_fits() {
    assert_eq!(true, is_valid(&column_setup(vec![vec![1, 2], vec![1, 1]]), 4))
}

#[test]
fn when_nothing_matches() {
    assert_eq!(None, binsearch(&vec![0, 1, 2], |i| *i >= 3))
}

#[test]
fn when_array_is_small() {
    assert_eq!(Some(1), binsearch(&vec![0, 1], |i| *i >= 1));
    assert_eq!(Some(0), binsearch(&vec![0, 1], |i| *i >= 0))
}

#[test]
fn when_array_is_big() {
    assert_eq!(
        Some(11),
        binsearch(&vec![0, 1, 2, 3, 4, 5, 6, 7, 8, 9, 10, 11, 12, 13, 14], |i| *i >= 11)
    );
}

#[test]
fn when_array_is_empty() {
    assert_eq!(None, binsearch(&(vec![] as Vec<i64>), |i| *i >= 11));
}

#[test]
fn binsearch_reads_a_single_item() {
    assert_eq!(Some(0), binsearch(&vec![7], |i| *i >= 7));
    assert_eq!(None, binsearch(&vec![7], |i| *i >= 8));
}

#[test]
fn binsearch_finds_every_boundary() {
    for len in 0..40usize {
        let range: Vec<usize> = (0..len).collect();
        for first in 0..=len {
            let expected = if first < len { Some(first) } else { None };
            assert_eq!(expected, binsearch(&range, |i| *i >= first));
        }
    }
}

#[test]
fn binsearch_on_answers_that_fall_again() {
    // true only in the middle: the halving goes left of the middle and
    // finds nothing there but the middle itself
    assert_eq!(Some(2), binsearch(&vec![0, 0, 1, 0, 0], |i| *i == 1));
    // true only at the front of the right half: never looked at
    assert_eq!(None, binsearch(&vec![0, 0, 0, 1, 0, 0, 0, 0], |i| *i == 1));
}

#[test]
fn is_valid_is_strict() {
    assert_eq!(false, is_valid(&vec![1, 1], 2));
    assert_eq!(true, is_valid(&vec![1, 1], 3));
    assert_eq!(false, is_valid(&vec![], 0));
    assert_eq!(true, is_valid(&vec![], 1));
}

#[test]
fn is_valid_does_not_overflow() {
    assert_eq!(false, is_valid(&vec![usize::MAX, usize::MAX, 5], usize::MAX));
    assert_eq!(true, is_valid(&vec![usize::MAX - 1], usize::MAX));
}

#[test]
fn column_setup_takes_the_widest_of_each_column() {
    assert_eq!(vec![2, 2], column_setup(vec![vec![1, 2], vec![2, 1]]));
    assert_eq!(vec![7, 8, 18], column_setup(vec![vec![7, 8, 18]]));
    assert_eq!(vec![18, 8], column_setup(vec![vec![7, 8], vec![18]]));
    assert_eq!(Vec::<usize>::new(), column_setup(vec![]));
    assert_eq!(vec![3, 4, 5], column_setup(vec![vec![3], vec![1, 4, 5]]));
}

#[test]
fn break_lines_with_ragged_last_row() {
    assert_eq!(
        vec![vec![1, 2, 3], vec![4, 5]],
        break_lines_with(EntryOrder::Horizontal, &vec![1, 2, 3, 4, 5], 3)
    );
    assert_eq!(
        vec![vec![1, 3, 5], vec![2, 4]],
        break_lines_with(EntryOrder::Vertical, &vec![1, 2, 3, 4, 5], 3)
    );
    // five entries in four columns take two rows; filled downwards they use
    // three columns only
    assert_eq!(
        vec![vec![1, 3, 5], vec![2, 4]],
        break_lines_with(EntryOrder::Vertical, &vec![1, 2, 3, 4, 5], 4)
    );
}

#[test]
fn break_lines_with_nothing() {
    assert_eq!(
        Vec::<Vec<u8>>::new(),
        break_lines_with(EntryOrder::Horizontal, &Vec::<u8>::new(), 3)
    );
    assert_eq!(
        Vec::<Vec<u8>>::new(),
        break_lines_with(EntryOrder::Vertical, &Vec::<u8>::new(), 3)
    );
}

#[test]
fn for_simple_case() {
    assert_eq!(
        vec![vec![1, 3], vec![2, 4]],
        break_lines_with(EntryOrder::Vertical, &vec![1, 2, 3, 4], 2)
    )
}

#[test]
fn when_only_one_row() {
    assert_eq!(
        vec![vec![1, 2, 3]],
        break_lines_with(EntryOrder::Vertical, &vec![1, 2, 3], 10)
    )
}
