use rand::Rng;
use rustbook::quicksort::quicksort;
use std::fmt::Display;

fn assert_sorted<T: PartialOrd + Display>(slice: &[T]) {
    for i in 0..slice.len() - 1 {
        assert!(
            slice[i] <= slice[i + 1],
            "Element {} at index {} is not smaller than element {} at index {}",
            slice[i],
            i,
            slice[i + 1],
            i + 1
        );
    }
}

#[test]
fn test_sort_single_element() {
    let mut input = vec![1];
    quicksort(&mut input);

    assert_sorted(&input);
}

#[test]
fn test_sort_two_elements() {
    let mut input = vec![2, 1];
    quicksort(&mut input);

    assert_sorted(&input);
}

#[test]
fn test_sort_random_vector() {
    let mut rng = rand::thread_rng();

    let mut input: Vec<u64> = (0..100).map(|_| rng.gen_range(0, 20)).collect();

    println!("Input {:?}", input);

    quicksort(&mut input);

    println!("Output {:?}", input);

    assert_sorted(&input);
}

#[test]
fn sort_keeps_every_element() {
    let mut input: Vec<i64> = vec![5, -3, 5, 0, 12, -3, 7, 7, 7, 1];
    let mut expected = input.clone();
    expected.sort();
    quicksort(&mut input);
    assert_eq!(input, expected);
}

#[test]
fn sort_empty_and_sorted_and_reversed() {
    let mut empty: Vec<u32> = vec![];
    quicksort(&mut empty);
    assert!(empty.is_empty());

    let mut sorted = vec![1, 2, 3, 4, 5, 6];
    quicksort(&mut sorted);
    assert_eq!(sorted, vec![1, 2, 3, 4, 5, 6]);

    let mut reversed = vec![6, 5, 4, 3, 2, 1];
    quicksort(&mut reversed);
    assert_eq!(reversed, vec![1, 2, 3, 4, 5, 6]);
}

#[test]
fn sort_all_equal_and_three_elements() {
    let mut equal = vec![4, 4, 4, 4, 4];
    quicksort(&mut equal);
    assert_eq!(equal, vec![4, 4, 4, 4, 4]);

    let mut three = vec![3, 1, 2];
    quicksort(&mut three);
    assert_eq!(three, vec![1, 2, 3]);

    let mut words = vec!["pear", "apple", "fig", "apple"];
    quicksort(&mut words);
    assert_eq!(words, vec!["apple", "apple", "fig", "pear"]);
}

#[test]
fn sort_many_random_vectors_matches_std() {
    let mut rng = rand::thread_rng();
    for len in 0..60 {
        let mut input: Vec<i32> = (0..len).map(|_| rng.gen_range(-10, 10)).collect();
        let mut expected = input.clone();
        expected.sort();
        quicksort(&mut input);
        assert_eq!(input, expected);
    }
}

#[derive(Debug, PartialEq)]
struct Keyed(u32, char);

impl PartialOrd for Keyed {
    fn partial_cmp(&self, other: &Self) -> Option<std::cmp::Ordering> {
        self.0.partial_cmp(&other.0)
    }
}

#[test]
fn sorted_input_is_left_as_it_is() {
    let mut input = vec![Keyed(1, 'b'), Keyed(1, 'a'), Keyed(2, 'c'), Keyed(2, 'a'), Keyed(3, 'z')];
    quicksort(&mut input);
    assert_eq!(input, vec![Keyed(1, 'b'), Keyed(1, 'a'), Keyed(2, 'c'), Keyed(2, 'a'), Keyed(3, 'z')]);
}

#[test]
fn permutations_sort_to_the_same_slice() {
    let mut first = vec![5u64, 3, 9, 3, 1, 7, 5];
    let mut second = vec![1u64, 5, 7, 3, 9, 5, 3];
    quicksort(&mut first);
    quicksort(&mut second);
    assert_eq!(first, second);
    assert_eq!(first, vec![1, 3, 3, 5, 5, 7, 9]);
}

#[test]
fn short_slices_of_incomparable_values_keep_their_elements() {
    let mut two = vec![f64::NAN, 1.0];
    quicksort(&mut two);
    assert!(two[0].is_nan());
    assert_eq!(two[1], 1.0);
    let mut one = vec![f64::NAN];
    quicksort(&mut one);
    assert!(one[0].is_nan());
}
