use file_finder::sort::sort;
use rand::{rngs::ThreadRng, Rng};

fn cmp_i32(lhs: &i32, rhs: &i32) -> bool {
    lhs < rhs
}

#[test]
fn check_ints() {
    let tests = &[
        ("already_sorted", vec![1, 2, 3, 4], vec![1, 2, 3, 4]),
        ("reversed", vec![4, 3, 2, 1], vec![1, 2, 3, 4]),
        ("equal", vec![4, 4, 4, 4], vec![4, 4, 4, 4]),
    ];

    for (name, input, expected) in tests {
        let mut result = input.clone();
        sort(&mut result, &cmp_i32);
        assert!(
            result.eq(expected),
            "Testcase {} failed: {:?} != {:?}",
            name,
            expected,
            result
        );
    }
}

#[test]
fn big_vec() {
    for _ in 0..100 {
        let mut rng = ThreadRng::default();
        let origin: &mut Vec<i32> = &mut (0..1000).map(|_| rng.gen_range(0..100)).collect();
        let mut sorted = origin.clone();
        sorted.sort();
        sort(origin, &cmp_i32);
        assert!(
            sorted.eq(origin),
            "Big vec failed: {:?} != {:?}",
            sorted,
            origin
        );
    }
}

#[test]
fn empty_vec() {
    let mut empty: Vec<i32> = vec![];
    sort(&mut empty, &cmp_i32);
    assert_eq!(empty, vec![]);
}

#[test]
fn single_element() {
    let mut single = vec![42];
    sort(&mut single, &cmp_i32);
    assert_eq!(single, vec![42]);
}

#[test]
fn already_sorted_chars() {
    let mut chars = vec!['a', 'b', 'c', 'd', 'e'];
    sort(&mut chars, &|a: &char, b: &char| a < b);
    assert_eq!(chars, vec!['a', 'b', 'c', 'd', 'e']);
}

#[test]
fn random_strings() {
    let mut rng = ThreadRng::default();
    let mut strings: Vec<String> = (0..100).map(|_| rng.gen::<char>().to_string()).collect();
    sort(&mut strings, &|a: &String, b: &String| a < b);
    assert!(strings.windows(2).all(|w| w[0] <= w[1]));
}

#[test]
fn sort_keeps_duplicates_and_orders_them() {
    let mut v = vec![3, 1, 3, 2, 1, 3];
    sort(&mut v, &cmp_i32);
    assert_eq!(v, vec![1, 1, 2, 3, 3, 3]);
}

#[test]
fn sort_by_reverse_order() {
    let mut v = vec![1, 5, 2, 4, 3];
    sort(&mut v, &|a: &i32, b: &i32| a > b);
    assert_eq!(v, vec![5, 4, 3, 2, 1]);
}

#[test]
fn sort_sorted_again_is_unchanged_up_to_ties() {
    let mut v: Vec<(i32, i32)> = vec![(2, 0), (1, 1), (2, 2), (1, 3)];
    let by_key = |a: &(i32, i32), b: &(i32, i32)| a.0 < b.0;
    sort(&mut v, &by_key);
    let keys: Vec<i32> = v.iter().map(|p| p.0).collect();
    assert_eq!(keys, vec![1, 1, 2, 2]);
    let mut again = v.clone();
    sort(&mut again, &by_key);
    let keys_again: Vec<i32> = again.iter().map(|p| p.0).collect();
    assert_eq!(keys_again, keys);
}
