use sfw_tools::func_iter::{Iterable, OrderedIterable};

#[test]
fn sort_vecs() {
    let vec: Vec<u64> = vec![3, 1, 4, 1, 5, 9];
    let sorted_vec = vec.sorted();
    assert_eq!(
        sorted_vec,
        vec![1, 1, 3, 4, 5, 9],
        "Sorted vector: {:?}",
        sorted_vec
    );

    let vec = vec!["apple", "orange", "fig"];
    let sorted_by_length = vec.sorted_by(|a: &&str, b: &&str| a.len().cmp(&b.len()));
    assert_eq!(
        sorted_by_length,
        vec!["fig", "apple", "orange"],
        "Sorted by length: {:?}",
        sorted_by_length
    );
}
