use algo_kernels::external_sorting::merge;

#[test]
fn test_merge() {
    let left = vec![1, 3, 5];
    let right = vec![2, 4, 6];
    let result = merge(&left, &right);
    assert_eq!(result, vec![1, 2, 3, 4, 5, 6]);

    let left = vec![1, 2, 3];
    let right = vec![4, 5, 6];
    let result = merge(&left, &right);
    assert_eq!(result, vec![1, 2, 3, 4, 5, 6]);

    let left: Vec<i64> = vec![];
    let right = vec![1, 2];
    let result = merge(&left, &right);
    assert_eq!(result, vec![1, 2]);
}

#[test]
fn test_merge_ties_take_left_first() {
    let left = vec![1, 2, 2, 9];
    let right = vec![2, 2, 3];
    assert_eq!(merge(&left, &right), vec![1, 2, 2, 2, 2, 3, 9]);

    let left = vec![5, 5];
    let right = vec![5];
    assert_eq!(merge(&left, &right), vec![5, 5, 5]);
}

#[test]
fn test_merge_one_side_exhausts_first() {
    let left = vec![10, 20, 30];
    let right: Vec<i64> = vec![];
    assert_eq!(merge(&left, &right), vec![10, 20, 30]);

    let left = vec![-5, 100];
    let right = vec![-7, -6, 0];
    assert_eq!(merge(&left, &right), vec![-7, -6, -5, 0, 100]);
}
