use terraflow::math::linspace;
use terraflow::math::logspace;

#[test]
fn test_linspace() {
    let actual = linspace(1, 7, 4);
    let expected = vec![1, 3, 5, 7];
    assert_eq!(actual, expected);
}

#[test]
fn test_logspace() {
    let actual = logspace(0, 3, 4);
    let expected = vec![1, 10, 100, 1000];
    assert_eq!(actual, expected);
}

#[test]
fn linspace_single_point_below_two() {
    assert_eq!(linspace(5, 9, 0), vec![5]);
    assert_eq!(linspace(5, 9, 1), vec![5]);
}

#[test]
fn linspace_descending_ends_exactly() {
    let v = linspace(9, -3, 5);
    assert_eq!(v.len(), 5);
    assert_eq!(v[0], 9);
    assert_eq!(v[4], -3);
    assert_eq!(v, vec![9, 6, 3, 0, -3]);
}
