use shared_graph::maths;
use std::collections::HashSet;

#[test]
fn mode_n_works_one_mode() {
    let v = vec![1, -2, 3, 3, 4, -2, 3];

    assert_eq!(maths::mode_n(&v).unwrap(), HashSet::from([3]));
}

#[test]
fn mode_n_works_many_modes() {
    let v = vec![1, 2, 3, 4, 5];

    assert_eq!(
        maths::mode_n(&v).unwrap(),
        HashSet::from_iter(v.into_iter())
    );
}

#[test]
fn mode_n_returns_none_with_empty_vector() {
    assert_eq!(maths::mode_n(&Vec::new()), None);
}

#[test]
fn mode_n_lgn_works_one_mode() {
    let v = vec![1, -2, 3, 3, 4, -2, 3];

    assert_eq!(maths::mode_n_lgn(&v).unwrap(), HashSet::from([3]));
}

#[test]
fn mode_n_lgn_works_many_modes() {
    let v = vec![1, 2, 3, 4, 5];

    assert_eq!(
        maths::mode_n_lgn(&v).unwrap(),
        HashSet::from_iter(v.into_iter())
    );
}

#[test]
fn mode_n_lgn_returns_none_with_empty_vector() {
    assert_eq!(maths::mode_n_lgn(&Vec::new()), None);
}

#[test]
fn modes_with_two_tied_values() {
    let v = vec![1, 2, 3, 3, 4, 2, 3, 4, 4];
    assert_eq!(maths::mode_n(&v).unwrap(), HashSet::from([3, 4]));
    assert_eq!(maths::mode_n_lgn(&v).unwrap(), HashSet::from([3, 4]));
}

#[test]
fn modes_of_single_element() {
    let v = vec![10];
    assert_eq!(maths::mode_n(&v).unwrap(), HashSet::from([10]));
    assert_eq!(maths::mode_n_lgn(&v).unwrap(), HashSet::from([10]));
}

#[test]
fn modes_with_extreme_values() {
    let v = vec![i32::MIN, i32::MAX, i32::MIN];
    assert_eq!(maths::mode_n(&v).unwrap(), HashSet::from([i32::MIN]));
    assert_eq!(maths::mode_n_lgn(&v).unwrap(), HashSet::from([i32::MIN]));
}
