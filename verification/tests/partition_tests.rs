use hashlife::util::partition_in_place;

#[test]
fn partition_simple() {
    let mut lst = vec![3, 6, 7, 8, 5, 2, 9, 4, 1, 10];

    let i = partition_in_place(&mut lst, |x| *x < 5);

    assert_eq!(lst, vec![3, 1, 4, 2, 5, 8, 9, 7, 6, 10]);
    assert_eq!(i, 4);
}

#[test]
fn partition_sorted() {
    let mut lst = vec![1, 2, 3, 4, 5, 6, 7, 8, 9, 10];

    let i = partition_in_place(&mut lst, |x| *x < 5);

    assert_eq!(lst, vec![1, 2, 3, 4, 5, 6, 7, 8, 9, 10]);
    assert_eq!(i, 4);
}

#[test]
fn partition_trivial_pred() {
    let mut lst = vec![3, 6, 7, 8, 5, 2, 9, 4, 1, 10];

    let i = partition_in_place(&mut lst, |x| *x < 11);

    assert_eq!(lst, vec![3, 6, 7, 8, 5, 2, 9, 4, 1, 10]);
    assert_eq!(i, 10);
}

#[test]
fn partition_bools() {
    let lsts: Vec<(Vec<i32>, Vec<i32>, usize)> = vec![
        (vec![], vec![], 0),
        (vec![0], vec![0], 0),
        (vec![1], vec![1], 1),
        (vec![0, 0], vec![0, 0], 0),
        (vec![0, 1], vec![1, 0], 1),
        (vec![1, 0], vec![1, 0], 1),
        (vec![1, 1], vec![1, 1], 2),
        (vec![0, 1, 1], vec![1, 1, 0], 2),
        (vec![0, 1, 1, 1], vec![1, 1, 1, 0], 3),
        (vec![0, 1, 1, 1, 1, 1], vec![1, 1, 1, 1, 1, 0], 5),
        (vec![0, 1, 0, 0, 0, 1], vec![1, 1, 0, 0, 0, 0], 2),
    ];

    for (mut have, want, i) in lsts {
        let j = partition_in_place(&mut have, |n| *n == 1);

        assert_eq!(have, want);
        assert_eq!(j, i, "expected {} but got {} for list {:?}", i, j, want);
    }
}
