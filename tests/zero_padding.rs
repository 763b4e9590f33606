use addmul::zero_inserter::zero_inserter;

#[test]
fn test_zero_inserter_empty_lists() {
    let row   = vec![];
    let zeros = vec![];
    assert_eq!(Vec::<i32>::new(), zero_inserter(row, zeros));
}

#[test]
fn test_zero_inserter_singleton_row() {
    let row   = vec![1];
    let zeros = vec![];
    assert_eq!(vec![1], zero_inserter(row, zeros));
}

#[test]
fn test_zero_inserter_singleton_zero() {
    let row   = vec![];
    let zeros = vec![0]; // 0:usize not 0:i32
    assert_eq!(vec![0], zero_inserter(row, zeros));
}

#[test]
fn test_zero_inserter_many_row_zero_first() {
    let row   = vec![1,2,3];
    let zeros = vec![0];
    assert_eq!(vec![0,1,2,3], zero_inserter(row, zeros));
}

#[test]
fn test_zero_inserter_many_row_zero_second() {
    let row   = vec![1,2,3];
    let zeros = vec![1];
    assert_eq!(vec![1,0,2,3], zero_inserter(row, zeros));
}

#[test]
fn test_zero_inserter_many_row_zero_third() {
    let row   = vec![1,2,3];
    let zeros = vec![2];
    assert_eq!(vec![1,2,0,3], zero_inserter(row, zeros));
}

#[test]
fn test_zero_inserter_many_row_trailing_zeros() {
    let row   = vec![1,2,3];
    let zeros = vec![3,4];
    assert_eq!(vec![1,2,3,0,0], zero_inserter(row, zeros));
}

#[test]
fn zero_inserter_zeros_everywhere_between() {
    let row = vec![7, 8];
    let zeros = vec![0, 2, 4];
    assert_eq!(vec![0, 7, 0, 8, 0], zero_inserter(row, zeros));
}
