use addmul::align::align;
use addmul::diffs::take_diffs;
use addmul::grouping::group_indices_by_elem;
use addmul::matrix::Matrix;
use addmul::product::{matrix_mult, outer_product};

#[test]
fn test_group() {
    assert_eq!(vec![(1, vec![(1,0),(3,0)]),
                    (3, vec![(0,0)]),
                    (4, vec![(2,0)]),
                    (5, vec![(4,0)]),
                    (9, vec![(5,0)]),],
                group_indices_by_elem(vec![(1,(1,0)), (3,(1,0)), (0,(3,0)), (2,(4,0)), (4,(5,0)), (5,(9,0))]));
}

#[test]
fn test_diff_vec_normal() {
    let v = vec![1, 2, 4, 7, 11, 16];
    let diff: Vec<i32> = take_diffs(v);
    assert_eq!(diff, vec![1,1,2,3,4,5]);
}

#[test]
fn test_diff_vec_empty() {
    let v: Vec<i32> = Vec::new();
    let diff: Vec<i32> = take_diffs(v);
    assert_eq!(diff, Vec::<i32>::new());
}

#[test]
fn test_diff_vec_single_element() {
    let v = vec![10];
    let diff: Vec<i32> = take_diffs(v);
    assert_eq!(diff, vec![10]);
}

#[test]
fn test_diff_vec_negatives() {
    let v = vec![5, -3, -8, 1];
    let diff: Vec<i32> = take_diffs(v);
    assert_eq!(diff, vec![5,-8,-5,9]);
}

#[test]
fn test_align_zero() {
    let (aligned_elem, shifts) = align(0);
    assert_eq!(aligned_elem, 0);
    assert_eq!(shifts, 0);
}

#[test]
fn test_align_no_trailing_zeros() {
    let (aligned_elem, shifts) = align(7); // 7 is 111 in binary
    assert_eq!(aligned_elem, 7);
    assert_eq!(shifts, 0);
}

#[test]
fn test_align_trailing_zeros() {
    let (aligned_elem, shifts) = align(16); // 16 is 10000 in binary
    assert_eq!(aligned_elem, 1);
    assert_eq!(shifts, 4);
}

#[test]
fn test_outer_product_same_length() {
    let col = vec![1, 2, 3];
    let row = vec![4, 5, 6];
    let result = outer_product(&col, &row);

    assert_eq!(result.rows, 3);
    assert_eq!(result.cols, 3);

    let expected_grid = vec![
        vec![4, 5, 6],
        vec![8, 10, 12],
        vec![12, 15, 18],
    ];

    assert_eq!(result.elems, expected_grid);
}

#[test]
fn test_matrix_mult_normal() {
    let a = Matrix {
        elems: vec![
            vec![1, 2, 3],
            vec![4, 5, 6],
        ],
        rows: 2,
        cols: 3,
    };
    let b = Matrix {
        elems: vec![
            vec![7, 8],
            vec![9, 10],
            vec![11, 12]
        ],
        rows: 3,
        cols: 2,
    };
    let result = matrix_mult(a, b);

    let expected = Matrix {
        elems: vec![
            vec![1*7 + 2*9 + 3*11,  1*8 + 2*10 + 3*12],
            vec![4*7 + 5*9 + 6*11,  4*8 + 5*10 + 6*12],
        ],
        rows: 2,
        cols: 2,
    };

    assert_eq!(result, expected);
}
