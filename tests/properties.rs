use addmul::align::align;
use addmul::diffs::{accumulate, take_diffs};
use addmul::grouping::group_indices_by_elem;
use addmul::matrix::{zeros, Matrix};
use addmul::product::{matrix_mult, outer_product, scalar_mult};
use addmul::reduce::{down, up};

#[test]
fn scalar_mult_scenario() {
    assert_eq!(scalar_mult(5, &vec![3, 1, 4, 1, 5, 9]), vec![15, 5, 20, 5, 25, 45]);
}

#[test]
fn scalar_mult_matches_products() {
    let v = vec![12, 7, 7, 30, 1, 96, 45, 2];
    for c in [-3, 0, 1, 11] {
        let expected: Vec<i32> = v.iter().map(|x| c * x).collect();
        assert_eq!(scalar_mult(c, &v), expected);
    }
}

#[test]
fn scalar_mult_single_element() {
    assert_eq!(scalar_mult(-4, &vec![-6]), vec![24]);
}

#[test]
fn scalar_mult_same_residual_negatives() {
    // -2, -1 and -4 share the residual -1
    assert_eq!(scalar_mult(3, &vec![-2, -1, -4]), vec![-6, -3, -12]);
}

#[test]
fn scalar_mult_all_zero() {
    assert_eq!(scalar_mult(9, &vec![0, 0, 0]), vec![0, 0, 0]);
}

#[test]
fn scalar_mult_largest_products() {
    let v = vec![1 << 20, 3, (1 << 20) - 1];
    assert_eq!(scalar_mult(2047, &v), vec![2047 << 20, 6141, 2047 * ((1 << 20) - 1)]);
    assert_eq!(scalar_mult(-2048, &vec![1 << 20]), vec![i32::MIN]);
}

#[test]
fn outer_product_scenario() {
    let result = outer_product(&vec![1, 2, 3], &vec![4, 5, 6]);
    assert_eq!(result.elems, vec![vec![4, 5, 6], vec![8, 10, 12], vec![12, 15, 18]]);
}

#[test]
fn outer_product_pairwise() {
    let col = vec![0, 1, 2, 3, 4, 5, -7];
    let row = vec![3, 1, 4, 1, 5, 9];
    let result = outer_product(&col, &row);
    assert_eq!(result.rows, col.len());
    assert_eq!(result.cols, row.len());
    for i in 0..col.len() {
        for j in 0..row.len() {
            assert_eq!(result.elems[i][j], col[i] * row[j]);
        }
    }
}

#[test]
fn matrix_mult_scenario() {
    let a = Matrix { elems: vec![vec![1, 2, 3], vec![4, 5, 6]], rows: 2, cols: 3 };
    let b = Matrix { elems: vec![vec![7, 8], vec![9, 10], vec![11, 12]], rows: 3, cols: 2 };
    let r = matrix_mult(a, b);
    assert_eq!(r.rows, 2);
    assert_eq!(r.cols, 2);
    assert_eq!(r.elems, vec![vec![58, 64], vec![139, 154]]);
}

#[test]
fn matrix_mult_conventional() {
    let a = Matrix { elems: vec![vec![2, -1], vec![0, 3], vec![-5, 4]], rows: 3, cols: 2 };
    let b = Matrix { elems: vec![vec![6, 2, 8], vec![1, 1, 1]], rows: 2, cols: 3 };
    let r = matrix_mult(a, b);
    assert_eq!(r.elems, vec![vec![11, 3, 15], vec![3, 3, 3], vec![-26, -6, -36]]);
}

#[test]
fn matrix_mult_empty_shared_dimension() {
    let a = Matrix { elems: vec![vec![], vec![]], rows: 2, cols: 0 };
    let b: Matrix<i32> = Matrix { elems: vec![], rows: 0, cols: 3 };
    let r = matrix_mult(a, b);
    assert_eq!(r, zeros(2, 3));
}

#[test]
fn take_diffs_then_accumulate_round_trip() {
    for s in [vec![], vec![4], vec![1, 2, 4, 7, 11, 16], vec![5, -3, -8, 1], vec![9, 9, -9]] {
        let mut d = take_diffs(s.clone());
        accumulate(&mut d);
        assert_eq!(d, s);
    }
}

#[test]
fn accumulate_running_sums() {
    let mut v = vec![1, 1, 2, 3, 4, 5];
    accumulate(&mut v);
    assert_eq!(v, vec![1, 2, 4, 7, 11, 16]);
    let mut e: Vec<i32> = vec![];
    accumulate(&mut e);
    assert_eq!(e, Vec::<i32>::new());
}

#[test]
fn align_round_trip() {
    for e in [0, 1, 7, 16, 96, -12, -1, i32::MIN, i32::MAX, 1 << 30] {
        let (residual, shift) = align(e);
        assert_eq!(residual << shift, e);
        if e != 0 {
            assert!(residual % 2 != 0);
        }
    }
    assert_eq!(align(-12), (-3, 2));
    assert_eq!(align(i32::MIN), (-1, 31));
}

#[test]
fn grouping_covers_each_position_once() {
    let groups = group_indices_by_elem(vec![(2, (-1, 3)), (0, (1, 0)), (4, (1, 2)), (1, (3, 1)), (3, (3, 0))]);
    assert_eq!(groups, vec![(-1, vec![(2, 3)]), (1, vec![(0, 0), (4, 2)]), (3, vec![(1, 1), (3, 0)])]);
    let mut positions: Vec<usize> = groups.iter().flat_map(|(_, os)| os.iter().map(|o| o.0)).collect();
    positions.sort();
    assert_eq!(positions, vec![0, 1, 2, 3, 4]);
}

#[test]
fn grouping_empty() {
    assert_eq!(group_indices_by_elem(vec![]), Vec::<(i32, Vec<(usize, u32)>)>::new());
}

#[test]
fn down_then_up_rebuilds_scaled_row() {
    let row = vec![3, 1, 4, 1, 5, 9];
    let (last, mut steps) = down(row.clone(), vec![]);
    assert!(!steps.is_empty());
    steps.reverse();
    let rebuilt = up(&steps, vec![2 * last]);
    assert_eq!(rebuilt, vec![6, 2, 8, 2, 10, 18]);
}

#[test]
fn down_records_levels() {
    let (last, steps) = down(vec![4, 4], vec![]);
    assert_eq!(last, 1);
    assert_eq!(steps.len(), 1);
    assert_eq!(steps[0].len, 2);
    assert_eq!(steps[0].pointers, vec![(1, vec![(0, 2), (1, 2)])]);
    assert_eq!(steps[0].signs, vec![1, 1]);
}

#[test]
fn transpose_swaps() {
    let m = Matrix { elems: vec![vec![1, 2, 3], vec![4, 5, 6]], rows: 2, cols: 3 };
    let t = m.transpose();
    assert_eq!(t.rows, 3);
    assert_eq!(t.cols, 2);
    assert_eq!(t.elems, vec![vec![1, 4], vec![2, 5], vec![3, 6]]);
}

#[test]
fn add_assign_elementwise() {
    let mut m = Matrix { elems: vec![vec![1, 2], vec![3, 4]], rows: 2, cols: 2 };
    m.add_assign(Matrix { elems: vec![vec![10, 20], vec![-3, 0]], rows: 2, cols: 2 });
    assert_eq!(m.elems, vec![vec![11, 22], vec![0, 4]]);
}

#[test]
fn zeros_matrix() {
    let z = zeros(2, 3);
    assert_eq!(z.elems, vec![vec![0, 0, 0], vec![0, 0, 0]]);
    assert_eq!((z.rows, z.cols), (2, 3));
}

#[test]
fn matrix_equality() {
    let a = Matrix { elems: vec![vec![1, 2]], rows: 1, cols: 2 };
    let b = Matrix { elems: vec![vec![1, 2]], rows: 1, cols: 2 };
    let c = Matrix { elems: vec![vec![1, 3]], rows: 1, cols: 2 };
    let d = Matrix { elems: vec![vec![1], vec![2]], rows: 2, cols: 1 };
    assert!(a == b);
    assert!(a != c);
    assert!(a != d);
}

#[test]
fn outer_product_row_with_zero() {
    let result = outer_product(&vec![1, 2], &vec![0, 5]);
    assert_eq!(result.elems, vec![vec![0, 5], vec![0, 10]]);
}

#[test]
fn scalar_mult_mixed_signs() {
    assert_eq!(scalar_mult(3, &vec![-5, 10]), vec![-15, 30]);
    assert_eq!(scalar_mult(2, &vec![0, 1]), vec![0, 2]);
    assert_eq!(scalar_mult(-1, &vec![-5, 1]), vec![5, -1]);
    let v = vec![-5, 1, 0, 12, -12, 3, 0, -96];
    for c in [-7, 0, 1, 13] {
        let expected: Vec<i32> = v.iter().map(|x| c * x).collect();
        assert_eq!(scalar_mult(c, &v), expected);
    }
}

#[test]
fn scalar_mult_extremes() {
    assert_eq!(scalar_mult(1, &vec![i32::MIN, 5, i32::MAX]), vec![i32::MIN, 5, i32::MAX]);
    assert_eq!(scalar_mult(i32::MIN, &vec![1, 0]), vec![i32::MIN, 0]);
    assert_eq!(scalar_mult(-1, &vec![i32::MAX, -3]), vec![-i32::MAX, 3]);
}

#[test]
fn matrix_mult_mixed_signs() {
    let a = Matrix { elems: vec![vec![1, 2], vec![-3, 4]], rows: 2, cols: 2 };
    let b = Matrix { elems: vec![vec![0, 5, -2], vec![-1, 0, 7]], rows: 2, cols: 3 };
    let r = matrix_mult(a, b);
    assert_eq!(r.elems, vec![vec![-2, 5, 12], vec![-4, -15, 34]]);
}

#[test]
fn matrix_mult_no_columns() {
    let a = Matrix { elems: vec![vec![1, 2], vec![3, 4]], rows: 2, cols: 2 };
    let b: Matrix<i32> = Matrix { elems: vec![vec![], vec![]], rows: 2, cols: 0 };
    let r = matrix_mult(a, b);
    assert_eq!(r, zeros(2, 0));
}

#[test]
fn down_single_element_records_nothing() {
    let (last, steps) = down(vec![-12], vec![]);
    assert_eq!(last, -12);
    assert!(steps.is_empty());
}

#[test]
fn down_then_up_on_signed_row() {
    let row = vec![-5, 1, 0, 8];
    let (last, mut steps) = down(row.clone(), vec![]);
    steps.reverse();
    assert_eq!(up(&steps, vec![-3 * last]), vec![15, -3, 0, -24]);
}
