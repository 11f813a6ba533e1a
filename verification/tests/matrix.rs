use ray_tracer::matrix::{cofactor_negates, Matrix};

#[test]
fn should_construct_and_inspect_a_4_by_4_matrix() {
    let m = Matrix::from([
        [1.0, 2.0, 3.0, 4.0],
        [5.5, 6.5, 7.5, 8.5],
        [9.0, 10.0, 11.0, 12.0],
        [13.5, 14.5, 15.5, 16.5],
    ]);

    assert_eq!(m[0][0], 1.0);
    assert_eq!(m[0][3], 4.0);
    assert_eq!(m[1][0], 5.5);
    assert_eq!(m[1][2], 7.5);
    assert_eq!(m[2][2], 11.0);
    assert_eq!(m[3][0], 13.5);
    assert_eq!(m[3][2], 15.5);
}

#[test]
fn should_compare_identical_matrices() {
    let a = Matrix::from([
        [1.0, 2.0, 3.0, 4.0],
        [5.0, 6.0, 7.0, 8.0],
        [9.0, 8.0, 7.0, 6.0],
        [5.0, 4.0, 3.0, 2.0],
    ]);

    let b = Matrix::from([
        [1.0, 2.0, 3.0, 4.0],
        [5.0, 6.0, 7.0, 8.0],
        [9.0, 8.0, 7.0, 6.0],
        [5.0, 4.0, 3.0, 2.0],
    ]);

    assert_eq!(a, b);
}

#[test]
fn should_compare_different_matrices() {
    let a = Matrix::from([
        [1.0, 2.0, 3.0, 4.0],
        [5.0, 6.0, 7.0, 8.0],
        [9.0, 8.0, 7.0, 6.0],
        [5.0, 4.0, 3.0, 2.0],
    ]);

    let b = Matrix::from([
        [2.0, 3.0, 4.0, 5.0],
        [6.0, 7.0, 8.0, 9.0],
        [8.0, 7.0, 6.0, 5.0],
        [4.0, 3.0, 2.0, 1.0],
    ]);

    assert_ne!(a, b);
}

#[test]
fn should_transpose_a_matrix() {
    let a = Matrix::from([
        [0.0, 9.0, 3.0, 0.0],
        [9.0, 8.0, 0.0, 8.0],
        [1.0, 8.0, 5.0, 3.0],
        [0.0, 0.0, 5.0, 8.0],
    ]);

    let expected = Matrix::from([
        [0.0, 9.0, 1.0, 0.0],
        [9.0, 8.0, 8.0, 0.0],
        [3.0, 0.0, 5.0, 5.0],
        [0.0, 8.0, 3.0, 8.0],
    ]);

    assert_eq!(expected, a.transpose());
}

#[test]
fn should_transpose_identity_matrix() {
    let identity_matrix = Matrix::from([
        [1.0, 0.0, 0.0, 0.0],
        [0.0, 1.0, 0.0, 0.0],
        [0.0, 0.0, 1.0, 0.0],
        [0.0, 0.0, 0.0, 1.0],
    ]);

    assert_eq!(identity_matrix, identity_matrix.transpose());
}

#[test]
fn should_return_a_2_x_2_submatrix() {
    let a = Matrix::from([[1.0, 5.0, 0.0], [-3.0, 2.0, 7.0], [0.0, 6.0, -3.0]]);
    let expected = Matrix::from([[-3.0, 2.0], [0.0, 6.0]]);
    assert_eq!(expected, a.submatrix(0, 2));
}

#[test]
fn should_return_a_3_x_3_submatrix() {
    let a = Matrix::from([
        [-6.0, 1.0, 1.0, 6.0],
        [-8.0, 5.0, 8.0, 6.0],
        [-1.0, 0.0, 8.0, 2.0],
        [-7.0, 1.0, -1.0, 1.0],
    ]);

    let expected = Matrix::from([[-6.0, 1.0, 6.0], [-8.0, 8.0, 6.0], [-7.0, -1.0, 1.0]]);
    let actual = a.submatrix(2, 1);
    assert_eq!(expected, actual);
}

#[test]
fn transposing_twice_gives_the_matrix_back() {
    let a = Matrix::from([[1, 2, 3, 4], [5, 6, 7, 8], [9, 10, 11, 12], [13, 14, 15, 16]]);
    assert_ne!(a.transpose(), a);
    assert_eq!(a.transpose().transpose(), a);
    let b = Matrix::from([[1.5, -2.0], [0.25, 8.0]]);
    assert_eq!(b.transpose(), Matrix::from([[1.5, 0.25], [-2.0, 8.0]]));
    assert_eq!(b.transpose().transpose(), b);
    let c = Matrix::from([['a', 'b', 'c'], ['d', 'e', 'f'], ['g', 'h', 'i']]);
    assert_eq!(c.transpose(), Matrix::from([['a', 'd', 'g'], ['b', 'e', 'h'], ['c', 'f', 'i']]));
}

#[test]
fn transpose_swaps_row_and_column_of_every_entry() {
    let a = Matrix::from([[1, 2, 3, 4], [5, 6, 7, 8], [9, 10, 11, 12], [13, 14, 15, 16]]);
    let t = a.transpose();
    for row in 0..4 {
        for col in 0..4 {
            assert_eq!(t[col][row], a[row][col]);
        }
    }
}

#[test]
fn submatrix_takes_out_each_row_and_column() {
    let a = Matrix::from([[1, 2, 3], [4, 5, 6], [7, 8, 9]]);
    assert_eq!(a.submatrix(0, 0), Matrix::from([[5, 6], [8, 9]]));
    assert_eq!(a.submatrix(1, 1), Matrix::from([[1, 3], [7, 9]]));
    assert_eq!(a.submatrix(2, 2), Matrix::from([[1, 2], [4, 5]]));
    assert_eq!(a.submatrix(2, 0), Matrix::from([[2, 3], [5, 6]]));
    assert_eq!(a.submatrix(0, 1), Matrix::from([[4, 6], [7, 9]]));

    let b = Matrix::from([[1, 2, 3, 4], [5, 6, 7, 8], [9, 10, 11, 12], [13, 14, 15, 16]]);
    assert_eq!(b.submatrix(0, 0), Matrix::from([[6, 7, 8], [10, 11, 12], [14, 15, 16]]));
    assert_eq!(b.submatrix(3, 3), Matrix::from([[1, 2, 3], [5, 6, 7], [9, 10, 11]]));
    assert_eq!(b.submatrix(1, 2), Matrix::from([[1, 2, 4], [9, 10, 12], [13, 14, 16]]));
    assert_eq!(b.submatrix(1, 2).submatrix(0, 0), Matrix::from([[10, 12], [14, 16]]));
}

#[test]
fn submatrix_past_the_end_takes_out_the_last() {
    let a = Matrix::from([[1, 2, 3], [4, 5, 6], [7, 8, 9]]);
    assert_eq!(a.submatrix(3, 0), a.submatrix(2, 0));
    assert_eq!(a.submatrix(0, 7), a.submatrix(0, 2));
    assert_eq!(a.submatrix(usize::MAX, usize::MAX), Matrix::from([[1, 2], [4, 5]]));
    let b = Matrix::from([[1, 2, 3, 4], [5, 6, 7, 8], [9, 10, 11, 12], [13, 14, 15, 16]]);
    assert_eq!(b.submatrix(4, 4), Matrix::from([[1, 2, 3], [5, 6, 7], [9, 10, 11]]));
}

#[test]
fn cofactor_sign_follows_the_parity_of_row_plus_column() {
    for row in 0..4 {
        for col in 0..4 {
            assert_eq!(cofactor_negates(row, col), (row + col) % 2 == 1);
        }
    }
    assert!(!cofactor_negates(0, 0));
    assert!(cofactor_negates(1, 0));
    assert!(cofactor_negates(2, 3));
    assert!(cofactor_negates(3, 2));
    assert!(!cofactor_negates(usize::MAX, usize::MAX));
    assert!(cofactor_negates(usize::MAX, 0));
}

#[test]
fn cofactor_sign_flips_from_one_entry_to_the_next() {
    for row in 0..6 {
        for col in 0..6 {
            assert_ne!(cofactor_negates(row, col), cofactor_negates(row, col + 1));
            assert_ne!(cofactor_negates(row, col), cofactor_negates(row + 1, col));
        }
    }
}

#[test]
fn filled_matrix_holds_one_value_everywhere() {
    let zero: Matrix<f64, 4> = Matrix::filled(0.0);
    assert_eq!(zero, Matrix::from([[0.0; 4]; 4]));
    let sevens: Matrix<u8, 2> = Matrix::filled(7);
    assert_eq!(sevens, Matrix::from([[7, 7], [7, 7]]));
    assert_eq!(sevens.transpose(), sevens);
}

#[test]
fn matrix_is_built_from_its_rows() {
    let m = Matrix::from([[1, 2], [3, 4]]);
    assert_eq!(m.entries, [[1, 2], [3, 4]]);
    assert_eq!(m[0], [1, 2]);
    assert_eq!(m[1], [3, 4]);
    let n: Matrix<u8, 2> = [[1, 2], [3, 4]].into();
    assert_eq!(m, n);
}

#[test]
fn translation_keeps_the_offsets_in_the_last_column() {
    let m = Matrix::translation(5.0, -3.0, 2.0, 0.0, 1.0);
    let expected = Matrix::from([
        [1.0, 0.0, 0.0, 5.0],
        [0.0, 1.0, 0.0, -3.0],
        [0.0, 0.0, 1.0, 2.0],
        [0.0, 0.0, 0.0, 1.0],
    ]);
    assert_eq!(m, expected);
    assert_eq!(Matrix::translation(7, 8, 9, 0, 1).transpose()[3], [7, 8, 9, 1]);
}

#[test]
fn scaling_keeps_the_factors_on_the_diagonal() {
    let m = Matrix::scaling(2.0, 3.0, 4.0, 0.0, 1.0);
    let expected = Matrix::from([
        [2.0, 0.0, 0.0, 0.0],
        [0.0, 3.0, 0.0, 0.0],
        [0.0, 0.0, 4.0, 0.0],
        [0.0, 0.0, 0.0, 1.0],
    ]);
    assert_eq!(m, expected);
    assert_eq!(m.transpose(), m);
}

#[test]
fn rotation_about_x_leaves_the_first_row_and_column_alone() {
    let m = Matrix::rotation_x('c', 's', 'm', '0', '1');
    let expected = Matrix::from([
        ['1', '0', '0', '0'],
        ['0', 'c', 'm', '0'],
        ['0', 's', 'c', '0'],
        ['0', '0', '0', '1'],
    ]);
    assert_eq!(m, expected);
}
