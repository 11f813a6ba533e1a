//! Square matrices of a fixed dimension: their transposes and submatrices,
//! the layout of the affine transforms, and the sign rule of cofactors.
//!
//! The entry type is left open. Nothing here computes with entries; the
//! functions only decide which entry goes where, and which cofactors change
//! sign. A transform is therefore built from the values it holds, the zero
//! and the one of the entry type among them.

use vstd::prelude::*;

verus! {

/// A `D` by `D` matrix, stored as `D` rows of `D` entries each.
///
/// Two matrices are equal when their entries are, by the `==` of the entry
/// type.
#[derive(Clone, Copy, Debug, PartialEq)]
pub struct Matrix<T, const D: usize> {
    pub entries: [[T; D]; D],
}

/// Whether `grid` has `n` rows of `n` entries each.
pub open spec fn is_square<T>(grid: Seq<Seq<T>>, n: nat) -> bool {
    &&& grid.len() == n
    &&& forall|r: int| 0 <= r < n ==> (#[trigger] grid[r]).len() == n
}

/// The rows of a `D` by `D` array, top row first.
pub open spec fn grid_of<T, const D: usize>(entries: [[T; D]; D]) -> Seq<Seq<T>> {
    Seq::new(D as nat, |r: int| entries[r]@)
}

/// The grid whose entry at `(c, r)` is the entry of `grid` at `(r, c)`.
pub open spec fn transposed<T>(grid: Seq<Seq<T>>) -> Seq<Seq<T>> {
    Seq::new(grid.len(), |c: int| Seq::new(grid.len(), |r: int| grid[r][c]))
}

/// The index in the full matrix of what ends up at index `i` once `excluded`
/// is left out: indices before the excluded one stay, later ones move up by
/// one.
pub open spec fn kept(i: int, excluded: int) -> int {
    if i < excluded {
        i
    } else {
        i + 1
    }
}

/// `grid` without row `row` and column `col`, one smaller each way, the
/// remaining entries in their old order.
pub open spec fn without<T>(grid: Seq<Seq<T>>, row: int, col: int) -> Seq<Seq<T>> {
    Seq::new(
        (grid.len() - 1) as nat,
        |i: int| Seq::new((grid.len() - 1) as nat, |j: int| grid[kept(i, row)][kept(j, col)]),
    )
}

/// Whether the cofactor at `(row, col)` is the negated minor: it is where
/// `row + col` is odd.
pub open spec fn cofactor_negated(row: int, col: int) -> bool {
    (row + col) % 2 == 1
}

impl<T, const D: usize> View for Matrix<T, D> {
    type V = Seq<Seq<T>>;

    /// The rows of the matrix, top row first.
    open spec fn view(&self) -> Seq<Seq<T>> {
        grid_of(self.entries)
    }
}

impl<T, const D: usize> From<[[T; D]; D]> for Matrix<T, D> {
    /// The matrix with the given rows.
    fn from(entries: [[T; D]; D]) -> (matrix: Matrix<T, D>) {
        Matrix { entries }
    }
}

impl<T, const D: usize> vstd::std_specs::convert::FromSpecImpl<[[T; D]; D]> for Matrix<T, D> {
    open spec fn obeys_from_spec() -> bool {
        true
    }

    open spec fn from_spec(entries: [[T; D]; D]) -> Matrix<T, D> {
        Matrix { entries }
    }
}

impl<T, const D: usize> core::ops::Index<usize> for Matrix<T, D> {
    type Output = [T; D];

    /// The row at `index`.
    fn index(&self, index: usize) -> (row: &[T; D])
        ensures
            row@ == self@[index as int],
    {
        &self.entries[index]
    }
}

impl<T, const D: usize> vstd::std_specs::core::IndexSpecImpl<usize> for Matrix<T, D> {
    open spec fn index_req(&self, index: &usize) -> bool {
        *index < D
    }
}

impl<T: Copy, const D: usize> Matrix<T, D> {
    /// The matrix whose every entry is `value`.
    pub fn filled(value: T) -> (matrix: Matrix<T, D>)
        ensures
            matrix@ == Seq::new(D as nat, |r: int| Seq::new(D as nat, |c: int| value)),
    {
        let matrix = Matrix { entries: [[value; D]; D] };
        assert(matrix@ =~~= Seq::new(D as nat, |r: int| Seq::new(D as nat, |c: int| value)));
        matrix
    }

    /// The matrix mirrored at its main diagonal.
    pub fn transpose(&self) -> (t: Matrix<T, D>)
        ensures
            t@ == transposed(self@),
    {
        let mut entries = self.entries;
        let mut row: usize = 0;
        while row < D
            invariant
                row <= D,
                forall|r: int, c: int|
                    0 <= r < row && 0 <= c < D ==> entries[c][r] == self.entries[r][c],
            decreases D - row,
        {
            let mut col: usize = 0;
            while col < D
                invariant
                    row < D,
                    col <= D,
                    forall|r: int, c: int|
                        0 <= r < row && 0 <= c < D ==> entries[c][r] == self.entries[r][c],
                    forall|c: int|
                        0 <= c < col ==> entries[c][row as int] == self.entries[row as int][c],
                decreases D - col,
            {
                entries[col][row] = self.entries[row][col];
                col += 1;
            }
            row += 1;
        }
        let t = Matrix { entries };
        assert(t@ =~~= transposed(self@));
        t
    }
}

/// Copies `entries` without row `row` and column `col` into an array one
/// smaller each way.
fn shrink<T: Copy, const D: usize, const M: usize>(
    entries: &[[T; D]; D],
    row: usize,
    col: usize,
) -> (out: [[T; M]; M])
    requires
        M + 1 == D,
    ensures
        grid_of(out) == without(grid_of(*entries), row as int, col as int),
{
    let filler = entries[0][0];
    let mut out = [[filler; M]; M];
    let mut i: usize = 0;
    while i < M
        invariant
            M + 1 == D,
            i <= M,
            forall|a: int, b: int|
                0 <= a < i && 0 <= b < M ==> out[a][b] == entries[kept(a, row as int)][kept(
                    b,
                    col as int,
                )],
        decreases M - i,
    {
        let from_row = if i < row {
            i
        } else {
            i + 1
        };
        let mut j: usize = 0;
        while j < M
            invariant
                M + 1 == D,
                i < M,
                j <= M,
                from_row == kept(i as int, row as int),
                forall|a: int, b: int|
                    0 <= a < i && 0 <= b < M ==> out[a][b] == entries[kept(a, row as int)][kept(
                        b,
                        col as int,
                    )],
                forall|b: int|
                    0 <= b < j ==> out[i as int][b] == entries[from_row as int][kept(
                        b,
                        col as int,
                    )],
            decreases M - j,
        {
            let from_col = if j < col {
                j
            } else {
                j + 1
            };
            out[i][j] = entries[from_row][from_col];
            j += 1;
        }
        i += 1;
    }
    assert(grid_of(out) =~~= without(grid_of(*entries), row as int, col as int));
    out
}

impl<T: Copy> Matrix<T, 3> {
    /// The 2 by 2 matrix left when row `row` and column `col` are taken out.
    /// An index past the last row or column takes out the last one.
    pub fn submatrix(&self, row: usize, col: usize) -> (sub: Matrix<T, 2>)
        ensures
            sub@ == without(self@, row as int, col as int),
    {
        Matrix { entries: shrink(&self.entries, row, col) }
    }
}

impl<T: Copy> Matrix<T, 4> {
    /// The 3 by 3 matrix left when row `row` and column `col` are taken out.
    /// An index past the last row or column takes out the last one.
    pub fn submatrix(&self, row: usize, col: usize) -> (sub: Matrix<T, 3>)
        ensures
            sub@ == without(self@, row as int, col as int),
    {
        Matrix { entries: shrink(&self.entries, row, col) }
    }

    /// The transform that moves by `(x, y, z)`: `one` on the diagonal, the
    /// three offsets in the last column, `zero` everywhere else.
    pub fn translation(x: T, y: T, z: T, zero: T, one: T) -> (matrix: Matrix<T, 4>)
        ensures
            matrix@ == seq![
                seq![one, zero, zero, x],
                seq![zero, one, zero, y],
                seq![zero, zero, one, z],
                seq![zero, zero, zero, one],
            ],
    {
        let matrix = Matrix {
            entries: [
                [one, zero, zero, x],
                [zero, one, zero, y],
                [zero, zero, one, z],
                [zero, zero, zero, one],
            ],
        };
        assert(matrix@ =~~= seq![
            seq![one, zero, zero, x],
            seq![zero, one, zero, y],
            seq![zero, zero, one, z],
            seq![zero, zero, zero, one],
        ]);
        matrix
    }

    /// The transform that scales by `(x, y, z)`: the three factors and `one`
    /// on the diagonal, `zero` everywhere else.
    pub fn scaling(x: T, y: T, z: T, zero: T, one: T) -> (matrix: Matrix<T, 4>)
        ensures
            matrix@ == seq![
                seq![x, zero, zero, zero],
                seq![zero, y, zero, zero],
                seq![zero, zero, z, zero],
                seq![zero, zero, zero, one],
            ],
    {
        let matrix = Matrix {
            entries: [
                [x, zero, zero, zero],
                [zero, y, zero, zero],
                [zero, zero, z, zero],
                [zero, zero, zero, one],
            ],
        };
        assert(matrix@ =~~= seq![
            seq![x, zero, zero, zero],
            seq![zero, y, zero, zero],
            seq![zero, zero, z, zero],
            seq![zero, zero, zero, one],
        ]);
        matrix
    }

    /// The transform that turns about the x axis by the angle whose cosine
    /// is `cos` and whose sine is `sin`; `minus_sin` is the sine negated.
    /// The x coordinate stays, and the other two are turned into each other.
    pub fn rotation_x(cos: T, sin: T, minus_sin: T, zero: T, one: T) -> (matrix: Matrix<T, 4>)
        ensures
            matrix@ == seq![
                seq![one, zero, zero, zero],
                seq![zero, cos, minus_sin, zero],
                seq![zero, sin, cos, zero],
                seq![zero, zero, zero, one],
            ],
    {
        let matrix = Matrix {
            entries: [
                [one, zero, zero, zero],
                [zero, cos, minus_sin, zero],
                [zero, sin, cos, zero],
                [zero, zero, zero, one],
            ],
        };
        assert(matrix@ =~~= seq![
            seq![one, zero, zero, zero],
            seq![zero, cos, minus_sin, zero],
            seq![zero, sin, cos, zero],
            seq![zero, zero, zero, one],
        ]);
        matrix
    }
}

/// Tells whether the cofactor at `(row, col)` is the minor there with its sign
/// changed.
pub fn cofactor_negates(row: usize, col: usize) -> (negates: bool)
    ensures
        negates == cofactor_negated(row as int, col as int),
{
    (row % 2 == 1) != (col % 2 == 1)
}

/// The view of a matrix is a square grid of its dimension.
pub proof fn lemma_view_is_square<T, const D: usize>(matrix: Matrix<T, D>)
    ensures
        is_square(matrix@, D as nat),
{
}

/// Two matrices with the same view are the same matrix.
pub proof fn lemma_view_decides<T, const D: usize>(a: Matrix<T, D>, b: Matrix<T, D>)
    requires
        a@ == b@,
    ensures
        a == b,
{
    assert forall|r: int| 0 <= r < D implies a.entries[r] == b.entries[r] by {
        assert(a@[r] == b@[r]);
        assert(a.entries[r]@ == b.entries[r]@);
        assert(a.entries[r] =~= b.entries[r]);
    }
    assert(a.entries =~= b.entries);
}

/// The transpose of a square grid is square.
pub proof fn lemma_transposed_is_square<T>(grid: Seq<Seq<T>>, n: nat)
    requires
        is_square(grid, n),
    ensures
        is_square(transposed(grid), n),
{
}

/// Transposing a square grid twice gives the grid back.
pub proof fn lemma_transpose_involution<T>(grid: Seq<Seq<T>>, n: nat)
    requires
        is_square(grid, n),
    ensures
        transposed(transposed(grid)) == grid,
{
    assert(transposed(transposed(grid)) =~~= grid);
}

/// The transpose of the transpose of a matrix is the matrix itself: if
/// `there` is the transpose of `matrix` and `back` the transpose of `there`,
/// then `back` is `matrix`.
pub proof fn lemma_transpose_twice<T, const D: usize>(
    matrix: Matrix<T, D>,
    there: Matrix<T, D>,
    back: Matrix<T, D>,
)
    requires
        there@ == transposed(matrix@),
        back@ == transposed(there@),
    ensures
        back == matrix,
{
    lemma_view_is_square(matrix);
    lemma_transpose_involution(matrix@, D as nat);
    lemma_view_decides(back, matrix);
}

/// Taking out a row and a column that exist removes exactly that row from the
/// grid and that column from every remaining row, and leaves a square grid
/// one smaller.
pub proof fn lemma_without_removes<T>(grid: Seq<Seq<T>>, n: nat, row: int, col: int)
    requires
        is_square(grid, n),
        0 <= row < n,
        0 <= col < n,
    ensures
        without(grid, row, col) == grid.remove(row).map_values(|r: Seq<T>| r.remove(col)),
        is_square(without(grid, row, col), (n - 1) as nat),
{
    assert(without(grid, row, col) =~~= grid.remove(row).map_values(|r: Seq<T>| r.remove(col)));
}

/// An index past the last row or column takes out the last one.
pub proof fn lemma_without_past_the_end<T>(grid: Seq<Seq<T>>, n: nat, row: int, col: int)
    requires
        is_square(grid, n),
        n > 0,
    ensures
        row >= n ==> without(grid, row, col) == without(grid, n - 1, col),
        col >= n ==> without(grid, row, col) == without(grid, row, n - 1),
{
    if row >= n {
        assert(without(grid, row, col) =~~= without(grid, n - 1, col));
    }
    if col >= n {
        assert(without(grid, row, col) =~~= without(grid, row, n - 1));
    }
}

/// The cofactor signs form a chessboard: the corner keeps the sign of its
/// minor, and stepping to the next row or the next column flips the sign.
pub proof fn lemma_cofactor_signs_alternate(row: int, col: int)
    requires
        0 <= row,
        0 <= col,
    ensures
        !cofactor_negated(0, 0),
        cofactor_negated(row + 1, col) == !cofactor_negated(row, col),
        cofactor_negated(row, col + 1) == !cofactor_negated(row, col),
        cofactor_negated(row, col) == cofactor_negated(col, row),
{
}

} // verus!
