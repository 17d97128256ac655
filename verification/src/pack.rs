//! Lists of shares, seen as matrices.

use vstd::prelude::*;

verus! {

/// What the protocols need to know of the packed secret sharing: how many parties may
/// be corrupt, how many secrets one sharing holds, and how many parties there are.
#[derive(Clone, Copy, Debug, PartialEq, Eq)]
pub struct PackedSharingParams {
    pub t: usize,
    pub l: usize,
    pub n: usize,
}

/// Number of columns.
pub open spec fn width<T>(matrix: Seq<Vec<T>>) -> nat {
    if matrix.len() == 0 {
        0
    } else {
        matrix[0]@.len()
    }
}

/// Whether all rows have the same length.
pub open spec fn rectangular<T>(matrix: Seq<Vec<T>>) -> bool {
    forall|i: int| 0 <= i < matrix.len() ==> (#[trigger] matrix[i])@.len() == width(matrix)
}

/// A column.
pub open spec fn column<T>(matrix: Seq<Vec<T>>, j: int) -> Seq<T> {
    matrix.map_values(|row: Vec<T>| row@[j])
}

/// The same list once more.
pub(crate) fn copy<T: Copy>(list: &Vec<T>) -> (r: Vec<T>)
    ensures
        r@ == list@,
{
    let mut r: Vec<T> = Vec::new();
    for i in 0..list.len()
        invariant
            r@ == list@.take(i as int),
    {
        r.push(list[i]);
    }
    r
}

/// Exchanges rows and columns.
pub fn transpose<T: Copy>(matrix: Vec<Vec<T>>) -> (r: Vec<Vec<T>>)
    requires
        rectangular(matrix@),
    ensures
        r@.len() == width(matrix@),
        forall|j: int| 0 <= j < r@.len() ==> (#[trigger] r@[j])@ == column(matrix@, j),
{
    let mut r: Vec<Vec<T>> = Vec::new();
    if matrix.len() == 0 {
        return r;
    }
    let columns: usize = matrix[0].len();
    for j in 0..columns
        invariant
            columns == width(matrix@),
            rectangular(matrix@),
            matrix@.len() > 0,
            r@.len() == j,
            forall|k: int| 0 <= k < j ==> (#[trigger] r@[k])@ == column(matrix@, k),
    {
        let mut row: Vec<T> = Vec::new();
        for i in 0..matrix.len()
            invariant
                rectangular(matrix@),
                j < width(matrix@),
                row@ == column(matrix@, j as int).take(i as int),
        {
            row.push(matrix[i][j]);
        }
        r.push(row);
    }
    r
}

/// Exchanging rows and columns twice gives back a matrix that has any columns.
pub proof fn law_transpose_twice<T>(matrix: Seq<Vec<T>>, once: Seq<Vec<T>>, twice: Seq<Vec<T>>)
    requires
        rectangular(matrix),
        width(matrix) > 0,
        once.len() == width(matrix),
        forall|j: int| 0 <= j < once.len() ==> (#[trigger] once[j])@ == column(matrix, j),
        twice.len() == width(once),
        forall|i: int| 0 <= i < twice.len() ==> (#[trigger] twice[i])@ == column(once, i),
    ensures
        rectangular(once),
        twice.len() == matrix.len(),
        forall|i: int| 0 <= i < twice.len() ==> (#[trigger] twice[i])@ == matrix[i]@,
{
    assert(once[0]@ == column(matrix, 0));
    assert forall|i: int| 0 <= i < twice.len() implies (#[trigger] twice[i])@ == matrix[i]@ by {
        assert(matrix[i]@.len() == width(matrix));
        assert forall|j: int| 0 <= j < once.len() implies twice[i]@[j] == matrix[i]@[j] by {
            assert(once[j]@ == column(matrix, j));
        }
        assert(twice[i]@ =~= matrix[i]@);
    }
}

/// Exchanging rows and columns puts every element at the exchanged place, and none is lost.
pub proof fn law_transpose_moves_every_element<T: Copy>(
    matrix: Vec<Vec<T>>,
    r: Vec<Vec<T>>,
    columns: nat,
)
    requires
        forall|i: int| 0 <= i < matrix@.len() ==> (#[trigger] matrix@[i])@.len() == columns,
        call_ensures(transpose::<T>, (matrix,), r),
    ensures
        matrix@.len() > 0 ==> r@.len() == columns,
        matrix@.len() == 0 ==> r@.len() == 0,
        forall|j: int| 0 <= j < r@.len() ==> (#[trigger] r@[j])@.len() == matrix@.len(),
        forall|i: int, j: int|
            0 <= i < matrix@.len() && 0 <= j < columns ==> #[trigger] r@[j]@[i] == matrix@[i]@[j],
{
    if matrix@.len() > 0 {
        assert(matrix@[0]@.len() == columns);
        assert forall|i: int, j: int|
            0 <= i < matrix@.len() && 0 <= j < columns implies #[trigger] r@[j]@[i]
            == matrix@[i]@[j] by {
            assert(r@[j]@ == column(matrix@, j));
        }
    }
}

} // verus!
