//! Prefix sums over a matrix, with the table alone: its dimensions are read
//! off the table itself.

use crate::cumulative_sum::{
    can_corner_sum, columns, corner_sum, lemma_no_columns, rectangle_total, rows,
};
use std::ops::{Add, Sub};
use vstd::prelude::*;
use vstd::std_specs::ops::{AddSpec, SubSpec};

verus! {

/// The prefix sum of the first `i` rows and `j` columns of `arr`, built as
/// the table is: from the sum to the left, the sum above, the sum above and
/// to the left, and the entry itself.
pub open spec fn table_sum_leftward<T: Add<Output = T> + Sub<Output = T>>(
    start: T,
    arr: Seq<Seq<T>>,
    i: int,
    j: int,
) -> T
    decreases i + j,
{
    if i <= 0 || j <= 0 {
        start
    } else {
        table_sum_leftward(start, arr, i, j - 1).add_spec(
            table_sum_leftward(start, arr, i - 1, j),
        ).sub_spec(table_sum_leftward(start, arr, i - 1, j - 1)).add_spec(arr[i - 1][j - 1])
    }
}

/// Every step that the table of `h` rows and `w` columns takes is one that
/// the type allows.
pub open spec fn can_tabulate_leftward<T: Add<Output = T> + Sub<Output = T>>(
    start: T,
    arr: Seq<Seq<T>>,
    h: int,
    w: int,
) -> bool {
    forall|i: int, j: int|
        0 < i <= h && 0 < j <= w ==> {
            let above = table_sum_leftward(start, arr, i - 1, j);
            let left = table_sum_leftward(start, arr, i, j - 1);
            let corner = #[trigger] table_sum_leftward(start, arr, i - 1, j - 1);
            &&& left.add_req(above)
            &&& left.add_spec(above).sub_req(corner)
            &&& left.add_spec(above).sub_spec(corner).add_req(arr[i - 1][j - 1])
        }
}

/// Over `i64`, where no step of the table overflows, an entry of the table
/// is the sum of the entries of the matrix above it and to its left.
pub proof fn lemma_table_total_leftward(arr: Seq<Seq<i64>>, h: int, w: int, i: int, j: int)
    requires
        can_tabulate_leftward(0i64, arr, h, w),
        0 <= i <= h,
        0 <= j <= w,
    ensures
        table_sum_leftward(0i64, arr, i, j) == rectangle_total(arr, 0, 0, i, j),
    decreases i + j,
{
    if i <= 0 {
    } else if j <= 0 {
        lemma_no_columns(arr, i);
    } else {
        lemma_table_total_leftward(arr, h, w, i - 1, j);
        lemma_table_total_leftward(arr, h, w, i, j - 1);
        lemma_table_total_leftward(arr, h, w, i - 1, j - 1);
        assert(table_sum_leftward(0i64, arr, i, j - 1).add_req(
            table_sum_leftward(0i64, arr, i - 1, j),
        ));
    }
}

#[derive(Debug, Clone)]
#[verifier::reject_recursive_types(T)]
pub struct CumulativeSum2D<T> where T: Add<Output = T> + Sub<Output = T> + Copy + Default {
    data: Vec<Vec<T>>,
}

impl<T> CumulativeSum2D<T> where T: Add<Output = T> + Sub<Output = T> + Copy + Default {
    /// The table: the entry in row `i` and column `j` is the sum of the
    /// first `i` rows and `j` columns.
    pub closed spec fn cells(&self) -> Seq<Seq<T>> {
        rows(self.data@)
    }

    /// The number of rows of the matrix.
    pub open spec fn height(&self) -> int {
        self.cells().len() - 1
    }

    /// The number of columns of the matrix.
    pub open spec fn width(&self) -> int {
        self.cells()[0].len() - 1
    }

    /// The table has at least one row and one column, and all its rows are
    /// of one length.
    pub open spec fn wf(&self) -> bool {
        &&& self.height() >= 0
        &&& self.width() >= 0
        &&& forall|i: int| 0 <= i <= self.height() ==> (#[trigger] self.cells()[i]).len() == self.width() + 1
    }

    /// Builds the table of `matrix`, starting from the type's default value.
    /// Every row must be at least as long as the first.
    pub fn new(matrix: &[Vec<T>]) -> (r: Self)
        requires
            T::obeys_add_spec(),
            T::obeys_sub_spec(),
            matrix@.len() < usize::MAX,
            columns(matrix@) < usize::MAX,
            forall|i: int| 0 <= i < matrix@.len() ==> (#[trigger] matrix@[i])@.len() >= columns(matrix@),
            forall|z: T|
                call_ensures(T::default, (), z) ==> can_tabulate_leftward(
                    z,
                    rows(matrix@),
                    matrix@.len() as int,
                    columns(matrix@),
                ),
        ensures
            r.wf(),
            r.height() == matrix@.len(),
            r.width() == columns(matrix@),
            call_ensures(T::default, (), r.cells()[0][0]),
            forall|i: int, j: int|
                0 <= i <= r.height() && 0 <= j <= r.width() ==> #[trigger] r.cells()[i][j]
                    == table_sum_leftward(r.cells()[0][0], rows(matrix@), i, j),
    {
        let h = matrix.len();
        let w = if h > 0 {
            matrix[0].len()
        } else {
            0
        };
        let zero = T::default();
        let ghost m = rows(matrix@);
        let mut data: Vec<Vec<T>> = Vec::new();
        let mut i: usize = 0;
        while i < h + 1
            invariant
                h < usize::MAX,
                w < usize::MAX,
                i <= h + 1,
                data@.len() == i,
                forall|a: int| 0 <= a < i ==> (#[trigger] data@[a])@.len() == w + 1,
                forall|a: int, b: int| 0 <= a < i && 0 <= b <= w ==> #[trigger] data@[a]@[b] == zero,
            decreases h + 1 - i,
        {
            let mut row: Vec<T> = Vec::new();
            let mut j: usize = 0;
            while j < w + 1
                invariant
                    w < usize::MAX,
                    j <= w + 1,
                    row@.len() == j,
                    forall|b: int| 0 <= b < j ==> #[trigger] row@[b] == zero,
                decreases w + 1 - j,
            {
                row.push(zero);
                j += 1;
            }
            data.push(row);
            i += 1;
        }

        let mut i: usize = 0;
        while i < h
            invariant
                T::obeys_add_spec(),
                T::obeys_sub_spec(),
                h == matrix@.len(),
                w == columns(matrix@),
                h < usize::MAX,
                w < usize::MAX,
                m == rows(matrix@),
                forall|a: int| 0 <= a < matrix@.len() ==> (#[trigger] matrix@[a])@.len() >= w,
                can_tabulate_leftward(zero, m, h as int, w as int),
                i <= h,
                data@.len() == h + 1,
                forall|a: int| 0 <= a <= h ==> (#[trigger] data@[a])@.len() == w + 1,
                forall|a: int, b: int|
                    0 <= a <= i && 0 <= b <= w ==> #[trigger] data@[a]@[b] == table_sum_leftward(zero, m, a, b),
                forall|a: int, b: int| i < a <= h && 0 <= b <= w ==> #[trigger] data@[a]@[b] == zero,
            decreases h - i,
        {
            let mut j: usize = 0;
            while j < w
                invariant
                    T::obeys_add_spec(),
                    T::obeys_sub_spec(),
                    h == matrix@.len(),
                    w == columns(matrix@),
                    h < usize::MAX,
                    w < usize::MAX,
                    m == rows(matrix@),
                    forall|a: int| 0 <= a < matrix@.len() ==> (#[trigger] matrix@[a])@.len() >= w,
                    can_tabulate_leftward(zero, m, h as int, w as int),
                    i < h,
                    j <= w,
                    data@.len() == h + 1,
                    forall|a: int| 0 <= a <= h ==> (#[trigger] data@[a])@.len() == w + 1,
                    forall|a: int, b: int|
                        0 <= a <= i && 0 <= b <= w ==> #[trigger] data@[a]@[b] == table_sum_leftward(
                            zero,
                            m,
                            a,
                            b,
                        ),
                    forall|b: int|
                        0 <= b <= j ==> #[trigger] data@[i + 1]@[b] == table_sum_leftward(zero, m, i + 1, b),
                    forall|b: int| j < b <= w ==> #[trigger] data@[i + 1]@[b] == zero,
                    forall|a: int, b: int|
                        i + 1 < a <= h && 0 <= b <= w ==> #[trigger] data@[a]@[b] == zero,
                decreases w - j,
            {
                let above = data[i][j + 1];
                let left = data[i + 1][j];
                let corner = data[i][j];
                let here = matrix[i][j];
                proof {
                    assert(above == table_sum_leftward(zero, m, i as int, j + 1));
                    assert(left == table_sum_leftward(zero, m, i + 1, j as int));
                    assert(corner == table_sum_leftward(zero, m, i as int, j as int));
                    assert(here == m[i as int][j as int]);
                    let c = table_sum_leftward(zero, m, (i + 1) - 1, (j + 1) - 1);
                    assert(c == corner);
                }
                let v = left + above - corner + here;
                assert(v == table_sum_leftward(zero, m, i + 1, j + 1));
                data[i + 1][j + 1] = v;
                j += 1;
            }
            i += 1;
        }
        let r = Self { data };
        assert(r.cells().len() == h + 1);
        assert(r.cells()[0] == r.data@[0]@);
        assert forall|a: int, b: int| 0 <= a <= r.height() && 0 <= b <= r.width() implies #[trigger] r.cells()[a][b]
            == table_sum_leftward(r.cells()[0][0], rows(matrix@), a, b) by {
            assert(r.cells()[a] == r.data@[a]@);
            assert(r.data@[a]@[b] == table_sum_leftward(zero, m, a, b));
        }
        r
    }

    /// The sum over the rectangle of rows `x1..x2` and columns `y1..y2`, from
    /// the four corners of the rectangle in the table.
    pub fn sum(&self, x1: usize, y1: usize, x2: usize, y2: usize) -> (s: T)
        requires
            self.wf(),
            T::obeys_add_spec(),
            T::obeys_sub_spec(),
            x1 <= x2 <= self.height(),
            y1 <= y2 <= self.width(),
            can_corner_sum(self.cells(), x1 as int, y1 as int, x2 as int, y2 as int),
        ensures
            s == corner_sum(self.cells(), x1 as int, y1 as int, x2 as int, y2 as int),
    {
        assert(self.cells()[0] == self.data@[0]@);
        assert(self.cells()[x1 as int] == self.data@[x1 as int]@);
        assert(self.cells()[x2 as int] == self.data@[x2 as int]@);
        self.data[x2][y2] - self.data[x1][y2] - self.data[x2][y1] + self.data[x1][y1]
    }
}

} // verus!
