//! Prefix sums in one and two dimensions, over any type that can be added
//! and subtracted.
//!
//! The contracts are stated over the type's own addition and subtraction;
//! for the machine integers these are the usual ones wherever nothing
//! overflows.

use std::ops::{Add, Sub};
use vstd::prelude::*;
use vstd::std_specs::ops::{AddSpec, SubSpec};

verus! {

/// `start` with the first `k` entries of `arr` added to it, one after the
/// other.
pub open spec fn prefix_sum<T: Add<Output = T>>(start: T, arr: Seq<T>, k: int) -> T
    decreases k,
{
    if k <= 0 {
        start
    } else {
        prefix_sum(start, arr, k - 1).add_spec(arr[k - 1])
    }
}

/// Every addition that the prefix sums of `arr` from `start` take is one
/// that the type allows.
pub open spec fn can_accumulate<T: Add<Output = T>>(start: T, arr: Seq<T>) -> bool {
    forall|k: int| 0 <= k < arr.len() ==> (#[trigger] prefix_sum(start, arr, k)).add_req(arr[k])
}

/// The sum of the entries `l..r` of `arr`, as a mathematical integer.
pub open spec fn range_total(arr: Seq<i64>, l: int, r: int) -> int
    decreases r - l,
{
    if r <= l {
        0
    } else {
        range_total(arr, l, r - 1) + arr[r - 1]
    }
}

/// Over `i64`, where no prefix sum overflows, the difference of two prefix
/// sums is the sum of the entries between them.
pub proof fn lemma_prefix_difference(arr: Seq<i64>, l: int, r: int)
    requires
        can_accumulate(0i64, arr),
        0 <= l <= r <= arr.len(),
    ensures
        prefix_sum(0i64, arr, r) - prefix_sum(0i64, arr, l) == range_total(arr, l, r),
    decreases r - l,
{
    if r > l {
        lemma_prefix_difference(arr, l, r - 1);
        assert(prefix_sum(0i64, arr, r - 1).add_req(arr[r - 1]));
    }
}

#[derive(Debug, Clone)]
#[verifier::reject_recursive_types(T)]
pub struct CumulativeSum<T> where T: Add<Output = T> + Sub<Output = T> + Copy + Default {
    data: Vec<T>,
}

impl<T> CumulativeSum<T> where T: Add<Output = T> + Sub<Output = T> + Copy + Default {
    /// The prefix sums: entry `k` is the sum of the first `k` elements.
    pub closed spec fn sums(&self) -> Seq<T> {
        self.data@
    }

    /// Builds the prefix sums of `arr`, starting from the type's default
    /// value.
    pub fn new(arr: &[T]) -> (r: Self)
        requires
            T::obeys_add_spec(),
            arr@.len() < usize::MAX,
            forall|z: T| call_ensures(T::default, (), z) ==> can_accumulate(z, arr@),
        ensures
            r.sums().len() == arr@.len() + 1,
            call_ensures(T::default, (), r.sums()[0]),
            forall|k: int|
                0 <= k <= arr@.len() ==> #[trigger] r.sums()[k] == prefix_sum(r.sums()[0], arr@, k),
    {
        let mut data: Vec<T> = Vec::with_capacity(arr.len() + 1);
        let zero = T::default();
        data.push(zero);
        let mut i: usize = 0;
        while i < arr.len()
            invariant
                T::obeys_add_spec(),
                can_accumulate(zero, arr@),
                i <= arr@.len(),
                data@.len() == i + 1,
                data@[0] == zero,
                forall|k: int| 0 <= k <= i ==> #[trigger] data@[k] == prefix_sum(zero, arr@, k),
            decreases arr@.len() - i,
        {
            let last = data[data.len() - 1];
            let val = arr[i];
            assert(prefix_sum(zero, arr@, i as int).add_req(arr@[i as int]));
            data.push(last + val);
            i += 1;
        }
        Self { data }
    }

    /// The sum of the elements `l..r`: the prefix sum at `r` less the one at
    /// `l`.
    pub fn sum(&self, l: usize, r: usize) -> (s: T)
        requires
            T::obeys_sub_spec(),
            l <= r < self.sums().len(),
            self.sums()[r as int].sub_req(self.sums()[l as int]),
        ensures
            s == self.sums()[r as int].sub_spec(self.sums()[l as int]),
    {
        self.data[r] - self.data[l]
    }
}

/// `cs` holds the prefix sums of `arr` from zero, as `new` builds them.
pub open spec fn holds_sums_of(cs: &CumulativeSum<i64>, arr: Seq<i64>) -> bool {
    &&& cs.sums().len() == arr.len() + 1
    &&& forall|k: int| 0 <= k <= arr.len() ==> #[trigger] cs.sums()[k] == prefix_sum(0i64, arr, k)
}

/// Over `i64`, where no prefix sum overflows and the sum of the entries
/// `l..r` fits the type, `sum(l, r)` can be taken and is the sum of those
/// entries. The sum of an empty range is zero, and the sum of a range is
/// the sum of its two parts.
pub proof fn lemma_sum_is_range_total(cs: &CumulativeSum<i64>, arr: Seq<i64>, l: int, m: int, r: int)
    requires
        can_accumulate(0i64, arr),
        holds_sums_of(cs, arr),
        0 <= l <= m <= r <= arr.len(),
        i64::MIN <= range_total(arr, l, r) <= i64::MAX,
    ensures
        cs.sums()[r].sub_req(cs.sums()[l]),
        cs.sums()[r].sub_spec(cs.sums()[l]) == range_total(arr, l, r),
        cs.sums()[l].sub_req(cs.sums()[l]),
        cs.sums()[l].sub_spec(cs.sums()[l]) == 0,
        range_total(arr, l, m) + range_total(arr, m, r) == range_total(arr, l, r),
{
    lemma_prefix_difference(arr, l, r);
    lemma_range_splits(arr, l, m, r);
}

/// The prefix sum of the first `i` rows and `j` columns of `arr`, built as
/// the table is: from the sum above, the sum to the left, the sum above and
/// to the left, and the entry itself.
pub open spec fn table_sum<T: Add<Output = T> + Sub<Output = T>>(
    start: T,
    arr: Seq<Seq<T>>,
    i: int,
    j: int,
) -> T
    decreases i + j,
{
    if i <= 0 || j <= 0 {
        start
    } else {
        table_sum(start, arr, i - 1, j).add_spec(table_sum(start, arr, i, j - 1)).sub_spec(
            table_sum(start, arr, i - 1, j - 1),
        ).add_spec(arr[i - 1][j - 1])
    }
}

/// Every step that the table of `h` rows and `w` columns takes is one that
/// the type allows.
pub open spec fn can_tabulate<T: Add<Output = T> + Sub<Output = T>>(
    start: T,
    arr: Seq<Seq<T>>,
    h: int,
    w: int,
) -> bool {
    forall|i: int, j: int|
        0 < i <= h && 0 < j <= w ==> {
            let above = table_sum(start, arr, i - 1, j);
            let left = table_sum(start, arr, i, j - 1);
            let corner = #[trigger] table_sum(start, arr, i - 1, j - 1);
            &&& above.add_req(left)
            &&& above.add_spec(left).sub_req(corner)
            &&& above.add_spec(left).sub_spec(corner).add_req(arr[i - 1][j - 1])
        }
}

/// The rows of a slice of vectors.
pub open spec fn rows<T>(arr: Seq<Vec<T>>) -> Seq<Seq<T>> {
    Seq::new(arr.len(), |i: int| arr[i]@)
}

/// The number of columns that a table of `arr` has: the length of the first
/// row, or none where there is no row.
pub open spec fn columns<T>(arr: Seq<Vec<T>>) -> int {
    if arr.len() > 0 {
        arr[0]@.len() as int
    } else {
        0
    }
}

/// What `sum` computes from the four corners of a rectangle.
pub open spec fn corner_sum<T: Add<Output = T> + Sub<Output = T>>(
    cells: Seq<Seq<T>>,
    x1: int,
    y1: int,
    x2: int,
    y2: int,
) -> T {
    cells[x2][y2].sub_spec(cells[x1][y2]).sub_spec(cells[x2][y1]).add_spec(cells[x1][y1])
}

/// The three steps of `corner_sum` are steps that the type allows.
pub open spec fn can_corner_sum<T: Add<Output = T> + Sub<Output = T>>(
    cells: Seq<Seq<T>>,
    x1: int,
    y1: int,
    x2: int,
    y2: int,
) -> bool {
    &&& cells[x2][y2].sub_req(cells[x1][y2])
    &&& cells[x2][y2].sub_spec(cells[x1][y2]).sub_req(cells[x2][y1])
    &&& cells[x2][y2].sub_spec(cells[x1][y2]).sub_spec(cells[x2][y1]).add_req(cells[x1][y1])
}

/// The sum of the entries of `arr` in the rows `x1..x2` and the columns
/// `y1..y2`, as a mathematical integer.
pub open spec fn rectangle_total(arr: Seq<Seq<i64>>, x1: int, y1: int, x2: int, y2: int) -> int
    decreases x2 - x1,
{
    if x2 <= x1 {
        0
    } else {
        rectangle_total(arr, x1, y1, x2 - 1, y2) + range_total(arr[x2 - 1], y1, y2)
    }
}

/// The sum of a range is the sum of its two parts.
pub proof fn lemma_range_splits(row: Seq<i64>, l: int, m: int, r: int)
    requires
        l <= m <= r,
    ensures
        range_total(row, l, r) == range_total(row, l, m) + range_total(row, m, r),
    decreases r - m,
{
    if r > m {
        lemma_range_splits(row, l, m, r - 1);
    }
}

/// The sum over a rectangle is the sum over the rectangle from the first
/// column on less the sum over the columns before the rectangle.
pub proof fn lemma_rectangle_splits(arr: Seq<Seq<i64>>, x1: int, y1: int, x2: int, y2: int)
    requires
        0 <= x1 <= x2,
        0 <= y1 <= y2,
    ensures
        rectangle_total(arr, x1, y1, x2, y2) == rectangle_total(arr, 0, 0, x2, y2) - rectangle_total(
            arr,
            0,
            0,
            x1,
            y2,
        ) - rectangle_total(arr, 0, 0, x2, y1) + rectangle_total(arr, 0, 0, x1, y1),
    decreases x2 - x1,
{
    if x2 > x1 {
        lemma_rectangle_splits(arr, x1, y1, x2 - 1, y2);
        lemma_range_splits(arr[x2 - 1], 0, y1, y2);
        lemma_rows_before(arr, x2, y2);
        lemma_rows_before(arr, x2, y1);
        assert(rectangle_total(arr, x1, y1, x2, y2) == rectangle_total(arr, x1, y1, x2 - 1, y2)
            + range_total(arr[x2 - 1], y1, y2));
    }
}

/// Where no row is counted, the sum is zero; and a sum from the first row
/// on grows by a row at a time.
pub proof fn lemma_rows_before(arr: Seq<Seq<i64>>, x: int, y: int)
    ensures
        x <= 0 ==> rectangle_total(arr, 0, 0, x, y) == 0,
        x > 0 ==> rectangle_total(arr, 0, 0, x, y) == rectangle_total(arr, 0, 0, x - 1, y)
            + range_total(arr[x - 1], 0, y),
{
}

/// Over `i64`, where no step of the table overflows, an entry of the table
/// is the sum of the entries of the matrix above it and to its left.
pub proof fn lemma_table_total(arr: Seq<Seq<i64>>, h: int, w: int, i: int, j: int)
    requires
        can_tabulate(0i64, arr, h, w),
        0 <= i <= h,
        0 <= j <= w,
    ensures
        table_sum(0i64, arr, i, j) == rectangle_total(arr, 0, 0, i, j),
    decreases i + j,
{
    if i <= 0 {
    } else if j <= 0 {
        lemma_no_columns(arr, i);
    } else {
        lemma_table_total(arr, h, w, i - 1, j);
        lemma_table_total(arr, h, w, i, j - 1);
        lemma_table_total(arr, h, w, i - 1, j - 1);
        assert(table_sum(0i64, arr, i - 1, j).add_req(table_sum(0i64, arr, i, j - 1)));
    }
}

/// A sum over no columns is zero.
pub proof fn lemma_no_columns(arr: Seq<Seq<i64>>, i: int)
    ensures
        rectangle_total(arr, 0, 0, i, 0) == 0,
    decreases i,
{
    if i > 0 {
        lemma_no_columns(arr, i - 1);
    }
}

/// Over `i64`, where no step overflows, what `sum` computes from the four
/// corners of a rectangle in the table of a matrix is the sum of the
/// entries of the matrix in the rectangle.
pub proof fn lemma_corner_sum_total(
    arr: Seq<Seq<i64>>,
    cells: Seq<Seq<i64>>,
    h: int,
    w: int,
    x1: int,
    y1: int,
    x2: int,
    y2: int,
)
    requires
        can_tabulate(0i64, arr, h, w),
        0 <= x1 <= x2 <= h,
        0 <= y1 <= y2 <= w,
        forall|i: int, j: int|
            0 <= i <= h && 0 <= j <= w ==> #[trigger] cells[i][j] == table_sum(0i64, arr, i, j),
        can_corner_sum(cells, x1, y1, x2, y2),
    ensures
        corner_sum(cells, x1, y1, x2, y2) == rectangle_total(arr, x1, y1, x2, y2),
{
    lemma_table_total(arr, h, w, x2, y2);
    lemma_table_total(arr, h, w, x1, y2);
    lemma_table_total(arr, h, w, x2, y1);
    lemma_table_total(arr, h, w, x1, y1);
    lemma_rectangle_splits(arr, x1, y1, x2, y2);
    assert(cells[x2][y2] == table_sum(0i64, arr, x2, y2));
    assert(cells[x1][y2] == table_sum(0i64, arr, x1, y2));
    assert(cells[x2][y1] == table_sum(0i64, arr, x2, y1));
    assert(cells[x1][y1] == table_sum(0i64, arr, x1, y1));
}

#[derive(Debug, Clone)]
#[verifier::reject_recursive_types(T)]
pub struct CumulativeSum2D<T> where T: Add<Output = T> + Sub<Output = T> + Copy + Default {
    data: Vec<Vec<T>>,
    h: usize,
    w: usize,
}

impl<T> CumulativeSum2D<T> where T: Add<Output = T> + Sub<Output = T> + Copy + Default {
    /// The table: the entry in row `i` and column `j` is the sum of the
    /// first `i` rows and `j` columns.
    pub closed spec fn cells(&self) -> Seq<Seq<T>> {
        rows(self.data@)
    }

    /// The number of rows of the matrix.
    pub closed spec fn height(&self) -> int {
        self.h as int
    }

    /// The number of columns of the matrix.
    pub closed spec fn width(&self) -> int {
        self.w as int
    }

    /// The table has one row and one column more than the matrix.
    pub open spec fn wf(&self) -> bool {
        &&& self.cells().len() == self.height() + 1
        &&& forall|i: int| 0 <= i <= self.height() ==> (#[trigger] self.cells()[i]).len() == self.width() + 1
    }

    /// Builds the table of `arr`, starting from the type's default value.
    /// Every row must be at least as long as the first.
    pub fn new(arr: &[Vec<T>]) -> (r: Self)
        requires
            T::obeys_add_spec(),
            T::obeys_sub_spec(),
            arr@.len() < usize::MAX,
            columns(arr@) < usize::MAX,
            forall|i: int| 0 <= i < arr@.len() ==> (#[trigger] arr@[i])@.len() >= columns(arr@),
            forall|z: T|
                call_ensures(T::default, (), z) ==> can_tabulate(
                    z,
                    rows(arr@),
                    arr@.len() as int,
                    columns(arr@),
                ),
        ensures
            r.wf(),
            r.height() == arr@.len(),
            r.width() == columns(arr@),
            call_ensures(T::default, (), r.cells()[0][0]),
            forall|i: int, j: int|
                0 <= i <= r.height() && 0 <= j <= r.width() ==> #[trigger] r.cells()[i][j]
                    == table_sum(r.cells()[0][0], rows(arr@), i, j),
    {
        let h = arr.len();
        let w = if h > 0 {
            arr[0].len()
        } else {
            0
        };
        let zero = T::default();
        let ghost m = rows(arr@);
        let mut data: Vec<Vec<T>> = Vec::new();
        let mut i: usize = 0;
        while i < h + 1
            invariant
                h < usize::MAX,
                w < usize::MAX,
                i <= h + 1,
                data@.len() == i,
                forall|a: int| 0 <= a < i ==> (#[trigger] data@[a])@.len() == w + 1,
                forall|a: int, b: int| 0 <= a < i && 0 <= b <= w ==> #[trigger] data@[a]@[b] == zero,
            decreases h + 1 - i,
        {
            let mut row: Vec<T> = Vec::new();
            let mut j: usize = 0;
            while j < w + 1
                invariant
                    w < usize::MAX,
                    j <= w + 1,
                    row@.len() == j,
                    forall|b: int| 0 <= b < j ==> #[trigger] row@[b] == zero,
                decreases w + 1 - j,
            {
                row.push(zero);
                j += 1;
            }
            data.push(row);
            i += 1;
        }

        let mut i: usize = 0;
        while i < h
            invariant
                T::obeys_add_spec(),
                T::obeys_sub_spec(),
                h == arr@.len(),
                w == columns(arr@),
                h < usize::MAX,
                w < usize::MAX,
                m == rows(arr@),
                forall|a: int| 0 <= a < arr@.len() ==> (#[trigger] arr@[a])@.len() >= w,
                can_tabulate(zero, m, h as int, w as int),
                i <= h,
                data@.len() == h + 1,
                forall|a: int| 0 <= a <= h ==> (#[trigger] data@[a])@.len() == w + 1,
                forall|a: int, b: int|
                    0 <= a <= i && 0 <= b <= w ==> #[trigger] data@[a]@[b] == table_sum(zero, m, a, b),
                forall|a: int, b: int| i < a <= h && 0 <= b <= w ==> #[trigger] data@[a]@[b] == zero,
            decreases h - i,
        {
            let mut j: usize = 0;
            while j < w
                invariant
                    T::obeys_add_spec(),
                    T::obeys_sub_spec(),
                    h == arr@.len(),
                    w == columns(arr@),
                    h < usize::MAX,
                    w < usize::MAX,
                    m == rows(arr@),
                    forall|a: int| 0 <= a < arr@.len() ==> (#[trigger] arr@[a])@.len() >= w,
                    can_tabulate(zero, m, h as int, w as int),
                    i < h,
                    j <= w,
                    data@.len() == h + 1,
                    forall|a: int| 0 <= a <= h ==> (#[trigger] data@[a])@.len() == w + 1,
                    forall|a: int, b: int|
                        0 <= a <= i && 0 <= b <= w ==> #[trigger] data@[a]@[b] == table_sum(
                            zero,
                            m,
                            a,
                            b,
                        ),
                    forall|b: int|
                        0 <= b <= j ==> #[trigger] data@[i + 1]@[b] == table_sum(zero, m, i + 1, b),
                    forall|b: int| j < b <= w ==> #[trigger] data@[i + 1]@[b] == zero,
                    forall|a: int, b: int|
                        i + 1 < a <= h && 0 <= b <= w ==> #[trigger] data@[a]@[b] == zero,
                decreases w - j,
            {
                let above = data[i][j + 1];
                let left = data[i + 1][j];
                let corner = data[i][j];
                let here = arr[i][j];
                proof {
                    assert(above == table_sum(zero, m, i as int, j + 1));
                    assert(left == table_sum(zero, m, i + 1, j as int));
                    assert(corner == table_sum(zero, m, i as int, j as int));
                    assert(here == m[i as int][j as int]);
                    let c = table_sum(zero, m, (i + 1) - 1, (j + 1) - 1);
                    assert(c == corner);
                }
                let v = above + left - corner + here;
                assert(v == table_sum(zero, m, i + 1, j + 1));
                data[i + 1][j + 1] = v;
                j += 1;
            }
            i += 1;
        }
        let r = Self { data, h, w };
        assert(r.cells()[0] == r.data@[0]@);
        assert forall|a: int, b: int| 0 <= a <= r.height() && 0 <= b <= r.width() implies #[trigger] r.cells()[a][b]
            == table_sum(r.cells()[0][0], rows(arr@), a, b) by {
            assert(r.cells()[a] == r.data@[a]@);
            assert(r.data@[a]@[b] == table_sum(zero, m, a, b));
        }
        r
    }

    /// The sum over the rectangle of rows `x1..x2` and columns `y1..y2`, from
    /// the four corners of the rectangle in the table.
    pub fn sum(&self, x1: usize, y1: usize, x2: usize, y2: usize) -> (s: T)
        requires
            self.wf(),
            T::obeys_add_spec(),
            T::obeys_sub_spec(),
            x1 <= x2 <= self.height(),
            y1 <= y2 <= self.width(),
            can_corner_sum(self.cells(), x1 as int, y1 as int, x2 as int, y2 as int),
        ensures
            s == corner_sum(self.cells(), x1 as int, y1 as int, x2 as int, y2 as int),
    {
        assert(self.cells()[x1 as int] == self.data@[x1 as int]@);
        assert(self.cells()[x2 as int] == self.data@[x2 as int]@);
        self.data[x2][y2] - self.data[x1][y2] - self.data[x2][y1] + self.data[x1][y1]
    }
}

} // verus!
