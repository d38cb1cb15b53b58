//! The imos method: many range additions, then one pass of running sums.
//!
//! An addition to a range is recorded at the two ends of the range only: the
//! value at its start, the negated value just behind its end. The running
//! sums of these records are the values of the array.

use vstd::prelude::*;

verus! {

/// The sum of the first `k` entries of `d`.
pub open spec fn running_sum(d: Seq<i64>, k: int) -> int
    decreases k,
{
    if k <= 0 {
        0
    } else {
        running_sum(d, k - 1) + d[k - 1]
    }
}

/// The records after `x` was added at `l` and taken away at `r`, each as far
/// as it lies inside the records.
pub open spec fn recorded(d: Seq<i64>, l: int, r: int, x: i64) -> Seq<i64> {
    let with_start = if 0 <= l < d.len() {
        d.update(l, (d[l] + x) as i64)
    } else {
        d
    };
    if 0 <= r < with_start.len() {
        with_start.update(r, (with_start[r] - x) as i64)
    } else {
        with_start
    }
}

/// Every running sum of `d` fits the machine integer.
pub open spec fn sums_fit(d: Seq<i64>) -> bool {
    forall|k: int| 0 <= k <= d.len() ==> i64::MIN <= #[trigger] running_sum(d, k) <= i64::MAX
}

/// Recording an addition to `l..r` raises by `x` the running sums that end
/// inside the range, and no others.
pub proof fn lemma_recorded_covers(d: Seq<i64>, l: int, r: int, x: i64, k: int)
    requires
        0 <= l <= r,
        0 <= k <= d.len(),
        l < d.len() ==> i64::MIN <= d[l] + x <= i64::MAX,
        r < d.len() ==> i64::MIN <= recorded(d, l, d.len() as int, x)[r] - x <= i64::MAX,
    ensures
        running_sum(recorded(d, l, r, x), k) == running_sum(d, k) + if l < k <= r {
            x as int
        } else {
            0
        },
    decreases k,
{
    if k > 0 {
        lemma_recorded_covers(d, l, r, x, k - 1);
    }
}

pub struct Imos1D {
    data: Vec<i64>,
}

impl Imos1D {
    /// The records: one for each position, and one behind the last.
    pub closed spec fn records(&self) -> Seq<i64> {
        self.data@
    }

    /// Creates the records for an array of length `n`, all zero.
    pub fn new(n: usize) -> (imos: Self)
        requires
            n < usize::MAX,
        ensures
            imos.records() == Seq::new((n + 1) as nat, |i: int| 0i64),
    {
        let imos = Imos1D { data: vec![0; n + 1] };
        assert(imos.data@ =~= Seq::new((n + 1) as nat, |i: int| 0i64));
        imos
    }

    /// Adds `x` to the range `l..r`: records `x` at `l` and its negation at
    /// `r`, each as far as it lies inside the records.
    pub fn add(&mut self, l: usize, r: usize, x: i64)
        requires
            l < old(self).records().len() ==> i64::MIN <= old(self).records()[l as int] + x
                <= i64::MAX,
            r < old(self).records().len() ==> i64::MIN <= recorded(
                old(self).records(),
                l as int,
                old(self).records().len() as int,
                x,
            )[r as int] - x <= i64::MAX,
        ensures
            final(self).records() == recorded(old(self).records(), l as int, r as int, x),
    {
        if l < self.data.len() {
            let v = self.data[l] + x;
            self.data[l] = v;
        }
        if r < self.data.len() {
            let v = self.data[r] - x;
            self.data[r] = v;
        }
    }

    /// Turns the records into running sums and returns them without the
    /// last: entry `i` of the result is the sum of the records up to and
    /// with position `i`. The result is also what the records are
    /// afterwards.
    pub fn build(&mut self) -> (res: Vec<i64>)
        requires
            sums_fit(old(self).records()),
        ensures
            res@.len() == if old(self).records().len() == 0 {
                0
            } else {
                old(self).records().len() - 1
            },
            forall|i: int|
                0 <= i < res@.len() ==> #[trigger] res@[i] == running_sum(old(self).records(), i + 1),
            final(self).records() == res@,
    {
        let ghost d = self.data@;
        let n = self.data.len();
        proof {
            if n > 0 {
                assert(running_sum(d, 1) == running_sum(d, 0) + d[0]);
            }
        }
        let mut i: usize = 1;
        while i < n
            invariant
                1 <= i,
                n == d.len(),
                self.data@.len() == n,
                sums_fit(d),
                forall|k: int| 0 <= k < i && k < n ==> #[trigger] self.data@[k] == running_sum(d, k + 1),
                forall|k: int| i <= k < n ==> #[trigger] self.data@[k] == d[k],
            decreases n - i,
        {
            assert(running_sum(d, i as int + 1) == running_sum(d, i as int) + d[i as int]);
            let v = self.data[i] + self.data[i - 1];
            self.data[i] = v;
            i += 1;
        }
        self.data.pop();
        let res = self.data.clone();
        assert(res@ =~= self.data@);
        res
    }
}

/// The sum of the first `k` entries of row `i` of `d`.
pub open spec fn row_sum(d: Seq<Seq<i64>>, i: int, k: int) -> int
    decreases k,
{
    if k <= 0 {
        0
    } else {
        row_sum(d, i, k - 1) + d[i][k - 1]
    }
}

/// The sum of the entries of `d` in the first `i` rows and the first `k`
/// columns.
pub open spec fn block_sum(d: Seq<Seq<i64>>, i: int, k: int) -> int
    decreases i,
{
    if i <= 0 {
        0
    } else {
        block_sum(d, i - 1, k) + row_sum(d, i - 1, k)
    }
}

/// `d` with `x` added at row `i`, column `j`, where that lies inside.
pub open spec fn bumped(d: Seq<Seq<i64>>, i: int, j: int, x: int) -> Seq<Seq<i64>> {
    if 0 <= i < d.len() && 0 <= j < d[i].len() {
        d.update(i, d[i].update(j, (d[i][j] + x) as i64))
    } else {
        d
    }
}

/// The records after `x` was added to the rectangle of rows `x1..x2` and
/// columns `y1..y2`: added at two corners and taken away at the other two.
pub open spec fn recorded_2d(d: Seq<Seq<i64>>, x1: int, y1: int, x2: int, y2: int, x: i64) -> Seq<
    Seq<i64>,
> {
    bumped(bumped(bumped(bumped(d, x1, y1, x as int), x2, y1, -x), x1, y2, -x), x2, y2, x as int)
}

/// `d` has `h` rows of `w` entries each.
pub open spec fn is_grid(d: Seq<Seq<i64>>, h: int, w: int) -> bool {
    d.len() == h && forall|i: int| 0 <= i < h ==> (#[trigger] d[i]).len() == w
}

/// Every row sum and every block sum of `d` fits the machine integer.
pub open spec fn sums_fit_2d(d: Seq<Seq<i64>>, h: int, w: int) -> bool {
    &&& forall|i: int, k: int|
        0 <= i < h && 0 <= k <= w ==> i64::MIN <= #[trigger] row_sum(d, i, k) <= i64::MAX
    &&& forall|i: int, k: int|
        0 <= i <= h && 0 <= k <= w ==> i64::MIN <= #[trigger] block_sum(d, i, k) <= i64::MAX
}

pub struct Imos2D {
    data: Vec<Vec<i64>>,
    h: usize,
    w: usize,
}

/// The rows of a vector of vectors.
pub open spec fn rows_of(data: Seq<Vec<i64>>) -> Seq<Seq<i64>> {
    Seq::new(data.len(), |i: int| data[i]@)
}

impl Imos2D {
    /// The records: one for each cell, and one more row and column behind
    /// the last.
    pub closed spec fn records(&self) -> Seq<Seq<i64>> {
        rows_of(self.data@)
    }

    /// The number of rows of the array.
    pub closed spec fn height(&self) -> int {
        self.h as int
    }

    /// The number of columns of the array.
    pub closed spec fn width(&self) -> int {
        self.w as int
    }

    /// The records are a grid one larger than the array each way.
    pub open spec fn wf(&self) -> bool {
        &&& self.height() < usize::MAX
        &&& self.width() < usize::MAX
        &&& is_grid(self.records(), self.height() + 1, self.width() + 1)
    }

    /// Creates the records for an array of `h` rows and `w` columns, all
    /// zero.
    pub fn new(h: usize, w: usize) -> (imos: Self)
        requires
            h < usize::MAX,
            w < usize::MAX,
        ensures
            imos.wf(),
            imos.height() == h,
            imos.width() == w,
            forall|i: int, j: int| 0 <= i <= h && 0 <= j <= w ==> #[trigger] imos.records()[i][j] == 0,
    {
        let mut data: Vec<Vec<i64>> = Vec::new();
        let mut i: usize = 0;
        while i < h + 1
            invariant
                h < usize::MAX,
                w < usize::MAX,
                i <= h + 1,
                data@.len() == i,
                forall|k: int| 0 <= k < i ==> (#[trigger] data@[k])@.len() == w + 1,
                forall|k: int, j: int| 0 <= k < i && 0 <= j <= w ==> #[trigger] data@[k]@[j] == 0,
            decreases h + 1 - i,
        {
            data.push(vec![0; w + 1]);
            i += 1;
        }
        Imos2D { data, h, w }
    }

    /// One of the four corner updates of `add`.
    fn bump(&mut self, i: usize, j: usize, x: i64, minus: bool)
        requires
            old(self).wf(),
            i <= old(self).height() && j <= old(self).width() ==> i64::MIN <= old(
                self,
            ).records()[i as int][j as int] + (if minus {
                -x
            } else {
                x as int
            }) <= i64::MAX,
        ensures
            final(self).wf(),
            final(self).height() == old(self).height(),
            final(self).width() == old(self).width(),
            final(self).records() == bumped(
                old(self).records(),
                i as int,
                j as int,
                if minus {
                    -x
                } else {
                    x as int
                },
            ),
    {
        if i < self.h + 1 && j < self.w + 1 {
            let ghost before = self.data@;
            assert(before[i as int]@ == rows_of(before)[i as int]);
            let v = if minus {
                self.data[i][j] - x
            } else {
                self.data[i][j] + x
            };
            self.data[i][j] = v;
            assert(rows_of(self.data@) =~= rows_of(before).update(
                i as int,
                rows_of(before)[i as int].update(j as int, v),
            ));
        }
    }

    /// Adds `x` to the rectangle of rows `x1..x2` and columns `y1..y2`:
    /// records `x` at two of its corners and the negation of `x` at the
    /// other two, each as far as it lies inside the records.
    pub fn add(&mut self, x1: usize, y1: usize, x2: usize, y2: usize, x: i64)
        requires
            old(self).wf(),
            ({
                let d0 = old(self).records();
                let d1 = bumped(d0, x1 as int, y1 as int, x as int);
                let d2 = bumped(d1, x2 as int, y1 as int, -x);
                let d3 = bumped(d2, x1 as int, y2 as int, -x);
                let h = old(self).height();
                let w = old(self).width();
                &&& x1 <= h && y1 <= w ==> i64::MIN <= d0[x1 as int][y1 as int] + x <= i64::MAX
                &&& x2 <= h && y1 <= w ==> i64::MIN <= d1[x2 as int][y1 as int] - x <= i64::MAX
                &&& x1 <= h && y2 <= w ==> i64::MIN <= d2[x1 as int][y2 as int] - x <= i64::MAX
                &&& x2 <= h && y2 <= w ==> i64::MIN <= d3[x2 as int][y2 as int] + x <= i64::MAX
            }),
        ensures
            final(self).wf(),
            final(self).height() == old(self).height(),
            final(self).width() == old(self).width(),
            final(self).records() == recorded_2d(
                old(self).records(),
                x1 as int,
                y1 as int,
                x2 as int,
                y2 as int,
                x,
            ),
    {
        self.bump(x1, y1, x, false);
        self.bump(x2, y1, x, true);
        self.bump(x1, y2, x, true);
        self.bump(x2, y2, x, false);
    }

    /// Turns the records into sums, first along the rows and then along the
    /// columns, and returns the `h` by `w` array of them: its entry in row
    /// `i` and column `j` is the sum of the records in the rows up to and
    /// with `i` and the columns up to and with `j`. The records themselves
    /// are these sums afterwards, the last row and column included.
    pub fn build(&mut self) -> (res: Vec<Vec<i64>>)
        requires
            old(self).wf(),
            sums_fit_2d(
                old(self).records(),
                old(self).height() + 1,
                old(self).width() + 1,
            ),
        ensures
            final(self).wf(),
            final(self).height() == old(self).height(),
            final(self).width() == old(self).width(),
            forall|i: int, j: int|
                0 <= i <= old(self).height() && 0 <= j <= old(self).width()
                    ==> #[trigger] final(self).records()[i][j] == block_sum(
                    old(self).records(),
                    i + 1,
                    j + 1,
                ),
            res@.len() == old(self).height(),
            forall|i: int| 0 <= i < res@.len() ==> (#[trigger] res@[i])@.len() == old(self).width(),
            forall|i: int, j: int|
                0 <= i < old(self).height() && 0 <= j < old(self).width() ==> #[trigger] res@[i]@[j]
                    == block_sum(old(self).records(), i + 1, j + 1),
    {
        let ghost d = self.records();
        let h = self.h;
        let w = self.w;
        let mut i: usize = 0;
        while i <= h
            invariant
                h == self.h,
                w == self.w,
                self.wf(),
                is_grid(d, h + 1, w + 1),
                sums_fit_2d(d, h + 1, w + 1),
                i <= h + 1,
                forall|a: int, b: int|
                    0 <= a < i && 0 <= b <= w ==> #[trigger] self.data@[a]@[b] == row_sum(d, a, b + 1),
                forall|a: int, b: int|
                    i <= a <= h && 0 <= b <= w ==> #[trigger] self.data@[a]@[b] == d[a][b],
            decreases h + 1 - i,
        {
            assert(self.data@[i as int]@ == self.records()[i as int]);
            assert(row_sum(d, i as int, 1) == row_sum(d, i as int, 0) + d[i as int][0]);
            let mut j: usize = 1;
            while j <= w
                invariant
                    h == self.h,
                    w == self.w,
                    self.wf(),
                    is_grid(d, h + 1, w + 1),
                    sums_fit_2d(d, h + 1, w + 1),
                    i <= h,
                    1 <= j <= w + 1,
                    forall|a: int, b: int|
                        0 <= a < i && 0 <= b <= w ==> #[trigger] self.data@[a]@[b] == row_sum(
                            d,
                            a,
                            b + 1,
                        ),
                    forall|a: int, b: int|
                        i < a <= h && 0 <= b <= w ==> #[trigger] self.data@[a]@[b] == d[a][b],
                    forall|b: int|
                        0 <= b < j ==> #[trigger] self.data@[i as int]@[b] == row_sum(
                            d,
                            i as int,
                            b + 1,
                        ),
                    forall|b: int| j <= b <= w ==> #[trigger] self.data@[i as int]@[b] == d[i as int][b],
                decreases w + 1 - j,
            {
                let ghost before = self.data@;
                assert(before[i as int]@ == self.records()[i as int]);
                assert(row_sum(d, i as int, j as int + 1) == row_sum(d, i as int, j as int)
                    + d[i as int][j as int]);
                let v = self.data[i][j] + self.data[i][j - 1];
                self.data[i][j] = v;
                assert(rows_of(self.data@) =~= rows_of(before).update(
                    i as int,
                    rows_of(before)[i as int].update(j as int, v),
                ));
                j += 1;
            }
            i += 1;
        }

        let mut j: usize = 0;
        while j <= w
            invariant
                h == self.h,
                w == self.w,
                self.wf(),
                is_grid(d, h + 1, w + 1),
                sums_fit_2d(d, h + 1, w + 1),
                j <= w + 1,
                forall|a: int, b: int|
                    0 <= a <= h && 0 <= b < j ==> #[trigger] self.data@[a]@[b] == block_sum(
                        d,
                        a + 1,
                        b + 1,
                    ),
                forall|a: int, b: int|
                    0 <= a <= h && j <= b <= w ==> #[trigger] self.data@[a]@[b] == row_sum(
                        d,
                        a,
                        b + 1,
                    ),
            decreases w + 1 - j,
        {
            assert(block_sum(d, 1, j as int + 1) == block_sum(d, 0, j as int + 1) + row_sum(
                d,
                0,
                j as int + 1,
            ));
            let mut i: usize = 1;
            while i <= h
                invariant
                    h == self.h,
                    w == self.w,
                    self.wf(),
                    is_grid(d, h + 1, w + 1),
                    sums_fit_2d(d, h + 1, w + 1),
                    j <= w,
                    1 <= i <= h + 1,
                    forall|a: int, b: int|
                        0 <= a <= h && 0 <= b < j ==> #[trigger] self.data@[a]@[b] == block_sum(
                            d,
                            a + 1,
                            b + 1,
                        ),
                    forall|a: int, b: int|
                        0 <= a <= h && j < b <= w ==> #[trigger] self.data@[a]@[b] == row_sum(
                            d,
                            a,
                            b + 1,
                        ),
                    forall|a: int|
                        0 <= a < i ==> #[trigger] self.data@[a]@[j as int] == block_sum(
                            d,
                            a + 1,
                            j as int + 1,
                        ),
                    forall|a: int|
                        i <= a <= h ==> #[trigger] self.data@[a]@[j as int] == row_sum(
                            d,
                            a,
                            j as int + 1,
                        ),
                decreases h + 1 - i,
            {
                let ghost before = self.data@;
                assert(before[i as int]@ == self.records()[i as int]);
                assert(before[i as int - 1]@ == self.records()[i as int - 1]);
                assert(block_sum(d, i as int + 1, j as int + 1) == block_sum(
                    d,
                    i as int,
                    j as int + 1,
                ) + row_sum(d, i as int, j as int + 1));
                let v = self.data[i][j] + self.data[i - 1][j];
                self.data[i][j] = v;
                assert(rows_of(self.data@) =~= rows_of(before).update(
                    i as int,
                    rows_of(before)[i as int].update(j as int, v),
                ));
                i += 1;
            }
            j += 1;
        }

        let ghost summed = self.data@;
        let mut res: Vec<Vec<i64>> = Vec::new();
        let mut i: usize = 0;
        while i < h
            invariant
                h == self.h,
                w == self.w,
                self.wf(),
                self.data@ == summed,
                i <= h,
                res@.len() == i,
                forall|a: int| 0 <= a < i ==> (#[trigger] res@[a])@.len() == w,
                forall|a: int, b: int|
                    0 <= a < i && 0 <= b < w ==> #[trigger] res@[a]@[b] == self.data@[a]@[b],
            decreases h - i,
        {
            assert(self.data@[i as int]@ == self.records()[i as int]);
            let mut row: Vec<i64> = Vec::new();
            let mut j: usize = 0;
            while j < w
                invariant
                    h == self.h,
                    w == self.w,
                    self.wf(),
                    self.data@ == summed,
                    i < h,
                    j <= w,
                    self.data@[i as int]@.len() == w + 1,
                    row@.len() == j,
                    forall|b: int| 0 <= b < j ==> #[trigger] row@[b] == self.data@[i as int]@[b],
                decreases w - j,
            {
                row.push(self.data[i][j]);
                j += 1;
            }
            res.push(row);
            i += 1;
        }
        assert forall|a: int, b: int| 0 <= a <= h && 0 <= b <= w implies #[trigger] self.records()[a][b]
            == block_sum(d, a + 1, b + 1) by {
            assert(self.records()[a] == summed[a]@);
        }
        res
    }
}

} // verus!
