//! Three layouts of a ten-column table of `i64`: row-major, column-major,
//! and PAX (rows grouped in pages, each page stored column-major).
use vstd::prelude::*;

verus! {

/// Sum of column `c` over the first `k` rows.
pub open spec fn col_sum(rows: Seq<Seq<i64>>, c: int, k: int) -> int
    decreases k,
{
    if k <= 0 {
        0
    } else {
        col_sum(rows, c, k - 1) + rows[k - 1][c]
    }
}

/// Every running total of column `c`, row by row, fits in an `i64`.
pub open spec fn sums_fit(rows: Seq<Seq<i64>>, c: int) -> bool {
    forall|k: int| 0 <= k <= rows.len() ==> i64::MIN <= #[trigger] col_sum(rows, c, k) <= i64::MAX
}

/// A table of rows of ten `i64` values.
pub trait ColumnTable {
    /// The rows, in insertion order.
    spec fn rows(&self) -> Seq<Seq<i64>>;

    /// The layout's internal facts hold.
    spec fn well_formed(&self) -> bool;

    /// Reads by position are possible in this layout.
    spec fn readable(&self) -> bool;

    fn new() -> (table: Self) where Self: Sized
        ensures
            table.well_formed(),
            table.rows() == Seq::<Seq<i64>>::empty(),
    ;

    fn insert(&mut self, row: [i64; 10])
        requires
            old(self).well_formed(),
        ensures
            final(self).well_formed(),
            final(self).rows() == old(self).rows().push(row@),
            final(self).readable() == old(self).readable(),
    ;

    fn get(&self, row: usize, column: usize) -> (value: i64)
        requires
            self.well_formed(),
            self.readable(),
            row < self.rows().len(),
            column < 10,
        ensures
            value == self.rows()[row as int][column as int],
    ;

    fn get_col_sum(&mut self, column: usize) -> (sum: i64)
        requires
            old(self).well_formed(),
            column < 10,
            sums_fit(old(self).rows(), column as int),
        ensures
            sum == col_sum(old(self).rows(), column as int, old(self).rows().len() as int),
            final(self).rows() == old(self).rows(),
            final(self).well_formed(),
            final(self).readable() == old(self).readable(),
    ;
}

/// Rows stored one after another.
pub struct RowStore {
    data: Vec<[i64; 10]>,
}

/// Each column stored as its own vector.
pub struct ColStore {
    data: [Vec<i64>; 10],
}

proof fn lemma_col_sum_step(rows: Seq<Seq<i64>>, c: int, k: int)
    requires
        0 <= k < rows.len(),
        sums_fit(rows, c),
    ensures
        col_sum(rows, c, k + 1) == col_sum(rows, c, k) + rows[k][c],
        i64::MIN <= col_sum(rows, c, k + 1) <= i64::MAX,
{
    assert(i64::MIN <= col_sum(rows, c, k + 1) <= i64::MAX);
}

impl ColumnTable for RowStore {
    closed spec fn rows(&self) -> Seq<Seq<i64>> {
        self.data@.map_values(|r: [i64; 10]| r@)
    }

    closed spec fn well_formed(&self) -> bool {
        true
    }

    open spec fn readable(&self) -> bool {
        true
    }

    fn new() -> (table: Self) {
        let table = Self { data: Vec::new() };
        assert(table.rows() =~= Seq::<Seq<i64>>::empty());
        table
    }

    fn insert(&mut self, row: [i64; 10]) {
        self.data.push(row);
        assert(self.rows() =~= old(self).rows().push(row@));
    }

    fn get(&self, row: usize, column: usize) -> (value: i64) {
        self.data[row][column]
    }

    fn get_col_sum(&mut self, column: usize) -> (sum: i64) {
        let ghost rows = self.rows();
        let mut sum: i64 = 0;
        let mut i: usize = 0;
        while i < self.data.len()
            invariant
                rows == self.rows(),
                *self == *old(self),
                column < 10,
                sums_fit(rows, column as int),
                i <= self.data@.len(),
                sum == col_sum(rows, column as int, i as int),
            decreases self.data@.len() - i,
        {
            proof {
                lemma_col_sum_step(rows, column as int, i as int);
            }
            sum = sum + self.data[i][column];
            i = i + 1;
        }
        sum
    }
}

/// The rows of a column-major store whose columns are `cols`.
pub open spec fn columns_rows(cols: Seq<Vec<i64>>, n: int) -> Seq<Seq<i64>> {
    Seq::new(n as nat, |r: int| Seq::new(10, |c: int| cols[c]@[r]))
}

impl ColumnTable for ColStore {
    closed spec fn rows(&self) -> Seq<Seq<i64>> {
        columns_rows(self.data@, self.data@[0]@.len() as int)
    }

    closed spec fn well_formed(&self) -> bool {
        forall|c: int| 0 <= c < 10 ==> #[trigger] self.data@[c]@.len() == self.data@[0]@.len()
    }

    open spec fn readable(&self) -> bool {
        true
    }

    fn new() -> (table: Self) {
        let table = Self {
            data: [
                Vec::new(),
                Vec::new(),
                Vec::new(),
                Vec::new(),
                Vec::new(),
                Vec::new(),
                Vec::new(),
                Vec::new(),
                Vec::new(),
                Vec::new(),
            ],
        };
        assert(table.rows() =~= Seq::<Seq<i64>>::empty());
        table
    }

    fn insert(&mut self, row: [i64; 10]) {
        let ghost n = self.data@[0]@.len();
        let mut col: usize = 0;
        while col < 10
            invariant
                col <= 10,
                n == old(self).data@[0]@.len(),
                old(self).well_formed(),
                forall|c: int| 0 <= c < col ==> #[trigger] self.data@[c]@ == old(self).data@[c]@.push(row@[c]),
                forall|c: int| col <= c < 10 ==> #[trigger] self.data@[c]@ == old(self).data@[c]@,
            decreases 10 - col,
        {
            let val = row[col];
            self.data[col].push(val);
            col = col + 1;
        }
        assert(self.rows() =~= old(self).rows().push(row@)) by {
            assert forall|r: int| 0 <= r < n + 1 implies #[trigger] self.rows()[r] =~= old(self).rows().push(row@)[r] by {
                if r < n {
                    assert forall|c: int| 0 <= c < 10 implies self.data@[c]@[r] == old(self).data@[c]@[r] by {
                        assert(self.data@[c]@ == old(self).data@[c]@.push(row@[c]));
                    }
                } else {
                    assert forall|c: int| 0 <= c < 10 implies self.data@[c]@[r] == row@[c] by {
                        assert(self.data@[c]@ == old(self).data@[c]@.push(row@[c]));
                    }
                }
            }
        }
    }

    fn get(&self, row: usize, column: usize) -> (value: i64) {
        self.data[column][row]
    }

    fn get_col_sum(&mut self, column: usize) -> (sum: i64) {
        let ghost rows = self.rows();
        let mut sum: i64 = 0;
        let mut i: usize = 0;
        while i < self.data[column].len()
            invariant
                rows == self.rows(),
                *self == *old(self),
                self.well_formed(),
                column < 10,
                sums_fit(rows, column as int),
                rows.len() == self.data@[column as int]@.len(),
                i <= self.data@[column as int]@.len(),
                sum == col_sum(rows, column as int, i as int),
            decreases self.data@[column as int]@.len() - i,
        {
            proof {
                lemma_col_sum_step(rows, column as int, i as int);
            }
            sum = sum + self.data[column][i];
            i = i + 1;
        }
        sum
    }
}


/// One page of a PAX store: up to `PAGE_ROWS` rows, stored column-major.
pub struct PaxPage<const PAGE_ROWS: usize> {
    columns: [Vec<i64>; 10],
    rows: usize,
}

/// Rows grouped in pages of `PAGE_ROWS`.
pub struct PaxStore<const PAGE_ROWS: usize> {
    pages: Vec<PaxPage<PAGE_ROWS>>,
}

/// The rows of `ps`, one group after the other.
pub open spec fn concat_rows(ps: Seq<Seq<Seq<i64>>>) -> Seq<Seq<i64>>
    decreases ps.len(),
{
    if ps.len() == 0 {
        Seq::empty()
    } else {
        concat_rows(ps.drop_last()) + ps.last()
    }
}

/// Groups of exactly `n` rows, except the last, which has at most `n`.
pub open spec fn uniform_groups(ps: Seq<Seq<Seq<i64>>>, n: int) -> bool {
    &&& forall|i: int| 0 <= i < ps.len() - 1 ==> (#[trigger] ps[i]).len() == n
    &&& ps.len() > 0 ==> ps.last().len() <= n
}

proof fn lemma_concat_uniform(ps: Seq<Seq<Seq<i64>>>, n: int, r: int)
    requires
        n > 0,
        uniform_groups(ps, n),
        0 <= r < concat_rows(ps).len(),
    ensures
        ps.len() > 0,
        concat_rows(ps).len() == (ps.len() - 1) * n + ps.last().len(),
        r / n < ps.len(),
        r % n < ps[r / n].len(),
        concat_rows(ps)[r] == ps[r / n][r % n],
    decreases ps.len(),
{
    if ps.len() == 0 {
        assert(concat_rows(ps).len() == 0);
    }
    let front = ps.drop_last();
    let m = ps.len() - 1;
    assert(concat_rows(ps) == concat_rows(front) + ps.last());
    if m == 0 {
        assert(front.len() == 0);
        assert(concat_rows(front).len() == 0);
        vstd::arithmetic::div_mod::lemma_fundamental_div_mod_converse(r, n, 0, r);
    } else {
        assert(uniform_groups(front, n)) by {
            assert(front.last() == ps[m - 1]);
        }
        lemma_concat_len(front, n);
        assert(concat_rows(front).len() == m * n) by {
            assert((m - 1) * n + n == m * n) by (nonlinear_arith);
        }
        if r < concat_rows(front).len() {
            lemma_concat_uniform(front, n, r);
        } else {
            vstd::arithmetic::div_mod::lemma_fundamental_div_mod_converse(r, n, m, r - m * n);
        }
    }
    lemma_concat_len(ps, n);
}

proof fn lemma_concat_len(ps: Seq<Seq<Seq<i64>>>, n: int)
    requires
        uniform_groups(ps, n),
        ps.len() > 0,
    ensures
        concat_rows(ps).len() == (ps.len() - 1) * n + ps.last().len(),
    decreases ps.len(),
{
    let front = ps.drop_last();
    let m = ps.len() - 1;
    assert(concat_rows(ps) == concat_rows(front) + ps.last());
    if m > 0 {
        assert(uniform_groups(front, n)) by {
            assert(front.last() == ps[m - 1]);
        }
        lemma_concat_len(front, n);
        assert((m - 1) * n + n == m * n) by (nonlinear_arith);
    } else {
        assert(concat_rows(front) == Seq::<Seq<i64>>::empty());
    }
}

proof fn lemma_concat_prefix(ps: Seq<Seq<Seq<i64>>>, p: int)
    requires
        0 <= p <= ps.len(),
    ensures
        concat_rows(ps.take(p)).len() <= concat_rows(ps).len(),
        forall|k: int| 0 <= k < concat_rows(ps.take(p)).len() ==> concat_rows(ps)[k] == #[trigger] concat_rows(ps.take(p))[k],
        p < ps.len() ==> concat_rows(ps.take(p + 1)) == concat_rows(ps.take(p)) + ps[p],
    decreases ps.len() - p,
{
    if p < ps.len() {
        assert(ps.take(p + 1).drop_last() =~= ps.take(p));
        assert(ps.take(p + 1).last() == ps[p]);
        lemma_concat_prefix(ps, p + 1);
        assert forall|k: int| 0 <= k < concat_rows(ps.take(p)).len() implies concat_rows(ps)[k] == #[trigger] concat_rows(ps.take(p))[k] by {
            assert(concat_rows(ps.take(p + 1))[k] == concat_rows(ps.take(p))[k]);
        }
    } else {
        assert(ps.take(p) =~= ps);
    }
}

/// The rows of a page.
spec fn page_rows<const P: usize>(page: PaxPage<P>) -> Seq<Seq<i64>> {
    columns_rows(page.columns@, page.rows as int)
}

/// A page holds at least one row, all its columns have one value per
/// row, and it is not over-full.
spec fn page_ok<const P: usize>(page: PaxPage<P>) -> bool {
    &&& page.rows >= 1
    &&& forall|c: int| 0 <= c < 10 ==> #[trigger] page.columns@[c]@.len() == page.rows
    &&& P > 0 ==> page.rows <= P
}

impl<const PAGE_ROWS: usize> PaxStore<PAGE_ROWS> {
    closed spec fn groups(&self) -> Seq<Seq<Seq<i64>>> {
        self.pages@.map_values(|p: PaxPage<PAGE_ROWS>| page_rows(p))
    }
}

impl<const PAGE_ROWS: usize> ColumnTable for PaxStore<PAGE_ROWS> {
    closed spec fn rows(&self) -> Seq<Seq<i64>> {
        concat_rows(self.groups())
    }

    closed spec fn well_formed(&self) -> bool {
        &&& forall|i: int| 0 <= i < self.pages@.len() ==> page_ok(#[trigger] self.pages@[i])
        &&& forall|i: int| 0 <= i < self.pages@.len() - 1 ==> (#[trigger] self.pages@[i]).rows == PAGE_ROWS
    }

    open spec fn readable(&self) -> bool {
        PAGE_ROWS > 0
    }

    fn new() -> (table: Self) {
        let table = Self { pages: Vec::new() };
        assert(table.groups() =~= Seq::<Seq<Seq<i64>>>::empty());
        table
    }

    fn insert(&mut self, row: [i64; 10]) {
        let ghost g0 = self.groups();
        let need_new = match self.pages.last() {
            None => true,
            Some(page) => page.rows == PAGE_ROWS,
        };
        if need_new {
            self.pages.push(
                PaxPage {
                    columns: [
                        Vec::with_capacity(PAGE_ROWS),
                        Vec::with_capacity(PAGE_ROWS),
                        Vec::with_capacity(PAGE_ROWS),
                        Vec::with_capacity(PAGE_ROWS),
                        Vec::with_capacity(PAGE_ROWS),
                        Vec::with_capacity(PAGE_ROWS),
                        Vec::with_capacity(PAGE_ROWS),
                        Vec::with_capacity(PAGE_ROWS),
                        Vec::with_capacity(PAGE_ROWS),
                        Vec::with_capacity(PAGE_ROWS),
                    ],
                    rows: 0,
                },
            );
            proof {
                let np = self.pages@[self.pages@.len() - 1];
                assert(page_rows(np) =~= Seq::<Seq<i64>>::empty());
                assert(self.groups() =~= g0.push(Seq::empty()));
                assert(self.groups().drop_last() =~= g0);
                assert(concat_rows(self.groups()) =~= concat_rows(g0));
            }
        }
        let ghost pages1 = self.pages@;
        let ghost g1 = self.groups();
        let ghost last = pages1.len() - 1;
        let page = self.pages.last_mut().unwrap();
        let mut column: usize = 0;
        while column < 10
            invariant
                column <= 10,
                forall|c: int| 0 <= c < column ==> #[trigger] page.columns@[c]@ == pages1[last].columns@[c]@.push(row@[c]),
                forall|c: int| column <= c < 10 ==> #[trigger] page.columns@[c]@ == pages1[last].columns@[c]@,
                page.rows == pages1[last].rows,
            decreases 10 - column,
        {
            let value = row[column];
            page.columns[column].push(value);
            column = column + 1;
        }
        let _ = page.columns[0].len();
        proof {
            assert(page.columns@[0]@ == pages1[last].columns@[0]@.push(row@[0]));
            if !need_new {
                assert(page_ok(pages1[last]));
            }
        }
        page.rows += 1;
        proof {
            let np = self.pages@[last];
            assert forall|c: int| 0 <= c < 10 implies #[trigger] np.columns@[c]@ == pages1[last].columns@[c]@.push(row@[c]) by {}
            if !need_new {
                assert(page_ok(pages1[last]));
            }
            assert(page_rows(np) =~= page_rows(pages1[last]).push(row@)) by {
                assert forall|r: int| 0 <= r < np.rows implies #[trigger] page_rows(np)[r] =~= page_rows(pages1[last]).push(row@)[r] by {
                    if r < np.rows - 1 {
                        assert forall|c: int| 0 <= c < 10 implies np.columns@[c]@[r] == pages1[last].columns@[c]@[r] by {
                            assert(np.columns@[c]@ == pages1[last].columns@[c]@.push(row@[c]));
                        }
                    } else {
                        assert forall|c: int| 0 <= c < 10 implies np.columns@[c]@[r] == row@[c] by {
                            assert(np.columns@[c]@ == pages1[last].columns@[c]@.push(row@[c]));
                        }
                    }
                }
            }
            assert(self.groups() =~= g1.update(last, g1[last].push(row@)));
            assert(self.groups().drop_last() =~= g1.drop_last());
            assert(self.rows() =~= old(self).rows().push(row@));
            assert forall|i: int| 0 <= i < self.pages@.len() implies page_ok(#[trigger] self.pages@[i]) by {
                if i != last {
                    assert(self.pages@[i] == old(self).pages@[i]);
                }
            }
            assert forall|i: int| 0 <= i < self.pages@.len() - 1 implies (#[trigger] self.pages@[i]).rows == PAGE_ROWS by {
                assert(self.pages@[i] == pages1[i]);
                if need_new && i == last - 1 {
                    assert(old(self).pages@.last() == pages1[i]);
                } else {
                    assert(pages1[i] == old(self).pages@[i]);
                }
            }
        }
    }

    fn get(&self, row: usize, column: usize) -> (value: i64) {
        let page_index = row / PAGE_ROWS;
        let row_in_page = row % PAGE_ROWS;
        proof {
            let g = self.groups();
            assert(uniform_groups(g, PAGE_ROWS as int)) by {
                assert forall|i: int| 0 <= i < g.len() - 1 implies (#[trigger] g[i]).len() == PAGE_ROWS by {
                    assert(self.pages@[i].rows == PAGE_ROWS);
                }
                if g.len() > 0 {
                    assert(page_ok(self.pages@[g.len() - 1]));
                }
            }
            lemma_concat_uniform(g, PAGE_ROWS as int, row as int);
            assert(page_ok(self.pages@[page_index as int]));
        }
        self.pages[page_index].columns[column][row_in_page]
    }

    fn get_col_sum(&mut self, column: usize) -> (sum: i64) {
        let ghost rows = self.rows();
        let ghost g = self.groups();
        let mut sum: i64 = 0;
        let mut p: usize = 0;
        while p < self.pages.len()
            invariant
                rows == self.rows(),
                g == self.groups(),
                self.well_formed(),
                column < 10,
                sums_fit(rows, column as int),
                p <= self.pages@.len(),
                sum == col_sum(rows, column as int, concat_rows(g.take(p as int)).len() as int),
            decreases self.pages@.len() - p,
        {
            let ghost base = concat_rows(g.take(p as int)).len() as int;
            proof {
                lemma_concat_prefix(g, p as int);
                lemma_concat_prefix(g, p as int + 1);
                assert(page_ok(self.pages@[p as int]));
            }
            let mut j: usize = 0;
            while j < self.pages[p].columns[column].len()
                invariant
                    rows == self.rows(),
                    g == self.groups(),
                    self.well_formed(),
                    column < 10,
                    sums_fit(rows, column as int),
                    p < self.pages@.len(),
                    base == concat_rows(g.take(p as int)).len(),
                    concat_rows(g.take(p as int + 1)) == concat_rows(g.take(p as int)) + g[p as int],
                    concat_rows(g.take(p as int + 1)).len() <= rows.len(),
                    forall|k: int| 0 <= k < concat_rows(g.take(p as int + 1)).len() ==> rows[k] == #[trigger] concat_rows(g.take(p as int + 1))[k],
                    page_ok(self.pages@[p as int]),
                    j <= self.pages@[p as int].columns@[column as int]@.len(),
                    sum == col_sum(rows, column as int, base + j),
                decreases self.pages@[p as int].columns@[column as int]@.len() - j,
            {
                proof {
                    let k = base + j;
                    assert(concat_rows(g.take(p as int + 1))[k] == g[p as int][j as int]);
                    assert(rows[k] == g[p as int][j as int]);
                    lemma_col_sum_step(rows, column as int, k);
                }
                sum = sum + self.pages[p].columns[column][j];
                j = j + 1;
            }
            p = p + 1;
        }
        proof {
            assert(g.take(self.pages@.len() as int) =~= g);
        }
        sum
    }
}

} // verus!
